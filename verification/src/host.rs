//! The host over the durable spine: what it decides between one access to the
//! stream, the lease store or the agent component and the next. Whoever runs it
//! performs those accesses and reports what came of them.

use vstd::prelude::*;
use vstd::utf8::*;

use crate::capability;
use crate::capability::{Grant, GrantView};
use crate::channel;
use crate::channel::is_safe_channel;
use crate::control;
use crate::control::parse_halt;
use crate::lease;
use crate::lease::{lease_key, task_id};
use crate::message;
use crate::message::{act_str, to_message, Message, MessageView, Wire, WireView};
use crate::names::{NameSet, TaskLog};
use crate::seen::SeenSet;
use crate::text;
use crate::text::same_text;

verus! {

/// Who decides what, and by when.
pub struct Policy {
    /// The accountable agent, in whose name the decision is announced.
    pub owner: String,
    /// What is to be decided.
    pub topic: String,
    /// The number of rounds after which the owner decides at the latest.
    pub deadline: u32,
}

/// The state of the host.
pub struct Host {
    /// Which agent was granted which channels.
    pub table: Vec<Grant>,
    /// The decision policy.
    pub policy: Policy,
    /// The identifier of the next message.
    pub next_id: u64,
    /// Which agent has been given which message.
    pub seen: SeenSet,
    /// The agents that an operator has halted.
    pub killed: NameSet,
    /// The agents that took part in the decision.
    pub engaged: NameSet,
    /// Own messages that were kept from an agent.
    pub dropped_echo: u32,
    /// Emissions that were blocked.
    pub dropped_emit: u32,
    /// Tasks that an agent left alone because another one held the lease.
    pub dropped_dup: u32,
    /// Which agent handled which task.
    pub task_done: TaskLog,
    /// The accepted messages, in order.
    pub accepted: Vec<Wire>,
    /// The current round, counted from zero.
    pub round: u32,
    /// The number of messages accepted in the current round.
    pub produced: u32,
    /// The agent whose turn it is.
    pub turn: Option<usize>,
    /// What is to be handed to the agent whose turn it is.
    pub inbox: Vec<Message>,
    /// Whether the decision has been made.
    pub decided: bool,
}

/// The state of the host, in mathematical terms.
#[verifier::ext_equal]
pub struct HostView {
    pub table: Seq<GrantView>,
    pub owner: Seq<char>,
    pub topic: Seq<char>,
    pub deadline: nat,
    pub next_id: nat,
    pub seen: Set<(Seq<char>, u64)>,
    pub killed: Set<Seq<char>>,
    pub engaged: Set<Seq<char>>,
    pub echoes: nat,
    pub blocked: nat,
    pub duplicates: nat,
    pub handled: Map<Seq<char>, Seq<char>>,
    pub accepted: Seq<WireView>,
    pub round: nat,
    pub produced: nat,
    pub turn: Option<nat>,
    pub inbox: Seq<MessageView>,
    pub decided: bool,
}

impl View for Host {
    type V = HostView;

    open spec fn view(&self) -> HostView {
        HostView {
            table: capability::grants_view(self.table@),
            owner: self.policy.owner@,
            topic: self.policy.topic@,
            deadline: self.policy.deadline as nat,
            next_id: self.next_id as nat,
            seen: self.seen@,
            killed: self.killed@,
            engaged: self.engaged@,
            echoes: self.dropped_echo as nat,
            blocked: self.dropped_emit as nat,
            duplicates: self.dropped_dup as nat,
            handled: self.task_done@,
            accepted: message::wires_view(self.accepted@),
            round: self.round as nat,
            produced: self.produced as nat,
            turn: match self.turn {
                Some(agent) => Some(agent as nat),
                None => None,
            },
            inbox: message::messages_view(self.inbox@),
            decided: self.decided,
        }
    }
}

/// The first identifier after those of the seeds, and at least one.
pub open spec fn id_after(seeds: Seq<WireView>) -> nat
    decreases seeds.len(),
{
    if seeds.len() == 0 {
        1
    } else {
        let before = id_after(seeds.drop_last());
        let after_last = (seeds.last().id + 1) as nat;
        if before < after_last {
            after_last
        } else {
            before
        }
    }
}

/// The number of rounds that a run over the durable spine has at most.
pub const ROUND_BUDGET: u32 = 8;

/// The host before its first round.
pub open spec fn host_start(
    table: Seq<GrantView>,
    owner: Seq<char>,
    topic: Seq<char>,
    deadline: nat,
    seeds: Seq<WireView>,
) -> HostView {
    HostView {
        table,
        owner,
        topic,
        deadline,
        next_id: id_after(seeds),
        seen: Set::empty(),
        killed: Set::empty(),
        engaged: Set::empty(),
        echoes: 0,
        blocked: 0,
        duplicates: 0,
        handled: Map::empty(),
        accepted: seq![],
        round: 0,
        produced: 0,
        turn: None,
        inbox: seq![],
        decided: false,
    }
}

/// What the host does with a message that the stream delivered for an agent.
pub enum Intake {
    /// The agent's own message: kept from it.
    Echo,
    /// The agent has been given this message before.
    Repeated,
    /// A task: to be handled if its lease can be had under `key`.
    Claim { task: String, key: String },
    /// Waiting to be handed to the agent.
    Queued,
}

/// What an intake says.
pub enum IntakeView {
    Echo,
    Repeated,
    Claim { task: Seq<char>, key: Seq<char> },
    Queued,
}

impl View for Intake {
    type V = IntakeView;

    open spec fn view(&self) -> IntakeView {
        match self {
            Intake::Echo => IntakeView::Echo,
            Intake::Repeated => IntakeView::Repeated,
            Intake::Claim { task, key } => IntakeView::Claim { task: task@, key: key@ },
            Intake::Queued => IntakeView::Queued,
        }
    }
}

/// What the owner decides: nobody refused, and the owner concurs.
pub open spec fn verdict() -> Seq<char> {
    "AGREED"@
}

impl HostView {
    /// Whether there is an agent whose turn it is.
    pub open spec fn in_turn(self) -> bool {
        self.turn is Some && self.turn->0 < self.table.len()
    }

    /// The grant of the agent whose turn it is.
    pub open spec fn grant(self) -> GrantView
        recommends
            self.in_turn(),
    {
        self.table[self.turn->0 as int]
    }

    /// The agent whose turn it is.
    pub open spec fn me(self) -> Seq<char>
        recommends
            self.in_turn(),
    {
        self.grant().agent
    }

    /// Whether the counters, and the next identifier, are within the machine's
    /// range.
    pub open spec fn in_range(self) -> bool {
        &&& self.next_id <= u64::MAX
        &&& self.echoes <= u32::MAX
        &&& self.blocked <= u32::MAX
        &&& self.duplicates <= u32::MAX
        &&& self.produced <= u32::MAX
    }

    /// Whether `n` messages more can be counted and numbered, whatever becomes
    /// of them.
    pub open spec fn room_for(self, n: nat) -> bool {
        &&& self.next_id + n <= u64::MAX
        &&& self.echoes + n <= u32::MAX
        &&& self.blocked + n <= u32::MAX
        &&& self.duplicates + n <= u32::MAX
        &&& self.produced + n <= u32::MAX
    }

    /// After an operator has halted the agent of that name, if one was named.
    pub open spec fn after_halt(self, name: Option<Seq<char>>) -> HostView {
        match name {
            Some(agent) => HostView { killed: self.killed.insert(agent), ..self },
            None => self,
        }
    }

    /// Whether an agent may have its turn: not if it was halted.
    pub open spec fn may_start(self, agent: nat) -> bool {
        !self.killed.contains(self.table[agent as int].agent)
    }

    /// After the turn of an agent has begun, if it may have one.
    pub open spec fn after_begin(self, agent: nat) -> HostView {
        if self.may_start(agent) {
            HostView { turn: Some(agent), inbox: seq![], ..self }
        } else {
            self
        }
    }

    /// What becomes of a delivered message. An agent's own message is kept from
    /// it, on every channel; then whatever it was given before; then a task is
    /// set aside to be claimed; all else is queued.
    pub open spec fn intake(self, w: WireView) -> IntakeView {
        if w.sender == self.me() {
            IntakeView::Echo
        } else if self.seen.contains((self.me(), w.id)) {
            IntakeView::Repeated
        } else {
            match lease::task_in(w.payload) {
                Some(task) => IntakeView::Claim { task, key: lease::key_of(task) },
                None => IntakeView::Queued,
            }
        }
    }

    /// After a delivered message was taken in.
    pub open spec fn after_receive(self, w: WireView) -> HostView {
        match self.intake(w) {
            IntakeView::Echo => HostView { echoes: self.echoes + 1, ..self },
            IntakeView::Repeated => self,
            IntakeView::Claim { .. } => HostView {
                seen: self.seen.insert((self.me(), w.id)),
                ..self
            },
            IntakeView::Queued => HostView {
                seen: self.seen.insert((self.me(), w.id)),
                inbox: self.inbox.push(message::message_of(w)),
                ..self
            },
        }
    }

    /// The announcement that the agent whose turn it is has handled a task.
    pub open spec fn handled_wire(self, task: Seq<char>) -> WireView {
        WireView {
            id: self.next_id as u64,
            sender: self.me(),
            channel: capability::coordination_channel(),
            act: "inform"@,
            payload: "HANDLED "@ + task,
            sig: "sigil-stub:"@ + self.me() + ":task"@,
            hops: 0,
        }
    }

    /// After a claim on a task was settled. Whoever got the lease has handled
    /// the task and announces it; whoever did not leaves it alone.
    pub open spec fn after_settle(self, task: Seq<char>, won: bool) -> HostView {
        if won {
            HostView {
                handled: self.handled.insert(task, self.me()),
                accepted: self.accepted.push(self.handled_wire(task)),
                next_id: self.next_id + 1,
                engaged: self.engaged.insert(self.me()),
                produced: self.produced + 1,
                ..self
            }
        } else {
            HostView { duplicates: self.duplicates + 1, ..self }
        }
    }

    /// After the inbox was handed to the agent.
    pub open spec fn after_hand_over(self) -> HostView {
        HostView { inbox: seq![], ..self }
    }

    /// Whether the agent whose turn it is may emit a message: only on a safe
    /// channel that it was granted.
    pub open spec fn may_emit(self, m: MessageView) -> bool {
        channel::safe_channel(m.channel) && self.grant().allows(m.channel)
    }

    /// The emissions that are let through.
    pub open spec fn passing(self, out: Seq<MessageView>) -> Seq<MessageView> {
        out.filter(|m: MessageView| self.may_emit(m))
    }

    /// The wire messages of the emissions that are let through. They carry the
    /// name of the agent whose turn it is, whatever the agent called itself.
    pub open spec fn outgoing(self, out: Seq<MessageView>) -> Seq<WireView> {
        let passing = self.passing(out);
        Seq::new(
            passing.len(),
            |i: int|
                WireView {
                    id: (self.next_id + i) as u64,
                    sender: self.me(),
                    channel: passing[i].channel,
                    act: message::act_name(passing[i].act),
                    payload: passing[i].payload,
                    sig: passing[i].sig,
                    hops: passing[i].hops,
                },
        )
    }

    /// After the agent whose turn it is has emitted `out`.
    pub open spec fn after_emit(self, out: Seq<MessageView>) -> HostView {
        let n = self.passing(out).len();
        HostView {
            accepted: self.accepted + self.outgoing(out),
            next_id: self.next_id + n,
            blocked: (self.blocked + out.len() - n) as nat,
            produced: self.produced + n,
            engaged: if n > 0 {
                self.engaged.insert(self.me())
            } else {
                self.engaged
            },
            ..self
        }
    }

    /// After the turn of an agent has ended.
    pub open spec fn after_end_turn(self) -> HostView {
        HostView { turn: None, inbox: seq![], ..self }
    }

    /// Whether the owner decides at the end of this round: nothing was said in
    /// it, or the deadline is reached.
    pub open spec fn must_decide(self) -> bool {
        self.produced == 0 || self.round + 1 >= self.deadline
    }

    /// The announcement of the decision.
    pub open spec fn decision_wire(self) -> WireView {
        WireView {
            id: self.next_id as u64,
            sender: self.owner,
            channel: capability::coordination_channel(),
            act: "inform"@,
            payload: "DECISION["@ + self.topic + "] = "@ + verdict(),
            sig: "sigil-stub:"@ + self.owner + ":decision"@,
            hops: 0,
        }
    }

    /// Whether there is another round: the decision has not been made, and the
    /// round budget is not used up.
    pub open spec fn may_go_on(self) -> bool {
        self.round < ROUND_BUDGET && !self.decided
    }

    /// After the end of a round.
    pub open spec fn after_round(self) -> HostView {
        if self.must_decide() {
            HostView {
                accepted: self.accepted.push(self.decision_wire()),
                decided: true,
                ..self
            }
        } else {
            HostView { round: self.round + 1, produced: 0, ..self }
        }
    }
}

/// Why the owner decided when it did.
#[derive(Clone, Copy, Debug, PartialEq, Eq, Structural)]
pub enum Cause {
    /// Nothing was said in the round.
    Convergence,
    /// The deadline was reached.
    Deadline,
}

/// The decision, to be announced.
pub struct Decision {
    pub wire: Wire,
    pub verdict: String,
    pub cause: Cause,
}

/// Emissions only add to the counters.
proof fn lemma_emissions_add_up(s: HostView, out: Seq<MessageView>, n: int)
    requires
        0 <= n <= out.len(),
    ensures
        s.after_emit(out.take(n)).next_id <= s.after_emit(out).next_id,
        s.after_emit(out.take(n)).blocked <= s.after_emit(out).blocked,
        s.after_emit(out.take(n)).produced <= s.after_emit(out).produced,
    decreases out.len(),
{
    let may = |m: MessageView| s.may_emit(m);
    if n < out.len() {
        let shorter = out.drop_last();
        lemma_emissions_add_up(s, shorter, n);
        assert(shorter.take(n) =~= out.take(n));
        assert(out =~= shorter.push(out.last()));
        shorter.lemma_filter_push(out.last(), may);
        shorter.lemma_filter_len(may);
    } else {
        assert(out.take(n) =~= out);
    }
}

/// Where there is room for as many messages as are handled, the counters stay
/// within range.
pub proof fn law_room_suffices(
    s: HostView,
    w: WireView,
    task: Seq<char>,
    won: bool,
    out: Seq<MessageView>,
)
    ensures
        s.room_for(1) ==> s.after_receive(w).in_range() && s.after_settle(task, won).in_range(),
        s.room_for(out.len()) ==> s.after_emit(out).in_range(),
{
    out.lemma_filter_len(|m: MessageView| s.may_emit(m));
}

impl Host {
    /// The parts of the state are well formed; the agent whose turn it is is in
    /// the table and was not halted; and deliberation is within the deadline.
    pub open spec fn wf(&self) -> bool {
        &&& self.seen.wf()
        &&& self.killed.wf()
        &&& self.engaged.wf()
        &&& self.task_done.wf()
        &&& self.turn is Some ==> self@.in_turn() && !self@.killed.contains(self@.me())
        &&& self.round == 0 || self.round < self.policy.deadline
    }

    /// The host before its first round. Its identifiers come after those of the
    /// messages that were published before.
    pub fn new(table: Vec<Grant>, policy: Policy, seeds: &Vec<Wire>) -> (host: Host)
        requires
            forall|i: int| 0 <= i < seeds@.len() ==> (#[trigger] seeds@[i]).id < u64::MAX,
        ensures
            host.wf(),
            host@ == host_start(
                capability::grants_view(table@),
                policy.owner@,
                policy.topic@,
                policy.deadline as nat,
                message::wires_view(seeds@),
            ),
    {
        let ghost said = message::wires_view(seeds@);
        let mut next_id: u64 = 1;
        let mut i: usize = 0;
        while i < seeds.len()
            invariant
                i <= seeds@.len(),
                said == message::wires_view(seeds@),
                forall|j: int| 0 <= j < seeds@.len() ==> (#[trigger] seeds@[j]).id < u64::MAX,
                next_id == id_after(said.take(i as int)),
            decreases seeds@.len() - i,
        {
            assert(said.take(i + 1).drop_last() =~= said.take(i as int));
            assert(said.take(i + 1).last() == seeds@[i as int]@);
            let after: u64 = seeds[i].id + 1;
            if next_id < after {
                next_id = after;
            }
            i = i + 1;
        }
        assert(said.take(i as int) =~= said);
        let host = Host {
            table,
            policy,
            next_id,
            seen: SeenSet::new(),
            killed: NameSet::new(),
            engaged: NameSet::new(),
            dropped_echo: 0,
            dropped_emit: 0,
            dropped_dup: 0,
            task_done: TaskLog::new(),
            accepted: Vec::new(),
            round: 0,
            produced: 0,
            turn: None,
            inbox: Vec::new(),
            decided: false,
        };
        assert(host@.accepted =~= seq![]);
        assert(host@.inbox =~= seq![]);
        host
    }

    /// Whether `n` messages more can be counted and numbered, whatever becomes
    /// of them.
    pub fn has_room_for(&self, n: usize) -> (room: bool)
        ensures
            room == self@.room_for(n as nat),
    {
        let n: u64 = n as u64;
        n <= u64::MAX - self.next_id && n <= (u32::MAX - self.dropped_echo) as u64 && n <= (u32::MAX
            - self.dropped_emit) as u64 && n <= (u32::MAX - self.dropped_dup) as u64 && n <= (
        u32::MAX - self.produced) as u64
    }

    /// Applies a message of the control plane: the agent that it names is
    /// halted from now on. Halts are applied between turns.
    pub fn halt(&mut self, payload: &[u8])
        requires
            old(self).wf(),
            old(self)@.turn is None,
        ensures
            final(self).wf(),
            final(self)@ == old(self)@.after_halt(
                control::halted_agent(control::utf8_lossy(payload@)),
            ),
            valid_utf8(payload@) ==> final(self)@ == old(self)@.after_halt(
                control::halted_agent(decode_utf8(payload@)),
            ),
    {
        let target = parse_halt(payload);
        self.halt_agent(target);
    }

    /// Halts the agent of that name, if one was named.
    pub fn halt_agent(&mut self, target: Option<String>)
        requires
            old(self).wf(),
            old(self)@.turn is None,
        ensures
            final(self).wf(),
            final(self)@ == old(self)@.after_halt(text::option_text(target)),
            target is Some ==> final(self)@.killed == old(self)@.killed.insert(target->0@),
            target is None ==> final(self)@.killed == old(self)@.killed,
    {
        match target {
            Some(name) => {
                self.killed.insert(name.as_str());
            },
            None => {},
        }
    }

    /// Begins the turn of an agent, and says whether it has one: a halted agent
    /// is given nothing and says nothing.
    pub fn begin_turn(&mut self, agent: usize) -> (begun: bool)
        requires
            old(self).wf(),
            old(self)@.turn is None,
            agent < old(self)@.table.len(),
        ensures
            final(self).wf(),
            begun == old(self)@.may_start(agent as nat),
            final(self)@ == old(self)@.after_begin(agent as nat),
    {
        if self.killed.contains(self.table[agent].agent.as_str()) {
            return false;
        }
        self.turn = Some(agent);
        self.inbox = Vec::new();
        assert(self@.inbox =~= seq![]);
        true
    }

    /// Takes in a message that the stream delivered for the agent whose turn it
    /// is.
    pub fn receive(&mut self, w: Wire) -> (intake: Intake)
        requires
            old(self).wf(),
            old(self)@.in_turn(),
            old(self)@.after_receive(w@).in_range(),
        ensures
            final(self).wf(),
            intake@ == old(self)@.intake(w@),
            final(self)@ == old(self)@.after_receive(w@),
    {
        let agent: usize = self.turn.unwrap();
        let me = self.table[agent].agent.clone();
        if same_text(w.sender.as_str(), me.as_str()) {
            self.dropped_echo = self.dropped_echo + 1;
            return Intake::Echo;
        }
        if !self.seen.insert(me.as_str(), w.id) {
            assert(self@.seen =~= old(self)@.seen);
            return Intake::Repeated;
        }
        match task_id(w.payload.as_str()) {
            Some(task) => {
                let key = lease_key(task.as_str());
                Intake::Claim { task, key }
            },
            None => {
                self.inbox.push(to_message(w));
                assert(self@.inbox =~= old(self)@.inbox.push(message::message_of(w@)));
                Intake::Queued
            },
        }
    }

    /// Settles a claim of the agent whose turn it is, given whether it got the
    /// lease. If it did, the returned announcement is to be published.
    pub fn settle(&mut self, task: &str, won: bool) -> (announced: Option<Wire>)
        requires
            old(self).wf(),
            old(self)@.in_turn(),
            old(self)@.after_settle(task@, won).in_range(),
        ensures
            final(self).wf(),
            final(self)@ == old(self)@.after_settle(task@, won),
            won <==> announced is Some,
            won ==> announced->0@ == old(self)@.handled_wire(task@),
    {
        if !won {
            self.dropped_dup = self.dropped_dup + 1;
            return None;
        }
        let agent: usize = self.turn.unwrap();
        let me = self.table[agent].agent.clone();
        self.task_done.insert(task, me.as_str());
        let mut payload = "HANDLED ".to_owned();
        payload.append(task);
        let mut sig = "sigil-stub:".to_owned();
        sig.append(me.as_str());
        sig.append(":task");
        let w = Wire {
            id: self.next_id,
            sender: me.clone(),
            channel: "build-coord".to_owned(),
            act: "inform".to_owned(),
            payload,
            sig,
            hops: 0,
        };
        self.next_id = self.next_id + 1;
        self.accepted.push(w.clone());
        assert(self@.accepted =~= old(self)@.accepted.push(w@));
        self.engaged.insert(me.as_str());
        self.produced = self.produced + 1;
        Some(w)
    }

    /// Hands over what is queued for the agent whose turn it is, if anything is.
    pub fn hand_over(&mut self) -> (inbox: Option<Vec<Message>>)
        requires
            old(self).wf(),
        ensures
            final(self).wf(),
            final(self)@ == old(self)@.after_hand_over(),
            inbox is Some <==> old(self)@.inbox.len() > 0,
            inbox is Some ==> message::messages_view(inbox->0@) == old(self)@.inbox,
    {
        if self.inbox.len() == 0 {
            assert(self@.inbox =~= seq![]);
            return None;
        }
        let mut inbox: Vec<Message> = Vec::new();
        core::mem::swap(&mut inbox, &mut self.inbox);
        assert(self@.inbox =~= seq![]);
        Some(inbox)
    }

    /// Takes what the agent whose turn it is wants to say. An emission on a
    /// channel that is not safe or was not granted is blocked; the others are
    /// numbered, put under the agent's own name and returned, to be published in
    /// that order.
    pub fn emit(&mut self, out: Vec<Message>) -> (wires: Vec<Wire>)
        requires
            old(self).wf(),
            old(self)@.in_turn(),
            old(self)@.after_emit(message::messages_view(out@)).in_range(),
        ensures
            final(self).wf(),
            final(self)@ == old(self)@.after_emit(message::messages_view(out@)),
            message::wires_view(wires@) == old(self)@.outgoing(message::messages_view(out@)),
    {
        let agent: usize = self.turn.unwrap();
        let me = self.table[agent].agent.clone();
        let ghost said = message::messages_view(out@);
        let ghost start = self@;
        let mut wires: Vec<Wire> = Vec::new();
        let mut i: usize = 0;
        proof {
            assert(said.take(0) =~= Seq::<MessageView>::empty());
            said.take(0).lemma_filter_len(|m: MessageView| start.may_emit(m));
            assert(message::wires_view(wires@) =~= start.outgoing(said.take(0)));
            assert(start.accepted + start.outgoing(said.take(0)) =~= start.accepted);
        }
        while i < out.len()
            invariant
                i <= out@.len(),
                said == message::messages_view(out@),
                start == old(self)@,
                start.in_turn(),
                start.turn == Some(agent as nat),
                start.after_emit(said).in_range(),
                self.wf(),
                me@ == start.me(),
                self@ == start.after_emit(said.take(i as int)),
                message::wires_view(wires@) == start.outgoing(said.take(i as int)),
            decreases out@.len() - i,
        {
            let m = &out[i];
            let ghost before = said.take(i as int);
            let ghost wires0 = wires@;
            let ghost here = self@;
            proof {
                assert(said.take(i + 1) =~= before.push(m@));
                before.lemma_filter_push(m@, |x: MessageView| start.may_emit(x));
                before.lemma_filter_len(|x: MessageView| start.may_emit(x));
                lemma_emissions_add_up(start, said, i + 1);
            }
            i = i + 1;
            if !is_safe_channel(m.channel.as_str()) || !self.table[agent].allows(
                m.channel.as_str(),
            ) {
                assert(!start.may_emit(m@));
                self.dropped_emit = self.dropped_emit + 1;
                assert(self@ =~= start.after_emit(said.take(i as int)));
                continue;
            }
            assert(start.may_emit(m@));
            let w = Wire {
                id: self.next_id,
                sender: me.clone(),
                channel: m.channel.clone(),
                act: act_str(&m.act).to_owned(),
                payload: m.payload.clone(),
                sig: m.sig.clone(),
                hops: m.hops,
            };
            self.next_id = self.next_id + 1;
            self.accepted.push(w.clone());
            self.engaged.insert(me.as_str());
            self.produced = self.produced + 1;
            let ghost wv = w@;
            wires.push(w);
            proof {
                let next = said.take(i as int);
                assert(start.passing(next) == start.passing(before).push(m@));
                assert(start.outgoing(next) =~= start.outgoing(before).push(wv));
                assert(message::wires_view(wires@) =~= message::wires_view(wires0).push(wv));
                assert(self@.accepted =~= here.accepted.push(wv));
                assert(self@.accepted =~= start.accepted + start.outgoing(next));
                assert(self@.engaged =~= start.after_emit(next).engaged);
                assert(self@ =~= start.after_emit(next));
            }
        }
        assert(said.take(i as int) =~= said);
        wires
    }

    /// Ends the turn of the agent whose turn it is.
    pub fn end_turn(&mut self)
        requires
            old(self).wf(),
        ensures
            final(self).wf(),
            final(self)@ == old(self)@.after_end_turn(),
    {
        self.turn = None;
        self.inbox = Vec::new();
        assert(self@.inbox =~= seq![]);
    }

    /// Whether there is another round: the decision has not been made, and the
    /// round budget is not used up.
    pub fn may_go_on(&self) -> (more: bool)
        ensures
            more == self@.may_go_on(),
            more == (self@.round < ROUND_BUDGET && !self@.decided),
    {
        self.round < ROUND_BUDGET && !self.decided
    }

    /// Ends the round. If nothing was said in it, or the deadline is reached, the
    /// owner decides, and the returned announcement is to be published; else
    /// the next round begins.
    pub fn end_round(&mut self) -> (decision: Option<Decision>)
        requires
            old(self).wf(),
            old(self)@.turn is None,
            !old(self)@.decided,
        ensures
            final(self).wf(),
            final(self)@ == old(self)@.after_round(),
            decision is Some <==> old(self)@.must_decide(),
            decision is Some ==> decision->0.wire@ == old(self)@.decision_wire(),
            decision is Some ==> decision->0.verdict@ == verdict(),
            decision is Some ==> (decision->0.cause == Cause::Convergence <==> old(self)@.produced
                == 0),
    {
        let deadline_reached = self.round + 1 >= self.policy.deadline;
        if self.produced != 0 && !deadline_reached {
            self.round = self.round + 1;
            self.produced = 0;
            return None;
        }
        let cause = if self.produced == 0 {
            Cause::Convergence
        } else {
            Cause::Deadline
        };
        let mut payload = "DECISION[".to_owned();
        payload.append(self.policy.topic.as_str());
        payload.append("] = ");
        payload.append("AGREED");
        let mut sig = "sigil-stub:".to_owned();
        sig.append(self.policy.owner.as_str());
        sig.append(":decision");
        let wire = Wire {
            id: self.next_id,
            sender: self.policy.owner.clone(),
            channel: "build-coord".to_owned(),
            act: "inform".to_owned(),
            payload,
            sig,
            hops: 0,
        };
        self.accepted.push(wire.clone());
        assert(self@.accepted =~= old(self)@.accepted.push(wire@));
        self.decided = true;
        Some(Decision { wire, verdict: "AGREED".to_owned(), cause })
    }
}

} // verus!
