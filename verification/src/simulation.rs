//! The in-memory bus: an append-only log that every agent reads through its
//! capabilities, run round by round until nothing new is said.

use vstd::prelude::*;

use crate::agent;
use crate::capability;
use crate::capability::{Grant, GrantView};
use crate::message;
use crate::message::{Message, MessageView};
use crate::seen::SeenSet;
use crate::simulation_laws;
use crate::text::same_text;

verus! {

/// What one agent's look through the log gives: the messages delivered to it,
/// the deliveries on record afterwards, and how many messages were withheld.
#[verifier::ext_equal]
pub struct Screening {
    pub inbox: Seq<MessageView>,
    pub seen: Set<(Seq<char>, u64)>,
    pub off_scope: nat,
    pub echoes: nat,
}

/// One message more. It is withheld if its channel was not granted, then if it
/// is the agent's own, then if it was delivered before; else it is delivered.
pub open spec fn screen_message(g: GrantView, so_far: Screening, m: MessageView) -> Screening {
    if !g.allows(m.channel) {
        Screening { off_scope: so_far.off_scope + 1, ..so_far }
    } else if m.sender == g.agent {
        Screening { echoes: so_far.echoes + 1, ..so_far }
    } else if so_far.seen.contains((g.agent, m.id)) {
        so_far
    } else {
        Screening {
            inbox: so_far.inbox.push(m),
            seen: so_far.seen.insert((g.agent, m.id)),
            ..so_far
        }
    }
}

/// The look of the agent of grant `g` through `log`, given what was delivered
/// before.
pub open spec fn screen(
    g: GrantView,
    log: Seq<MessageView>,
    seen: Set<(Seq<char>, u64)>,
) -> Screening
    decreases log.len(),
{
    if log.len() == 0 {
        Screening { inbox: seq![], seen, off_scope: 0, echoes: 0 }
    } else {
        screen_message(g, screen(g, log.drop_last(), seen), log.last())
    }
}

/// The messages `out` with consecutive identifiers from `first` on.
pub open spec fn stamped(out: Seq<MessageView>, first: nat) -> Seq<MessageView> {
    Seq::new(out.len(), |i: int| MessageView { id: (first + i) as u64, ..out[i] })
}

/// One call of the agent component: in which round, for which agent of the
/// table, in whose name and with which inbox.
#[verifier::ext_equal]
pub struct Call {
    pub round: nat,
    pub agent: nat,
    pub me: Seq<char>,
    pub inbox: Seq<MessageView>,
}

/// How a run stands. What is said in a round is `fresh` until the round ends.
#[verifier::ext_equal]
pub struct RunState {
    pub log: Seq<MessageView>,
    pub seen: Set<(Seq<char>, u64)>,
    pub next_id: nat,
    pub off_scope: nat,
    pub echoes: nat,
    pub accepted: Seq<MessageView>,
    pub rounds: Seq<Seq<MessageView>>,
    pub converged: Option<nat>,
    pub round: nat,
    pub fresh: Seq<MessageView>,
    pub calls: Seq<Call>,
}

/// A run before its first round.
pub open spec fn run_start(seeds: Seq<MessageView>, next_id: nat) -> RunState {
    RunState {
        log: seeds,
        seen: Set::empty(),
        next_id,
        off_scope: 0,
        echoes: 0,
        accepted: seq![],
        rounds: seq![],
        converged: None,
        round: 0,
        fresh: seq![],
        calls: seq![],
    }
}

/// The look of an agent through the log as it stood at the start of the round.
pub open spec fn look(table: Seq<GrantView>, s: RunState, k: nat) -> Screening {
    screen(table[k as int], s.log, s.seen)
}

/// The call of the component that an agent's look leads to.
pub open spec fn call_of(table: Seq<GrantView>, s: RunState, k: nat) -> Call {
    Call {
        round: s.round,
        agent: k,
        me: table[k as int].agent,
        inbox: look(table, s, k).inbox,
    }
}

/// After an agent's look through the log. The component is called if anything
/// was delivered, and only then.
pub open spec fn after_look(table: Seq<GrantView>, s: RunState, k: nat) -> RunState {
    let l = look(table, s, k);
    RunState {
        seen: l.seen,
        off_scope: s.off_scope + l.off_scope,
        echoes: s.echoes + l.echoes,
        calls: if l.inbox.len() > 0 {
            s.calls.push(call_of(table, s, k))
        } else {
            s.calls
        },
        ..s
    }
}

/// After the component has answered: its answers get the next identifiers.
pub open spec fn after_answer(s: RunState, out: Seq<MessageView>) -> RunState {
    RunState {
        next_id: s.next_id + out.len(),
        fresh: s.fresh + stamped(out, s.next_id),
        ..s
    }
}

/// After the turn of an agent, where `answers` is what the component answers to
/// each call.
pub open spec fn after_turn(
    answers: spec_fn(Call) -> Seq<MessageView>,
    table: Seq<GrantView>,
    s: RunState,
    k: nat,
) -> RunState {
    if look(table, s, k).inbox.len() > 0 {
        after_answer(after_look(table, s, k), answers(call_of(table, s, k)))
    } else {
        after_look(table, s, k)
    }
}

/// After the turns of the first `k` agents.
pub open spec fn after_turns(
    answers: spec_fn(Call) -> Seq<MessageView>,
    table: Seq<GrantView>,
    s: RunState,
    k: nat,
) -> RunState
    decreases k,
{
    if k == 0 {
        s
    } else {
        after_turn(answers, table, after_turns(answers, table, s, (k - 1) as nat), (k - 1) as nat)
    }
}

/// After the end of a round. If nothing was said the run has converged; else
/// what was said is appended to the log, and the next round begins.
pub open spec fn after_round(s: RunState) -> RunState {
    if s.fresh.len() == 0 {
        RunState { converged: Some(s.round), ..s }
    } else {
        RunState {
            log: s.log + s.fresh,
            accepted: s.accepted + s.fresh,
            rounds: s.rounds.push(s.fresh),
            fresh: seq![],
            round: s.round + 1,
            ..s
        }
    }
}

/// A run of at most `n` rounds, which ends early when it has converged, with any
/// agent component: `answers` is what the component answers to each call.
pub open spec fn run_with(
    answers: spec_fn(Call) -> Seq<MessageView>,
    table: Seq<GrantView>,
    seeds: Seq<MessageView>,
    next_id: nat,
    n: nat,
) -> RunState
    decreases n,
{
    if n == 0 {
        run_start(seeds, next_id)
    } else {
        let s = run_with(answers, table, seeds, next_id, (n - 1) as nat);
        if s.converged is Some {
            s
        } else {
            after_round(after_turns(answers, table, s, table.len()))
        }
    }
}

/// What the library's own agent answers.
pub open spec fn own_answers() -> spec_fn(Call) -> Seq<MessageView> {
    |c: Call| agent::replies(c.me, c.inbox)
}

/// A run with the library's own agent.
pub open spec fn run(
    table: Seq<GrantView>,
    seeds: Seq<MessageView>,
    next_id: nat,
    n: nat,
) -> RunState {
    run_with(own_answers(), table, seeds, next_id, n)
}

/// The measured outcome of a run.
pub struct SimResult {
    /// Deliveries that were blocked because the channel was not granted.
    pub dropped_caps: u32,
    /// Messages that were kept from the agent that had sent them.
    pub dropped_echo: u32,
    /// The messages that the agents said, in log order.
    pub accepted: Vec<Message>,
    /// The round in which nothing new was said, if there was one.
    pub converged_round: Option<usize>,
    /// What was said in each round.
    pub rounds: Vec<Vec<Message>>,
}

/// What a list of rounds says.
pub open spec fn rounds_view(rounds: Seq<Vec<Message>>) -> Seq<Seq<MessageView>> {
    rounds.map_values(|r: Vec<Message>| message::messages_view(r@))
}

/// A round number as the model counts it.
pub open spec fn round_number(round: Option<usize>) -> Option<nat> {
    match round {
        Some(r) => Some(r as nat),
        None => None,
    }
}

impl SimResult {
    /// Whether this is the outcome of a run that ended in state `s`.
    pub open spec fn reports(&self, s: RunState) -> bool {
        &&& self.dropped_caps == s.off_scope
        &&& self.dropped_echo == s.echoes
        &&& message::messages_view(self.accepted@) == s.accepted
        &&& round_number(self.converged_round) == s.converged
        &&& rounds_view(self.rounds@) == s.rounds
    }
}

/// Whether the counters of a run, and the identifiers that it gives, are within
/// the machine's range.
pub open spec fn in_range(s: RunState) -> bool {
    &&& s.off_scope <= u32::MAX
    &&& s.echoes <= u32::MAX
    &&& s.next_id <= u64::MAX
}

/// What one agent's look through the log gives.
pub struct Screened {
    pub inbox: Vec<Message>,
    pub off_scope: u32,
    pub echoes: u32,
}

/// Looks through the log for one agent, and records what is delivered to it.
pub fn screen_log(grant: &Grant, log: &Vec<Message>, seen: &mut SeenSet) -> (out: Screened)
    requires
        old(seen).wf(),
        screen(grant@, message::messages_view(log@), old(seen)@).off_scope <= u32::MAX,
        screen(grant@, message::messages_view(log@), old(seen)@).echoes <= u32::MAX,
    ensures
        final(seen).wf(),
        ({
            let s = screen(grant@, message::messages_view(log@), old(seen)@);
            &&& message::messages_view(out.inbox@) == s.inbox
            &&& out.off_scope == s.off_scope
            &&& out.echoes == s.echoes
            &&& final(seen)@ == s.seen
        }),
{
    let mut inbox: Vec<Message> = Vec::new();
    let mut off_scope: u32 = 0;
    let mut echoes: u32 = 0;
    let mut i: usize = 0;
    let ghost said = message::messages_view(log@);
    while i < log.len()
        invariant
            seen.wf(),
            i <= log@.len(),
            said == message::messages_view(log@),
            screen(grant@, said, old(seen)@).off_scope <= u32::MAX,
            screen(grant@, said, old(seen)@).echoes <= u32::MAX,
            ({
                let s = screen(grant@, said.take(i as int), old(seen)@);
                &&& message::messages_view(inbox@) == s.inbox
                &&& off_scope == s.off_scope
                &&& echoes == s.echoes
                &&& seen@ == s.seen
            }),
        decreases log@.len() - i,
    {
        let m = &log[i];
        assert(said.take(i + 1).drop_last() =~= said.take(i as int));
        assert(said.take(i + 1).last() == m@);
        proof {
            lemma_screen_grows(grant@, said, old(seen)@, i + 1);
        }
        let ghost earlier = inbox@;
        if !grant.allows(m.channel.as_str()) {
            off_scope = off_scope + 1;
        } else if same_text(m.sender.as_str(), grant.agent.as_str()) {
            echoes = echoes + 1;
        } else if seen.insert(grant.agent.as_str(), m.id) {
            inbox.push(m.clone());
            assert(message::messages_view(inbox@) =~= message::messages_view(earlier).push(m@));
        } else {
            assert(seen@ =~= screen(grant@, said.take(i as int), old(seen)@).seen);
        }
        i = i + 1;
    }
    assert(said.take(i as int) =~= said);
    Screened { inbox, off_scope, echoes }
}

/// Gives the messages consecutive identifiers, from `first` on.
pub fn stamp(out: Vec<Message>, first: u64) -> (stamped_out: Vec<Message>)
    requires
        first + out@.len() <= u64::MAX,
    ensures
        message::messages_view(stamped_out@) == stamped(
            message::messages_view(out@),
            first as nat,
        ),
{
    let mut result: Vec<Message> = Vec::new();
    let mut i: usize = 0;
    while i < out.len()
        invariant
            i <= out@.len(),
            first + out@.len() <= u64::MAX,
            message::messages_view(result@) == stamped(
                message::messages_view(out@),
                first as nat,
            ).take(i as int),
        decreases out@.len() - i,
    {
        let ghost earlier = result@;
        let mut m = out[i].clone();
        m.id = first + i as u64;
        let ghost said = m@;
        result.push(m);
        i = i + 1;
        assert(message::messages_view(result@) =~= message::messages_view(earlier).push(said));
        assert(message::messages_view(result@) =~= stamped(
            message::messages_view(out@),
            first as nat,
        ).take(i as int));
    }
    assert(message::messages_view(result@) =~= stamped(
        message::messages_view(out@),
        first as nat,
    ));
    result
}

/// A look through the start of a log withholds no more than one through all of
/// it.
proof fn lemma_screen_grows(
    g: GrantView,
    log: Seq<MessageView>,
    seen: Set<(Seq<char>, u64)>,
    n: int,
)
    requires
        0 <= n <= log.len(),
    ensures
        screen(g, log.take(n), seen).off_scope <= screen(g, log, seen).off_scope,
        screen(g, log.take(n), seen).echoes <= screen(g, log, seen).echoes,
    decreases log.len(),
{
    if n < log.len() {
        lemma_screen_grows(g, log.drop_last(), seen, n);
        assert(log.drop_last().take(n) =~= log.take(n));
    } else {
        assert(log.take(n) =~= log);
    }
}

/// Why a run has no outcome.
#[derive(Debug)]
pub enum SimError<E> {
    /// The component failed.
    Component(E),
    /// A counter or the next identifier would leave the machine's range.
    Counters,
}

/// A run in progress.
pub struct Simulation {
    log: Vec<Message>,
    seen: SeenSet,
    next_id: u64,
    dropped_caps: u32,
    dropped_echo: u32,
    accepted: Vec<Message>,
    rounds: Vec<Vec<Message>>,
    converged_round: Option<usize>,
    round: usize,
    fresh: Vec<Message>,
    calls: Ghost<Seq<Call>>,
}

impl View for Simulation {
    type V = RunState;

    closed spec fn view(&self) -> RunState {
        RunState {
            log: message::messages_view(self.log@),
            seen: self.seen@,
            next_id: self.next_id as nat,
            off_scope: self.dropped_caps as nat,
            echoes: self.dropped_echo as nat,
            accepted: message::messages_view(self.accepted@),
            rounds: rounds_view(self.rounds@),
            converged: round_number(self.converged_round),
            round: self.round as nat,
            fresh: message::messages_view(self.fresh@),
            calls: self.calls@,
        }
    }
}

impl Simulation {
    /// The delivery record is well formed.
    pub closed spec fn wf(&self) -> bool {
        self.seen.wf()
    }

    /// A run before its first round. Answers get identifiers from `first_id` on.
    pub fn new(seeds: Vec<Message>, first_id: u64) -> (sim: Simulation)
        ensures
            sim.wf(),
            sim@ == run_start(message::messages_view(seeds@), first_id as nat),
    {
        let calls: Ghost<Seq<Call>> = Ghost(Seq::empty());
        let sim = Simulation {
            log: seeds,
            seen: SeenSet::new(),
            next_id: first_id,
            dropped_caps: 0,
            dropped_echo: 0,
            accepted: Vec::new(),
            rounds: Vec::new(),
            converged_round: None,
            round: 0,
            fresh: Vec::new(),
            calls,
        };
        assert(sim@ =~= run_start(message::messages_view(seeds@), first_id as nat));
        sim
    }

    /// Whether the run has converged.
    pub fn has_converged(&self) -> (yes: bool)
        ensures
            yes == (self@.converged is Some),
    {
        self.converged_round.is_some()
    }

    /// Whether what agent `k` is not to hear in its turn can still be counted.
    pub fn room_to_look(&self, table: &Vec<Grant>, k: usize) -> (room: bool)
        requires
            self.wf(),
            k < table@.len(),
        ensures
            room == in_range(after_look(capability::grants_view(table@), self@, k as nat)),
    {
        let grant = &table[k];
        let ghost g = grant@;
        let ghost said = message::messages_view(self.log@);
        assert(capability::grants_view(table@)[k as int] == g);
        let mut off_scope: u64 = 0;
        let mut echoes: u64 = 0;
        let mut i: usize = 0;
        while i < self.log.len()
            invariant
                i <= self.log@.len(),
                g == grant@,
                said == message::messages_view(self.log@),
                off_scope <= i,
                echoes <= i,
                off_scope == screen(g, said.take(i as int), self@.seen).off_scope,
                echoes == screen(g, said.take(i as int), self@.seen).echoes,
            decreases self.log@.len() - i,
        {
            let m = &self.log[i];
            assert(said.take(i + 1).drop_last() =~= said.take(i as int));
            assert(said.take(i + 1).last() == m@);
            if !grant.allows(m.channel.as_str()) {
                off_scope = off_scope + 1;
            } else if same_text(m.sender.as_str(), grant.agent.as_str()) {
                echoes = echoes + 1;
            }
            i = i + 1;
        }
        assert(said.take(i as int) =~= said);
        off_scope <= (u32::MAX - self.dropped_caps) as u64 && echoes <= (u32::MAX
            - self.dropped_echo) as u64
    }

    /// Begins the turn of agent `k`: looks through the log for it, and returns
    /// what the component is to be called with, if it is to be called.
    pub fn look_for(&mut self, table: &Vec<Grant>, k: usize) -> (inbox: Option<Vec<Message>>)
        requires
            old(self).wf(),
            k < table@.len(),
            in_range(after_look(capability::grants_view(table@), old(self)@, k as nat)),
        ensures
            final(self).wf(),
            final(self)@ == after_look(capability::grants_view(table@), old(self)@, k as nat),
            inbox is Some <==> look(
                capability::grants_view(table@),
                old(self)@,
                k as nat,
            ).inbox.len() > 0,
            inbox is Some ==> message::messages_view(inbox->0@) == look(
                capability::grants_view(table@),
                old(self)@,
                k as nat,
            ).inbox,
    {
        let ghost grants = capability::grants_view(table@);
        assert(grants[k as int] == table@[k as int]@);
        let screened = screen_log(&table[k], &self.log, &mut self.seen);
        self.dropped_caps = self.dropped_caps + screened.off_scope;
        self.dropped_echo = self.dropped_echo + screened.echoes;
        assert(message::messages_view(screened.inbox@).len() == screened.inbox@.len());
        if screened.inbox.len() == 0 {
            assert(self@ =~= after_look(grants, old(self)@, k as nat));
            return None;
        }
        self.calls = Ghost(old(self).calls@.push(call_of(grants, old(self)@, k as nat)));
        assert(self@ =~= after_look(grants, old(self)@, k as nat));
        Some(screened.inbox)
    }

    /// Whether `n` answers more can be numbered.
    pub fn room_to_answer(&self, n: usize) -> (room: bool)
        ensures
            room == (self@.next_id + n <= u64::MAX),
    {
        n as u64 <= u64::MAX - self.next_id
    }

    /// Takes what the component has answered, whatever it is: the answers get
    /// the next identifiers, and are otherwise left as they are.
    pub fn answer(&mut self, out: Vec<Message>)
        requires
            old(self).wf(),
            old(self)@.next_id + out@.len() <= u64::MAX,
        ensures
            final(self).wf(),
            final(self)@ == after_answer(old(self)@, message::messages_view(out@)),
    {
        let n: u64 = out.len() as u64;
        let mut answers = stamp(out, self.next_id);
        let ghost said = message::messages_view(answers@);
        self.fresh.append(&mut answers);
        self.next_id = self.next_id + n;
        assert(message::messages_view(self.fresh@) =~= old(self)@.fresh + said);
        assert(message::messages_view(out@).len() == out@.len());
        assert(self@ =~= after_answer(old(self)@, message::messages_view(out@)));
    }

    /// Ends the round.
    pub fn end_round(&mut self)
        requires
            old(self).wf(),
            old(self)@.round < usize::MAX,
        ensures
            final(self).wf(),
            final(self)@ == after_round(old(self)@),
    {
        assert(message::messages_view(self.fresh@).len() == self.fresh@.len());
        if self.fresh.len() == 0 {
            self.converged_round = Some(self.round);
            assert(self@ =~= after_round(old(self)@));
            return ;
        }
        let ghost fresh = old(self)@.fresh;
        let mut for_log = copy_messages(&self.fresh);
        let mut for_record = copy_messages(&self.fresh);
        let mut said: Vec<Message> = Vec::new();
        core::mem::swap(&mut said, &mut self.fresh);
        self.log.append(&mut for_log);
        self.accepted.append(&mut for_record);
        self.rounds.push(said);
        self.round = self.round + 1;
        proof {
            assert(message::messages_view(self.log@) =~= old(self)@.log + fresh);
            assert(message::messages_view(self.accepted@) =~= old(self)@.accepted + fresh);
            assert(rounds_view(self.rounds@) =~= old(self)@.rounds.push(fresh));
            assert(message::messages_view(self.fresh@) =~= seq![]);
            assert(self@ =~= after_round(old(self)@));
        }
    }

    /// The outcome of the run as it stands.
    pub fn outcome(self) -> (out: SimResult)
        ensures
            out.reports(self@),
    {
        SimResult {
            dropped_caps: self.dropped_caps,
            dropped_echo: self.dropped_echo,
            accepted: self.accepted,
            converged_round: self.converged_round,
            rounds: self.rounds,
        }
    }
}

/// Whether the component `agent` may answer a call with `out`.
pub open spec fn may_answer<E, F: Fn(String, Vec<Message>) -> Result<Vec<Message>, E>>(
    agent: F,
    call: Call,
    out: Seq<MessageView>,
) -> bool {
    exists|me: String, inbox: Vec<Message>, said: Vec<Message>|
        {
            &&& me@ == call.me
            &&& message::messages_view(inbox@) == call.inbox
            &&& message::messages_view(said@) == out
            &&& #[trigger] call_ensures(agent, (me, inbox), Ok::<Vec<Message>, E>(said))
        }
}

/// Whether the component `agent` may fail a call with `e`.
pub open spec fn may_fail<E, F: Fn(String, Vec<Message>) -> Result<Vec<Message>, E>>(
    agent: F,
    call: Call,
    e: E,
) -> bool {
    exists|me: String, inbox: Vec<Message>|
        {
            &&& me@ == call.me
            &&& message::messages_view(inbox@) == call.inbox
            &&& #[trigger] call_ensures(agent, (me, inbox), Err::<Vec<Message>, E>(e))
        }
}

/// Whether `answers` is what the component may have answered to all of `calls`.
pub open spec fn all_answered<E, F: Fn(String, Vec<Message>) -> Result<Vec<Message>, E>>(
    agent: F,
    calls: Seq<Call>,
    answers: spec_fn(Call) -> Seq<MessageView>,
) -> bool {
    forall|i: int|
        0 <= i < calls.len() ==> may_answer(agent, #[trigger] calls[i], answers(calls[i]))
}

/// How a run stands in round `r` after the turns of the first `k` agents.
pub open spec fn run_at(
    answers: spec_fn(Call) -> Seq<MessageView>,
    table: Seq<GrantView>,
    seeds: Seq<MessageView>,
    next_id: nat,
    r: nat,
    k: nat,
) -> RunState {
    after_turns(answers, table, run_with(answers, table, seeds, next_id, r), k)
}

/// Whether a run of at most `n` rounds gets to the turn of agent `k` in round
/// `r`, the component having answered all calls until then.
pub open spec fn gets_to<E, F: Fn(String, Vec<Message>) -> Result<Vec<Message>, E>>(
    agent: F,
    answers: spec_fn(Call) -> Seq<MessageView>,
    table: Seq<GrantView>,
    seeds: Seq<MessageView>,
    next_id: nat,
    n: nat,
    r: nat,
    k: nat,
) -> bool {
    &&& r < n
    &&& k < table.len()
    &&& run_with(answers, table, seeds, next_id, r).converged is None
    &&& all_answered(agent, run_at(answers, table, seeds, next_id, r, k).calls, answers)
}

/// Whether the component may be called in the name `me` with `inbox`: there is a
/// message in the inbox, and an agent of the table has that name, was granted the
/// channel of every message in the inbox, and sent none of them.
pub open spec fn scoped_call(
    table: Seq<GrantView>,
    me: Seq<char>,
    inbox: Seq<MessageView>,
) -> bool {
    &&& inbox.len() > 0
    &&& exists|a: int|
        {
            &&& 0 <= a < table.len()
            &&& (#[trigger] table[a]).agent == me
            &&& forall|j: int|
                0 <= j < inbox.len() ==> table[a].allows((#[trigger] inbox[j]).channel)
                    && inbox[j].sender != me
        }
}

/// Whether the run gets to the turn of agent `k` in round `r`, and what is
/// delivered to the agent there is `inbox`.
pub open spec fn due_at<E, F: Fn(String, Vec<Message>) -> Result<Vec<Message>, E>>(
    agent: F,
    answers: spec_fn(Call) -> Seq<MessageView>,
    table: Seq<GrantView>,
    seeds: Seq<MessageView>,
    next_id: nat,
    n: nat,
    r: nat,
    k: nat,
    me: Seq<char>,
    inbox: Seq<MessageView>,
) -> bool {
    let call = call_of(table, run_at(answers, table, seeds, next_id, r, k), k);
    &&& gets_to(agent, answers, table, seeds, next_id, n, r, k)
    &&& call.me == me
    &&& call.inbox == inbox
}

/// Whether a run calls the component in the name `me` with `inbox`: the call is
/// in scope, and the run gets to a turn in which just that is delivered. The
/// component is called with nothing else.
pub open spec fn is_due<E, F: Fn(String, Vec<Message>) -> Result<Vec<Message>, E>>(
    agent: F,
    table: Seq<GrantView>,
    seeds: Seq<MessageView>,
    next_id: nat,
    n: nat,
    me: Seq<char>,
    inbox: Seq<MessageView>,
) -> bool {
    &&& scoped_call(table, me, inbox)
    &&& exists|answers: spec_fn(Call) -> Seq<MessageView>, r: nat, k: nat| #[trigger]
        due_at(agent, answers, table, seeds, next_id, n, r, k, me, inbox)
}

/// Whether `result` is the outcome of a run in which the component answered
/// every call, with `answers`.
pub open spec fn completes<E, F: Fn(String, Vec<Message>) -> Result<Vec<Message>, E>>(
    agent: F,
    answers: spec_fn(Call) -> Seq<MessageView>,
    table: Seq<GrantView>,
    seeds: Seq<MessageView>,
    next_id: nat,
    n: nat,
    result: SimResult,
) -> bool {
    let s = run_with(answers, table, seeds, next_id, n);
    &&& all_answered(agent, s.calls, answers)
    &&& in_range(s)
    &&& result.reports(s)
}

/// Whether the run ends in the turn of agent `k` in round `r` because the
/// component fails the call with `e`.
pub open spec fn fails_at<E, F: Fn(String, Vec<Message>) -> Result<Vec<Message>, E>>(
    agent: F,
    answers: spec_fn(Call) -> Seq<MessageView>,
    table: Seq<GrantView>,
    seeds: Seq<MessageView>,
    next_id: nat,
    n: nat,
    r: nat,
    k: nat,
    e: E,
) -> bool {
    let s = run_at(answers, table, seeds, next_id, r, k);
    &&& gets_to(agent, answers, table, seeds, next_id, n, r, k)
    &&& look(table, s, k).inbox.len() > 0
    &&& may_fail(agent, call_of(table, s, k), e)
}

/// Whether the run ends in the turn of agent `k` in round `r` because what is
/// withheld from the agent cannot be counted, or what the component answers
/// cannot be numbered, within the machine's range.
pub open spec fn overflows_at<E, F: Fn(String, Vec<Message>) -> Result<Vec<Message>, E>>(
    agent: F,
    answers: spec_fn(Call) -> Seq<MessageView>,
    table: Seq<GrantView>,
    seeds: Seq<MessageView>,
    next_id: nat,
    n: nat,
    r: nat,
    k: nat,
) -> bool {
    let s = run_at(answers, table, seeds, next_id, r, k);
    let t = after_turn(answers, table, s, k);
    &&& gets_to(agent, answers, table, seeds, next_id, n, r, k)
    &&& !in_range(after_look(table, s, k)) || (all_answered(agent, t.calls, answers) && !in_range(
        t,
    ))
}

/// Whether `out` is what comes of a run with the component `agent`: an outcome if
/// the component answered every call, its error where it failed one, and
/// `Counters` where the counters did not suffice.
pub open spec fn explains<E, F: Fn(String, Vec<Message>) -> Result<Vec<Message>, E>>(
    agent: F,
    table: Seq<GrantView>,
    seeds: Seq<MessageView>,
    next_id: nat,
    n: nat,
    out: Result<SimResult, SimError<E>>,
) -> bool {
    match out {
        Ok(result) => exists|answers: spec_fn(Call) -> Seq<MessageView>| #[trigger]
            completes(agent, answers, table, seeds, next_id, n, result),
        Err(SimError::Component(e)) => exists|
            answers: spec_fn(Call) -> Seq<MessageView>,
            r: nat,
            k: nat,
        | #[trigger] fails_at(agent, answers, table, seeds, next_id, n, r, k, e),
        Err(SimError::Counters) => exists|
            answers: spec_fn(Call) -> Seq<MessageView>,
            r: nat,
            k: nat,
        | #[trigger] overflows_at(agent, answers, table, seeds, next_id, n, r, k),
    }
}

/// Whether the component fails every call.
pub open spec fn always_fails<E, F: Fn(String, Vec<Message>) -> Result<Vec<Message>, E>>(
    agent: F,
) -> bool {
    forall|me: String, inbox: Vec<Message>, answered: Result<Vec<Message>, E>|
        #[trigger] call_ensures(agent, (me, inbox), answered) ==> answered is Err
}

/// Whether the component never fails, and answers as the library's own agent.
pub open spec fn answers_as_own<E, F: Fn(String, Vec<Message>) -> Result<Vec<Message>, E>>(
    agent: F,
) -> bool {
    forall|me: String, inbox: Vec<Message>, answered: Result<Vec<Message>, E>|
        #[trigger] call_ensures(agent, (me, inbox), answered) ==> {
            &&& answered is Ok
            &&& message::messages_view(answered->Ok_0@) == agent::replies(
                me@,
                message::messages_view(inbox@),
            )
        }
}

/// The turns of a round leave the calls before it as they are; the calls that
/// they add are of that round, and for agents that had their turn.
proof fn lemma_calls_are_placed(
    answers: spec_fn(Call) -> Seq<MessageView>,
    table: Seq<GrantView>,
    s: RunState,
    k: nat,
)
    ensures
        ({
            let t = after_turns(answers, table, s, k);
            &&& t.round == s.round
            &&& t.converged == s.converged
            &&& s.calls.len() <= t.calls.len()
            &&& forall|i: int| 0 <= i < s.calls.len() ==> #[trigger] t.calls[i] == s.calls[i]
            &&& forall|i: int|
                s.calls.len() <= i < t.calls.len() ==> (#[trigger] t.calls[i]).round == s.round
                    && t.calls[i].agent < k
        }),
    decreases k,
{
    if k > 0 {
        lemma_calls_are_placed(answers, table, s, (k - 1) as nat);
    }
}

/// While a run goes on, all of its calls were made in the rounds that ended.
proof fn lemma_calls_are_past(
    answers: spec_fn(Call) -> Seq<MessageView>,
    table: Seq<GrantView>,
    seeds: Seq<MessageView>,
    next_id: nat,
    n: nat,
)
    ensures
        ({
            let s = run_with(answers, table, seeds, next_id, n);
            &&& s.round <= n
            &&& s.converged is None ==> s.round == n
            &&& s.converged is None ==> forall|i: int|
                0 <= i < s.calls.len() ==> (#[trigger] s.calls[i]).round < n
        }),
    decreases n,
{
    if n > 0 {
        lemma_calls_are_past(answers, table, seeds, next_id, (n - 1) as nat);
        let p = run_with(answers, table, seeds, next_id, (n - 1) as nat);
        lemma_calls_are_placed(answers, table, p, table.len());
        if p.converged is None {
            let t = after_turns(answers, table, p, table.len());
            assert forall|i: int| 0 <= i < t.calls.len() implies (#[trigger] t.calls[i]).round
                < n by {
                if i < p.calls.len() {
                    assert(t.calls[i] == p.calls[i]);
                }
            }
        }
    }
}

/// Only the answers to the calls that are made matter: turns.
proof fn lemma_turns_depend_on_calls(
    a: spec_fn(Call) -> Seq<MessageView>,
    b: spec_fn(Call) -> Seq<MessageView>,
    table: Seq<GrantView>,
    s: RunState,
    k: nat,
)
    requires
        ({
            let t = after_turns(a, table, s, k);
            forall|i: int|
                s.calls.len() <= i < t.calls.len() ==> a(#[trigger] t.calls[i]) == b(t.calls[i])
        }),
    ensures
        after_turns(b, table, s, k) == after_turns(a, table, s, k),
    decreases k,
{
    if k > 0 {
        let p = after_turns(a, table, s, (k - 1) as nat);
        let t = after_turns(a, table, s, k);
        lemma_calls_are_placed(a, table, s, (k - 1) as nat);
        assert forall|i: int| s.calls.len() <= i < p.calls.len() implies a(#[trigger] p.calls[i])
            == b(p.calls[i]) by {
            assert(t.calls[i] == p.calls[i]);
        }
        lemma_turns_depend_on_calls(a, b, table, s, (k - 1) as nat);
        if look(table, p, (k - 1) as nat).inbox.len() > 0 {
            assert(t.calls[p.calls.len() as int] == call_of(table, p, (k - 1) as nat));
        }
    }
}

/// Only the answers to the calls that are made matter.
pub proof fn lemma_run_depends_on_calls(
    a: spec_fn(Call) -> Seq<MessageView>,
    b: spec_fn(Call) -> Seq<MessageView>,
    table: Seq<GrantView>,
    seeds: Seq<MessageView>,
    next_id: nat,
    n: nat,
)
    requires
        ({
            let s = run_with(a, table, seeds, next_id, n);
            forall|i: int| 0 <= i < s.calls.len() ==> a(#[trigger] s.calls[i]) == b(s.calls[i])
        }),
    ensures
        run_with(b, table, seeds, next_id, n) == run_with(a, table, seeds, next_id, n),
    decreases n,
{
    if n > 0 {
        let p = run_with(a, table, seeds, next_id, (n - 1) as nat);
        let s = run_with(a, table, seeds, next_id, n);
        lemma_calls_are_placed(a, table, p, table.len());
        assert forall|i: int| 0 <= i < p.calls.len() implies a(#[trigger] p.calls[i]) == b(
            p.calls[i],
        ) by {
            assert(s.calls[i] == p.calls[i]);
        }
        lemma_run_depends_on_calls(a, b, table, seeds, next_id, (n - 1) as nat);
        if p.converged is None {
            assert(s.calls == after_turns(a, table, p, table.len()).calls);
            lemma_turns_depend_on_calls(a, b, table, p, table.len());
        }
    }
}

/// Only the answers to the calls that are made matter: within a round.
pub proof fn lemma_run_at_depends_on_calls(
    a: spec_fn(Call) -> Seq<MessageView>,
    b: spec_fn(Call) -> Seq<MessageView>,
    table: Seq<GrantView>,
    seeds: Seq<MessageView>,
    next_id: nat,
    r: nat,
    k: nat,
)
    requires
        ({
            let s = run_at(a, table, seeds, next_id, r, k);
            forall|i: int| 0 <= i < s.calls.len() ==> a(#[trigger] s.calls[i]) == b(s.calls[i])
        }),
    ensures
        run_with(b, table, seeds, next_id, r) == run_with(a, table, seeds, next_id, r),
        run_at(b, table, seeds, next_id, r, k) == run_at(a, table, seeds, next_id, r, k),
{
    let p = run_with(a, table, seeds, next_id, r);
    let s = run_at(a, table, seeds, next_id, r, k);
    lemma_calls_are_placed(a, table, p, k);
    assert forall|i: int| 0 <= i < p.calls.len() implies a(#[trigger] p.calls[i]) == b(
        p.calls[i],
    ) by {
        assert(s.calls[i] == p.calls[i]);
    }
    lemma_run_depends_on_calls(a, b, table, seeds, next_id, r);
    lemma_turns_depend_on_calls(a, b, table, p, k);
}

/// Runs the component `agent` in the names of the agents of `table`, over a log
/// that starts with `seeds`, for at most `max_rounds` rounds. The component has to
/// take the calls that are due, and is not called with anything else. Answers get
/// identifiers from `first_id` on. Whatever the component answers, the outcome
/// is that of the run with those answers; and a run without outcome ends where
/// the component fails, or where the counters do not suffice. How often a call that
/// is due is made is left open: `agent` has no state in which that would show.
pub fn simulate<E, F: Fn(String, Vec<Message>) -> Result<Vec<Message>, E>>(
    agent: F,
    table: &Vec<Grant>,
    seeds: Vec<Message>,
    first_id: u64,
    max_rounds: usize,
) -> (out: Result<SimResult, SimError<E>>)
    requires
        forall|me: String, inbox: Vec<Message>|
            is_due(
                agent,
                capability::grants_view(table@),
                message::messages_view(seeds@),
                first_id as nat,
                max_rounds as nat,
                me@,
                message::messages_view(inbox@),
            ) ==> #[trigger] call_requires(agent, (me, inbox)),
    ensures
        explains(
            agent,
            capability::grants_view(table@),
            message::messages_view(seeds@),
            first_id as nat,
            max_rounds as nat,
            out,
        ),
{
    let ghost grants = capability::grants_view(table@);
    let ghost start = message::messages_view(seeds@);
    let ghost first = first_id as nat;
    let ghost n = max_rounds as nat;
    let ghost mut answers: spec_fn(Call) -> Seq<MessageView> = |c: Call| seq![];
    let mut sim = Simulation::new(seeds, first_id);
    let mut round: usize = 0;
    while round < max_rounds && !sim.has_converged()
        invariant
            forall|me: String, inbox: Vec<Message>|
                is_due(
                    agent,
                    grants,
                    start,
                    first,
                    n,
                    me@,
                    message::messages_view(inbox@),
                ) ==> #[trigger] call_requires(agent, (me, inbox)),
            grants == capability::grants_view(table@),
            start == message::messages_view(seeds@),
            first == first_id,
            n == max_rounds,
            round <= max_rounds,
            sim.wf(),
            in_range(sim@),
            sim@ == run_with(answers, grants, start, first, round as nat),
            all_answered(agent, sim@.calls, answers),
        decreases max_rounds - round,
    {
        let ghost r = round as nat;
        let mut k: usize = 0;
        proof {
            lemma_calls_are_past(answers, grants, start, first, r);
        }
        while k < table.len()
            invariant
                forall|me: String, inbox: Vec<Message>|
                    is_due(
                        agent,
                        grants,
                        start,
                        first,
                        n,
                        me@,
                        message::messages_view(inbox@),
                    ) ==> #[trigger] call_requires(agent, (me, inbox)),
                grants == capability::grants_view(table@),
                start == message::messages_view(seeds@),
                first == first_id,
                n == max_rounds,
                round < max_rounds,
                r == round,
                k <= table@.len(),
                sim.wf(),
                in_range(sim@),
                run_with(answers, grants, start, first, r).converged is None,
                sim@ == run_at(answers, grants, start, first, r, k as nat),
                all_answered(agent, sim@.calls, answers),
            decreases table@.len() - k,
        {
            let ghost s = sim@;
            let ghost kk = k as nat;
            assert(gets_to(agent, answers, grants, start, first, n, r, kk));
            if !sim.room_to_look(table, k) {
                assert(overflows_at(agent, answers, grants, start, first, n, r, kk));
                return Err(SimError::Counters);
            }
            if let Some(inbox) = sim.look_for(table, k) {
                let ghost call = call_of(grants, s, kk);
                let me = table[k].agent.clone();
                let ghost handed = inbox;
                proof {
                    simulation_laws::law_delivery_is_scoped_and_once(
                        grants[k as int],
                        s.log,
                        s.seen,
                    );
                    let passed = message::messages_view(inbox@);
                    assert(scoped_call(grants, me@, passed)) by {
                        assert(grants[k as int].agent == me@);
                    }
                    assert(due_at(
                        agent,
                        answers,
                        grants,
                        start,
                        first,
                        n,
                        r,
                        kk,
                        me@,
                        passed,
                    ));
                }
                let answered = agent(me, inbox);
                match answered {
                    Err(e) => {
                        proof {
                            assert(call_ensures(
                                agent,
                                (me, handed),
                                Err::<Vec<Message>, E>(e),
                            ));
                            assert(may_fail(agent, call, e));
                            assert(fails_at(
                                agent,
                                answers,
                                grants,
                                start,
                                first,
                                n,
                                r,
                                kk,
                                e,
                            ));
                        }
                        let failure: SimError<E> = SimError::Component(e);
                        assert(failure->Component_0 == e);
                        return Err(failure);
                    },
                    Ok(out) => {
                        let ghost said = message::messages_view(out@);
                        proof {
                            assert(call_ensures(
                                agent,
                                (me, handed),
                                Ok::<Vec<Message>, E>(out),
                            ));
                            assert(may_answer(agent, call, said));
                            let before = answers;
                            let p = run_with(before, grants, start, first, r);
                            lemma_calls_are_past(before, grants, start, first, r);
                            lemma_calls_are_placed(before, grants, p, kk);
                            answers =
                            |c: Call|
                                if c == call {
                                    said
                                } else {
                                    before(c)
                                };
                            assert forall|i: int| 0 <= i < s.calls.len() implies before(
                                #[trigger] s.calls[i],
                            ) == answers(s.calls[i]) by {
                                if i < p.calls.len() {
                                    assert(s.calls[i] == p.calls[i]);
                                }
                            }
                            lemma_run_at_depends_on_calls(
                                before,
                                answers,
                                grants,
                                start,
                                first,
                                r,
                                kk,
                            );
                            let t = after_turn(answers, grants, s, kk);
                            assert forall|i: int| 0 <= i < t.calls.len() implies may_answer(
                                agent,
                                #[trigger] t.calls[i],
                                answers(t.calls[i]),
                            ) by {
                                if i < s.calls.len() {
                                    assert(t.calls[i] == s.calls[i]);
                                    assert(may_answer(agent, s.calls[i], before(s.calls[i])));
                                }
                            }
                            assert forall|i: int| 0 <= i < s.calls.len() implies may_answer(
                                agent,
                                #[trigger] s.calls[i],
                                answers(s.calls[i]),
                            ) by {
                                assert(may_answer(agent, s.calls[i], before(s.calls[i])));
                            }
                            assert(gets_to(agent, answers, grants, start, first, n, r, kk));
                            assert(said.len() == out@.len());
                        }
                        if !sim.room_to_answer(out.len()) {
                            assert(overflows_at(agent, answers, grants, start, first, n, r, kk));
                            return Err(SimError::Counters);
                        }
                        sim.answer(out);
                    },
                }
            }
            assert(sim@ == after_turn(answers, grants, s, kk));
            k = k + 1;
        }
        proof {
            let p = run_with(answers, grants, start, first, r);
            lemma_calls_are_past(answers, grants, start, first, r);
            lemma_calls_are_placed(answers, grants, p, grants.len());
        }
        sim.end_round();
        round = round + 1;
    }
    proof {
        lemma_run_stays(answers, grants, start, first, round as nat, n);
    }
    let result = sim.outcome();
    assert(completes(agent, answers, grants, start, first, n, result));
    Ok(result)
}

/// A copy of a list of messages.
fn copy_messages(messages: &Vec<Message>) -> (copy: Vec<Message>)
    ensures
        message::messages_view(copy@) == message::messages_view(messages@),
{
    let mut copy: Vec<Message> = Vec::new();
    let mut i: usize = 0;
    while i < messages.len()
        invariant
            i <= messages@.len(),
            message::messages_view(copy@) == message::messages_view(messages@).take(i as int),
        decreases messages@.len() - i,
    {
        let ghost earlier = copy@;
        let m = messages[i].clone();
        let ghost said = m@;
        copy.push(m);
        i = i + 1;
        assert(message::messages_view(copy@) =~= message::messages_view(earlier).push(said));
        assert(message::messages_view(copy@) =~= message::messages_view(messages@).take(i as int));
    }
    assert(message::messages_view(copy@) =~= message::messages_view(messages@));
    copy
}

/// A run that has converged does not change any more.
pub proof fn lemma_run_stays(
    answers: spec_fn(Call) -> Seq<MessageView>,
    table: Seq<GrantView>,
    seeds: Seq<MessageView>,
    next_id: nat,
    n: nat,
    more: nat,
)
    requires
        n <= more,
        run_with(answers, table, seeds, next_id, n).converged is Some || n == more,
    ensures
        run_with(answers, table, seeds, next_id, more) == run_with(
            answers,
            table,
            seeds,
            next_id,
            n,
        ),
    decreases more,
{
    if n < more {
        lemma_run_stays(answers, table, seeds, next_id, n, (more - 1) as nat);
    }
}

/// The turns of a round only add to the counters and to the calls.
pub proof fn lemma_turns_count(
    answers: spec_fn(Call) -> Seq<MessageView>,
    table: Seq<GrantView>,
    s: RunState,
    k: nat,
    more: nat,
)
    requires
        k <= more,
    ensures
        ({
            let p = after_turns(answers, table, s, k);
            let t = after_turns(answers, table, s, more);
            &&& p.next_id <= t.next_id
            &&& p.off_scope <= t.off_scope
            &&& p.echoes <= t.echoes
            &&& p.calls.len() <= t.calls.len()
        }),
    decreases more,
{
    if k < more {
        lemma_turns_count(answers, table, s, k, (more - 1) as nat);
    }
}

/// The rounds of a run only add to the counters and to the calls.
pub proof fn lemma_rounds_count(
    answers: spec_fn(Call) -> Seq<MessageView>,
    table: Seq<GrantView>,
    seeds: Seq<MessageView>,
    next_id: nat,
    n: nat,
    more: nat,
)
    requires
        n <= more,
    ensures
        ({
            let p = run_with(answers, table, seeds, next_id, n);
            let t = run_with(answers, table, seeds, next_id, more);
            &&& p.next_id <= t.next_id
            &&& p.off_scope <= t.off_scope
            &&& p.echoes <= t.echoes
            &&& p.calls.len() <= t.calls.len()
        }),
    decreases more,
{
    if n < more {
        lemma_rounds_count(answers, table, seeds, next_id, n, (more - 1) as nat);
        let p = run_with(answers, table, seeds, next_id, (more - 1) as nat);
        lemma_turns_count(answers, table, p, 0, table.len());
    }
}

/// What the component may have answered is what the library's own agent answers,
/// if the component answers as that agent.
proof fn lemma_own_is_answered<E, F: Fn(String, Vec<Message>) -> Result<Vec<Message>, E>>(
    agent: F,
    calls: Seq<Call>,
    answers: spec_fn(Call) -> Seq<MessageView>,
)
    requires
        answers_as_own(agent),
        all_answered(agent, calls, answers),
    ensures
        forall|i: int|
            0 <= i < calls.len() ==> answers(#[trigger] calls[i]) == own_answers()(calls[i]),
{
    assert forall|i: int| 0 <= i < calls.len() implies answers(#[trigger] calls[i])
        == own_answers()(calls[i]) by {
        assert(may_answer(agent, calls[i], answers(calls[i])));
    }
}

/// A run with a component that answers as the library's own agent comes to the
/// outcome of the run with that agent, as far as the counters suffice for it.
pub proof fn law_own_agent_completes<E, F: Fn(String, Vec<Message>) -> Result<Vec<Message>, E>>(
    agent: F,
    table: Seq<GrantView>,
    seeds: Seq<MessageView>,
    next_id: nat,
    n: nat,
    out: Result<SimResult, SimError<E>>,
)
    requires
        explains(agent, table, seeds, next_id, n, out),
        answers_as_own(agent),
        in_range(run(table, seeds, next_id, n)),
    ensures
        out is Ok,
        out->Ok_0.reports(run(table, seeds, next_id, n)),
{
    let own = own_answers();
    match out {
        Ok(result) => {
            let answers = choose|answers: spec_fn(Call) -> Seq<MessageView>| #[trigger]
                completes(agent, answers, table, seeds, next_id, n, result);
            let s = run_with(answers, table, seeds, next_id, n);
            lemma_own_is_answered(agent, s.calls, answers);
            lemma_run_depends_on_calls(answers, own, table, seeds, next_id, n);
        },
        Err(SimError::Component(e)) => {
            let (answers, r, k) = choose|
                answers: spec_fn(Call) -> Seq<MessageView>,
                r: nat,
                k: nat,
            | #[trigger] fails_at(agent, answers, table, seeds, next_id, n, r, k, e);
            let s = run_at(answers, table, seeds, next_id, r, k);
            assert(may_fail(agent, call_of(table, s, k), e));
        },
        Err(SimError::Counters) => {
            let (answers, r, k) = choose|
                answers: spec_fn(Call) -> Seq<MessageView>,
                r: nat,
                k: nat,
            | #[trigger] overflows_at(agent, answers, table, seeds, next_id, n, r, k);
            let p = run(table, seeds, next_id, r);
            let s = run_at(answers, table, seeds, next_id, r, k);
            lemma_own_is_answered(agent, s.calls, answers);
            lemma_run_at_depends_on_calls(answers, own, table, seeds, next_id, r, k);
            lemma_turns_count(own, table, p, k + 1, table.len());
            lemma_rounds_count(own, table, seeds, next_id, r + 1, n);
            assert(after_turns(own, table, p, k + 1) == after_turn(own, table, s, k));
            let t = after_turn(answers, table, s, k);
            if all_answered(agent, t.calls, answers) {
                lemma_own_is_answered(agent, t.calls, answers);
                if look(table, s, k).inbox.len() > 0 {
                    assert(t.calls[s.calls.len() as int] == call_of(table, s, k));
                }
            }
        },
    }
}

} // verus!
