//! What each step of the host does, in terms of what it is given and what it
//! leaves behind.

use vstd::prelude::*;
use vstd::utf8::*;

use crate::capability;
use crate::capability::GrantView;
use crate::channel;
use crate::control;
use crate::host;
use crate::host::{Host, HostView, Intake, IntakeView};
use crate::host_laws;
use crate::host_laws::Step;
use crate::lease;
use crate::message;
use crate::message::{MessageView, WireView};
use crate::scenario;
use crate::text;

verus! {

/// A halt spares nobody: the agent that it names, whoever that is, is among the
/// halted from then on, so that a turn of its does not begin; nobody else is
/// halted by it, and nothing else changes. A halt that names no agent does
/// nothing.
pub proof fn law_halt_spares_nobody(s: HostView, name: Seq<char>, other: Seq<char>, agent: nat)
    ensures
        s.after_halt(Some(name)).killed.contains(name),
        other != name ==> (s.after_halt(Some(name)).killed.contains(other)
            <==> s.killed.contains(other)),
        s.table[agent as int].agent == name ==> !s.after_halt(Some(name)).may_start(agent),
        s.table[agent as int].agent == name ==> s.after_halt(Some(name)).after_begin(agent)
            == s.after_halt(Some(name)),
        s.after_halt(Some(name)) == (HostView { killed: s.after_halt(Some(name)).killed, ..s }),
        s.after_halt(None) == s,
{
}

/// A control message halts the agent whose name it holds, with or without white
/// space around it.
pub proof fn law_control_message_halts(
    s: HostView,
    before: Seq<char>,
    name: Seq<char>,
    after: Seq<char>,
)
    requires
        name.len() > 0,
        !text::is_white_space(name[0]),
        !text::is_white_space(name.last()),
        forall|i: int| 0 <= i < before.len() ==> text::is_white_space(#[trigger] before[i]),
        forall|i: int| 0 <= i < after.len() ==> text::is_white_space(#[trigger] after[i]),
    ensures
        ({
            let bytes = encode_utf8(before + name + after);
            &&& valid_utf8(bytes)
            &&& s.after_halt(control::halted_agent(decode_utf8(bytes))).killed.contains(name)
        }),
{
    control::law_halt_names_its_agent(before, name, after);
}

/// A halt holds for good: whatever steps follow it, the agent that it named is
/// still halted, its turn does not begin and no turn is its.
pub proof fn law_halt_is_final(s: HostView, name: Seq<char>, steps: Seq<Step>, agent: nat)
    requires
        host_laws::sound(s),
        !s.decided,
        s.turn is None,
        host_laws::all_enabled(s.after_halt(Some(name)), steps),
        agent < s.table.len(),
        s.table[agent as int].agent == name,
    ensures
        ({
            let t = host_laws::after_all(s.after_halt(Some(name)), steps);
            &&& t.killed.contains(name)
            &&& !t.may_start(agent)
            &&& t.after_begin(agent) == t
            &&& t.turn != Some(agent)
        }),
{
    let h = s.after_halt(Some(name));
    host_laws::lemma_halt_keeps_soundness(s, name);
    host_laws::law_halted_agent_is_silent(h, steps, name);
    host_laws::law_record_only_grows(h, steps);
}

/// An agent has its turn if and only if it was not halted. Its turn begins with
/// nothing queued for it, and changes nothing else.
pub proof fn law_turn_begins_unless_halted(s: HostView, agent: nat)
    ensures
        s.may_start(agent) <==> !s.killed.contains(s.table[agent as int].agent),
        s.may_start(agent) ==> s.after_begin(agent).turn == Some(agent),
        s.may_start(agent) ==> s.after_begin(agent).inbox.len() == 0,
        s.may_start(agent) ==> s.after_begin(agent) == (HostView {
            turn: Some(agent),
            inbox: s.after_begin(agent).inbox,
            ..s
        }),
        !s.may_start(agent) ==> s.after_begin(agent) == s,
{
}

/// Whose turn it is, and what that agent was granted, is what the table says.
pub proof fn law_turn_is_an_agents(s: HostView)
    ensures
        s.in_turn() <==> s.turn is Some && s.turn->0 < s.table.len(),
        s.grant() == s.table[s.turn->0 as int],
        s.me() == s.table[s.turn->0 as int].agent,
{
}

/// What becomes of a delivered message: the agent's own is an echo; then what the
/// agent was given before is repeated; then what begins with `TASK` is a claim, on
/// the task that it names; and only what is none of these is queued.
pub proof fn law_intake_is_one_of_four(s: HostView, w: WireView)
    ensures
        ({
            let me = s.table[s.turn->0 as int].agent;
            let repeated = w.sender != me && s.seen.contains((me, w.id));
            let fresh = w.sender != me && !s.seen.contains((me, w.id));
            let task = "TASK"@.is_prefix_of(w.payload);
            &&& s.intake(w) is Echo <==> w.sender == me
            &&& s.intake(w) is Repeated <==> repeated
            &&& s.intake(w) is Claim <==> fresh && task
            &&& s.intake(w) is Queued <==> fresh && !task
            &&& s.intake(w) is Claim ==> lease::task_in(w.payload) == Some(
                s.intake(w)->Claim_task,
            )
            &&& s.intake(w) is Claim ==> s.intake(w)->Claim_key == lease::key_of(
                s.intake(w)->Claim_task,
            )
        }),
{
}

/// A message that is queued is put behind all that is queued already, as its wire
/// says; nothing else is ever put there. An echo is counted and not put on record;
/// all else is on record from then on. Nothing but that changes.
pub proof fn law_delivery_joins_the_queue(s: HostView, w: WireView)
    ensures
        ({
            let me = s.table[s.turn->0 as int].agent;
            let t = s.after_receive(w);
            let queued = w.sender != me && !s.seen.contains((me, w.id)) && !"TASK"@.is_prefix_of(
                w.payload,
            );
            &&& queued ==> t.inbox.len() == s.inbox.len() + 1
            &&& queued ==> t.inbox.drop_last() == s.inbox
            &&& queued ==> t.inbox.last().id == w.id
            &&& queued ==> t.inbox.last().sender == w.sender
            &&& queued ==> t.inbox.last().channel == w.channel
            &&& queued ==> t.inbox.last().act == message::act_named(w.act)
            &&& queued ==> t.inbox.last().payload == w.payload
            &&& queued ==> t.inbox.last().sig == w.sig
            &&& queued ==> t.inbox.last().hops == w.hops
            &&& !queued ==> t.inbox == s.inbox
            &&& w.sender == me ==> t.echoes == s.echoes + 1 && t.seen == s.seen
            &&& w.sender != me ==> t.echoes == s.echoes && t.seen == s.seen.insert((me, w.id))
            &&& t == (HostView { inbox: t.inbox, seen: t.seen, echoes: t.echoes, ..s })
        }),
{
    let me = s.table[s.turn->0 as int].agent;
    let t = s.after_receive(w);
    if w.sender != me {
        assert(t.seen =~= s.seen.insert((me, w.id)));
    }
    if t.inbox.len() != s.inbox.len() {
        assert(t.inbox.drop_last() =~= s.inbox);
    }
}

/// What is queued for an agent after a number of deliveries is what was queued
/// before, and then, in the order of delivery, exactly those messages that are not
/// the agent's own, that it was not given before, neither earlier nor among these,
/// and that are not tasks: each of them once, as its wire says. `at` is where they
/// stand among the deliveries.
pub proof fn law_queue_follows_the_stream(s: HostView, ws: Seq<WireView>) -> (at: Seq<int>)
    ensures
        ({
            let me = s.table[s.turn->0 as int].agent;
            let t = ws.fold_left(s, |h: HostView, w: WireView| h.after_receive(w));
            &&& t.table == s.table
            &&& t.turn == s.turn
            &&& t.inbox == s.inbox + at.map_values(|i: int| message::message_of(ws[i]))
            &&& forall|id: u64| #[trigger]
                t.seen.contains((me, id)) <==> s.seen.contains((me, id)) || exists|j: int|
                    0 <= j < ws.len() && #[trigger] ws[j].sender != me && ws[j].id == id
            &&& forall|a: int, b: int|
                0 <= a < b < at.len() ==> #[trigger] at[a] < #[trigger] at[b]
            &&& forall|i: int| #[trigger]
                at.contains(i) <==> {
                    &&& 0 <= i < ws.len()
                    &&& ws[i].sender != me
                    &&& !s.seen.contains((me, ws[i].id))
                    &&& forall|j: int|
                        0 <= j < i && #[trigger] ws[j].sender != me ==> ws[j].id != ws[i].id
                    &&& !"TASK"@.is_prefix_of(ws[i].payload)
                }
        }),
    decreases ws.len(),
{
    let me = s.table[s.turn->0 as int].agent;
    let step = |h: HostView, w: WireView| h.after_receive(w);
    if ws.len() == 0 {
        let at = Seq::<int>::empty();
        assert(s.inbox + at.map_values(|i: int| message::message_of(ws[i])) =~= s.inbox);
        at
    } else {
        let n = ws.len() - 1;
        let before = ws.drop_last();
        let w = ws.last();
        let at = law_queue_follows_the_stream(s, before);
        let p = before.fold_left(s, step);
        let t = ws.fold_left(s, step);
        assert(t == p.after_receive(w));
        assert forall|i: int| 0 <= i < n implies #[trigger] before[i] == ws[i] by {}
        assert forall|id: u64| #[trigger] t.seen.contains((me, id)) <==> s.seen.contains((me, id))
            || exists|j: int|
            0 <= j < ws.len() && #[trigger] ws[j].sender != me && ws[j].id == id by {
            if p.seen.contains((me, id)) && !s.seen.contains((me, id)) {
                let j = choose|j: int|
                    0 <= j < before.len() && #[trigger] before[j].sender != me && before[j].id
                        == id;
                assert(ws[j].sender != me && ws[j].id == id);
            }
            if exists|j: int|
                0 <= j < ws.len() && #[trigger] ws[j].sender != me && ws[j].id == id {
                let j = choose|j: int|
                    0 <= j < ws.len() && #[trigger] ws[j].sender != me && ws[j].id == id;
                if j < n {
                    assert(before[j].sender != me && before[j].id == id);
                }
            }
            assert(ws[n] == w);
        }
        assert forall|i: int| 0 <= i < n implies (#[trigger] at.contains(i) <==> {
            &&& ws[i].sender != me
            &&& !s.seen.contains((me, ws[i].id))
            &&& forall|j: int|
                0 <= j < i && #[trigger] ws[j].sender != me ==> ws[j].id != ws[i].id
            &&& !"TASK"@.is_prefix_of(ws[i].payload)
        }) by {
            assert(before[i] == ws[i]);
            if at.contains(i) {
                assert forall|j: int| 0 <= j < i && #[trigger] ws[j].sender != me implies ws[j].id
                    != ws[i].id by {
                    assert(before[j].sender != me);
                }
            } else if forall|j: int|
                0 <= j < i && #[trigger] ws[j].sender != me ==> ws[j].id != ws[i].id {
                assert forall|j: int|
                    0 <= j < i && #[trigger] before[j].sender != me implies before[j].id
                    != before[i].id by {
                    assert(ws[j].sender != me);
                }
            }
        }
        let next = if t.inbox.len() > p.inbox.len() {
            at.push(n)
        } else {
            at
        };
        assert(p.seen.contains((me, w.id)) <==> s.seen.contains((me, w.id)) || exists|j: int|
            0 <= j < n && #[trigger] ws[j].sender != me && ws[j].id == w.id) by {
            if exists|j: int| 0 <= j < n && #[trigger] ws[j].sender != me && ws[j].id == w.id {
                let j = choose|j: int|
                    0 <= j < n && #[trigger] ws[j].sender != me && ws[j].id == w.id;
                assert(before[j].sender != me && before[j].id == w.id);
            }
        }
        assert forall|i: int| #[trigger] next.contains(i) <==> (at.contains(i) || (t.inbox.len()
            > p.inbox.len() && i == n)) by {
            if at.contains(i) {
                let a = choose|a: int| 0 <= a < at.len() && at[a] == i;
                assert(next[a] == i);
            }
            if t.inbox.len() > p.inbox.len() {
                assert(next[at.len() as int] == n);
            }
            if next.contains(i) {
                let a = choose|a: int| 0 <= a < next.len() && next[a] == i;
                if a < at.len() {
                    assert(at[a] == i);
                }
            }
        }
        assert forall|a: int, b: int| 0 <= a < b < next.len() implies #[trigger] next[a]
            < #[trigger] next[b] by {
            assert(at.contains(at[a]));
        }
        assert forall|a: int| 0 <= a < at.len() implies 0 <= #[trigger] at[a] < n by {
            assert(at.contains(at[a]));
        }
        assert(at.map_values(|i: int| message::message_of(before[i])) =~= at.map_values(
            |i: int| message::message_of(ws[i]),
        ));
        if t.inbox.len() > p.inbox.len() {
            assert(ws[n] == w);
            assert(next.map_values(|i: int| message::message_of(ws[i])) =~= at.map_values(
                |i: int| message::message_of(ws[i]),
            ).push(message::message_of(w)));
            assert(t.inbox =~= s.inbox + next.map_values(|i: int| message::message_of(ws[i])));
        }
        next
    }
}

/// Handing over what is queued leaves nothing queued, and ending a turn leaves
/// nobody's turn: neither changes anything else.
pub proof fn law_turn_leaves_nothing_queued(s: HostView)
    ensures
        s.after_hand_over().inbox.len() == 0,
        s.after_hand_over() == (HostView { inbox: s.after_hand_over().inbox, ..s }),
        s.after_end_turn().inbox.len() == 0,
        s.after_end_turn().turn is None,
        s.after_end_turn() == (HostView { turn: None, inbox: s.after_end_turn().inbox, ..s }),
{
}

/// A lease that was got makes the task the agent's: the task is on record as
/// handled by that agent, the agent is engaged, and one message more is accepted,
/// which says so, from the agent, under the next number, on the coordination
/// channel and with no hops left. A lease that was not got is counted, and that is
/// all.
pub proof fn law_settling_follows_the_lease(s: HostView, task: Seq<char>)
    ensures
        ({
            let me = s.table[s.turn->0 as int].agent;
            let t = s.after_settle(task, true);
            let w = t.accepted.last();
            &&& t.handled == s.handled.insert(task, me)
            &&& t.engaged == s.engaged.insert(me)
            &&& t.accepted.len() == s.accepted.len() + 1
            &&& t.accepted.drop_last() == s.accepted
            &&& w == s.handled_wire(task)
            &&& w.id == s.next_id as u64
            &&& w.sender == me
            &&& w.channel == "build-coord"@
            &&& w.act == "inform"@
            &&& w.payload == "HANDLED "@ + task
            &&& w.sig == "sigil-stub:"@ + me + ":task"@
            &&& w.hops == 0
            &&& t.next_id == s.next_id + 1
            &&& t.produced == s.produced + 1
            &&& t == (HostView {
                handled: t.handled,
                engaged: t.engaged,
                accepted: t.accepted,
                next_id: t.next_id,
                produced: t.produced,
                ..s
            })
            &&& s.after_settle(task, false) == (HostView { duplicates: s.duplicates + 1, ..s })
        }),
{
    assert(s.after_settle(task, true).accepted.drop_last() =~= s.accepted);
}

/// Emissions are taken one by one, in their order. One on a safe channel that the
/// agent was granted is accepted, as the agent said it but under the agent's own
/// name and the next number; any other is counted as blocked, and that is all.
pub proof fn law_emissions_are_taken_in_order(s: HostView, out: Seq<MessageView>, m: MessageView)
    ensures
        ({
            let g = s.table[s.turn->0 as int];
            let p = s.after_emit(out);
            let t = s.after_emit(out.push(m));
            let w = t.accepted.last();
            let passes = channel::safe_channel(m.channel) && g.channels.contains(m.channel);
            &&& s.after_emit(Seq::<MessageView>::empty()) == s
            &&& p.accepted == s.accepted + s.outgoing(out)
            &&& passes ==> {
                &&& t.accepted.len() == p.accepted.len() + 1
                &&& t.accepted.drop_last() == p.accepted
                &&& w.id == p.next_id as u64
                &&& w.sender == g.agent
                &&& w.channel == m.channel
                &&& w.act == message::act_name(m.act)
                &&& w.payload == m.payload
                &&& w.sig == m.sig
                &&& w.hops == m.hops
                &&& t.next_id == p.next_id + 1
                &&& t.produced == p.produced + 1
                &&& t.engaged == p.engaged.insert(g.agent)
                &&& t == (HostView {
                    accepted: t.accepted,
                    next_id: t.next_id,
                    produced: t.produced,
                    engaged: t.engaged,
                    ..p
                })
            }
            &&& !passes ==> t == (HostView { blocked: p.blocked + 1, ..p })
        }),
{
    let may = |x: MessageView| s.may_emit(x);
    let none = Seq::<MessageView>::empty();
    let p = s.after_emit(out);
    let t = s.after_emit(out.push(m));
    none.lemma_filter_len(may);
    out.lemma_filter_len(may);
    out.lemma_filter_push(m, may);
    assert(s.after_emit(none) =~= s);
    if s.may_emit(m) {
        let before = s.outgoing(out);
        let after = s.outgoing(out.push(m));
        assert(after.drop_last() =~= before);
        assert(t.accepted.drop_last() =~= p.accepted);
        assert(t.accepted.last() == after.last());
        assert(t.engaged =~= p.engaged.insert(s.me()));
    } else {
        assert(t =~= (HostView { blocked: p.blocked + 1, ..p }));
    }
}

/// The owner decides at the end of a round if and only if nothing was said in it
/// or as many rounds have ended as the deadline has. The decision is one message
/// more, from the owner, on the topic, under the next number, on the coordination
/// channel and with no hops left. Without a decision the next round begins, with
/// nothing said in it yet. Nothing else changes.
pub proof fn law_owner_decides_in_time(s: HostView)
    ensures
        ({
            let t = s.after_round();
            let w = t.accepted.last();
            let due = s.produced == 0 || s.round + 1 >= s.deadline;
            &&& s.must_decide() <==> due
            &&& due ==> {
                &&& t.decided
                &&& t.accepted.len() == s.accepted.len() + 1
                &&& t.accepted.drop_last() == s.accepted
                &&& w == s.decision_wire()
                &&& w.id == s.next_id as u64
                &&& w.sender == s.owner
                &&& w.channel == "build-coord"@
                &&& w.act == "inform"@
                &&& w.payload == "DECISION["@ + s.topic + "] = "@ + "AGREED"@
                &&& w.sig == "sigil-stub:"@ + s.owner + ":decision"@
                &&& w.hops == 0
                &&& t == (HostView { decided: true, accepted: t.accepted, ..s })
            }
            &&& !due ==> t == (HostView { round: s.round + 1, produced: 0, ..s })
            &&& host::verdict() == "AGREED"@
            &&& s.may_go_on() <==> s.round < 8 && !s.decided
        }),
{
    assert(s.must_decide() ==> s.after_round().accepted.drop_last() =~= s.accepted);
}

/// The host starts with nothing delivered, said, halted, handled, counted or
/// decided, in the first round and in nobody's turn. Its first number is one more
/// than the highest of the seeds, or one if there are none.
pub proof fn law_host_starts_blank(
    table: Seq<GrantView>,
    owner: Seq<char>,
    topic: Seq<char>,
    deadline: nat,
    seeds: Seq<WireView>,
)
    ensures
        ({
            let s = host::host_start(table, owner, topic, deadline, seeds);
            &&& s.table == table
            &&& s.owner == owner
            &&& s.topic == topic
            &&& s.deadline == deadline
            &&& s.seen == Set::<(Seq<char>, u64)>::empty()
            &&& s.killed == Set::<Seq<char>>::empty()
            &&& s.engaged == Set::<Seq<char>>::empty()
            &&& s.echoes == 0
            &&& s.blocked == 0
            &&& s.duplicates == 0
            &&& s.handled == Map::<Seq<char>, Seq<char>>::empty()
            &&& s.accepted.len() == 0
            &&& s.round == 0
            &&& s.produced == 0
            &&& s.turn is None
            &&& s.inbox.len() == 0
            &&& !s.decided
            &&& s.next_id >= 1
            &&& forall|i: int| 0 <= i < seeds.len() ==> (#[trigger] seeds[i]).id < s.next_id
            &&& s.next_id == 1 || exists|i: int|
                0 <= i < seeds.len() && (#[trigger] seeds[i]).id + 1 == s.next_id
        }),
    decreases seeds.len(),
{
    if seeds.len() > 0 {
        let shorter = seeds.drop_last();
        law_host_starts_blank(table, owner, topic, deadline, shorter);
        let s = host::host_start(table, owner, topic, deadline, seeds);
        let p = host::host_start(table, owner, topic, deadline, shorter);
        assert forall|i: int| 0 <= i < seeds.len() implies (#[trigger] seeds[i]).id < s.next_id by {
            if i < shorter.len() {
                assert(shorter[i].id < p.next_id);
            }
        }
        if s.next_id != p.next_id {
            assert(seeds[seeds.len() - 1].id + 1 == s.next_id);
        } else if s.next_id != 1 {
            let i = choose|i: int|
                0 <= i < shorter.len() && (#[trigger] shorter[i]).id + 1 == p.next_id;
            assert(seeds[i].id + 1 == s.next_id);
        }
    }
}

/// Nothing of the host, nor of what it says of a delivery, is left out of what
/// contracts say of it.
pub proof fn law_host_view_leaves_nothing_out(h: Host, intake: Intake)
    ensures
        h@.table == capability::grants_view(h.table@),
        h@.owner == h.policy.owner@,
        h@.topic == h.policy.topic@,
        h@.deadline == h.policy.deadline,
        h@.next_id == h.next_id,
        h@.seen == h.seen@,
        h@.killed == h.killed@,
        h@.engaged == h.engaged@,
        h@.echoes == h.dropped_echo,
        h@.blocked == h.dropped_emit,
        h@.duplicates == h.dropped_dup,
        h@.handled == h.task_done@,
        h@.accepted == message::wires_view(h.accepted@),
        h@.round == h.round,
        h@.produced == h.produced,
        h@.turn is Some <==> h.turn is Some,
        h.turn is Some ==> h@.turn->0 == h.turn->0,
        h@.inbox == message::messages_view(h.inbox@),
        h@.decided == h.decided,
        intake@ is Echo <==> intake is Echo,
        intake@ is Repeated <==> intake is Repeated,
        intake@ is Queued <==> intake is Queued,
        intake is Claim ==> intake@ == (IntakeView::Claim {
            task: intake->task@,
            key: intake->key@,
        }),
{
}

/// The counters have room as far as the machine's range goes.
pub proof fn law_room_is_the_machines(s: HostView, n: nat)
    ensures
        s.in_range() <==> s.next_id < 0x1_0000_0000_0000_0000 && s.echoes < 0x1_0000_0000
            && s.blocked < 0x1_0000_0000 && s.duplicates < 0x1_0000_0000 && s.produced
            < 0x1_0000_0000,
        s.room_for(n) <==> s.next_id + n < 0x1_0000_0000_0000_0000 && s.echoes + n < 0x1_0000_0000
            && s.blocked + n < 0x1_0000_0000 && s.duplicates + n < 0x1_0000_0000 && s.produced + n
            < 0x1_0000_0000,
{
}

/// Three messages of the maintainer are on the durable spine before the first
/// round: the request, the secret, and a task that both agents can see.
pub proof fn law_spine_starts_from_three_messages()
    ensures
        scenario::spine_seeds().len() == 3,
        scenario::spine_seeds()[0] == (WireView {
            id: 1,
            sender: "maintainer"@,
            channel: "build-coord"@,
            act: "request"@,
            payload: "ship v0.1?"@,
            sig: "human"@,
            hops: 3,
        }),
        scenario::spine_seeds()[1] == (WireView {
            id: 2,
            sender: "maintainer"@,
            channel: "secret-ops"@,
            act: "inform"@,
            payload: "SECRET: rotate signing keys"@,
            sig: "human"@,
            hops: 3,
        }),
        scenario::spine_seeds()[2] == (WireView {
            id: 3,
            sender: "maintainer"@,
            channel: "build-coord"@,
            act: "request"@,
            payload: "TASK#42: cut the release"@,
            sig: "human"@,
            hops: 1,
        }),
{
}

} // verus!
