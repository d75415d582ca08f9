//! What the host guarantees in every state that it can reach, whatever the
//! stream delivers, the lease store answers and the agents say.

use vstd::prelude::*;

use crate::agent;
use crate::capability;
use crate::capability::GrantView;
use crate::channel;
use crate::envelope;
use crate::host;
use crate::host::HostView;
use crate::lease;
use crate::message;
use crate::message::{MessageView, WireView};

verus! {

/// One step of the host.
pub enum Step {
    /// An operator halts the agent of that name.
    Halt(Seq<char>),
    /// An agent's turn begins, if it may have one.
    Begin(nat),
    /// The stream delivers a message.
    Receive(WireView),
    /// The lease store has answered the claim on a task.
    Settle(Seq<char>, bool),
    /// The inbox is handed to the agent.
    HandOver,
    /// The agent says something.
    Emit(Seq<MessageView>),
    /// The agent's turn ends.
    EndTurn,
    /// The round ends.
    EndRound,
}

/// Whether a step can be taken.
pub open spec fn enabled(s: HostView, step: Step) -> bool {
    &&& !s.decided
    &&& after(s, step).in_range()
    &&& match step {
        Step::Halt(_) => s.turn is None,
        Step::Begin(agent) => s.turn is None && agent < s.table.len(),
        Step::Receive(_) => s.in_turn(),
        Step::Settle(_, _) => s.in_turn(),
        Step::HandOver => s.in_turn(),
        Step::Emit(_) => s.in_turn(),
        Step::EndTurn => s.in_turn(),
        Step::EndRound => s.turn is None,
    }
}

/// The state after a step.
pub open spec fn after(s: HostView, step: Step) -> HostView {
    match step {
        Step::Halt(name) => s.after_halt(Some(name)),
        Step::Begin(agent) => s.after_begin(agent),
        Step::Receive(w) => s.after_receive(w),
        Step::Settle(task, won) => s.after_settle(task, won),
        Step::HandOver => s.after_hand_over(),
        Step::Emit(out) => s.after_emit(out),
        Step::EndTurn => s.after_end_turn(),
        Step::EndRound => s.after_round(),
    }
}

/// The state after a sequence of steps.
pub open spec fn after_all(s: HostView, steps: Seq<Step>) -> HostView
    decreases steps.len(),
{
    if steps.len() == 0 {
        s
    } else {
        after(after_all(s, steps.drop_last()), steps.last())
    }
}

/// Whether every step of a sequence can be taken in its turn.
pub open spec fn all_enabled(s: HostView, steps: Seq<Step>) -> bool
    decreases steps.len(),
{
    steps.len() > 0 ==> all_enabled(s, steps.drop_last()) && enabled(
        after_all(s, steps.drop_last()),
        steps.last(),
    )
}

/// The number of accepted messages that are not the decision.
pub open spec fn said(s: HostView) -> int {
    s.accepted.len() - if s.decided {
        1int
    } else {
        0int
    }
}

/// Whether an agent of that name is in the table.
pub open spec fn in_table(table: Seq<GrantView>, name: Seq<char>) -> bool {
    exists|a: int| 0 <= a < table.len() && (#[trigger] table[a]).agent == name
}

/// Accepted messages are numbered consecutively, so that no identifier is used
/// twice.
pub open spec fn numbered(s: HostView) -> bool {
    &&& 0 <= said(s) <= s.next_id <= u64::MAX
    &&& forall|i: int|
        0 <= i < s.accepted.len() ==> (#[trigger] s.accepted[i]).id == s.next_id - said(s) + i
}

/// Every accepted message is on a safe channel.
pub open spec fn on_safe_channels(s: HostView) -> bool {
    forall|i: int|
        0 <= i < s.accepted.len() ==> channel::safe_channel((#[trigger] s.accepted[i]).channel)
}

/// All that was said before the decision was said by agents of the table, and
/// those that said something are the engaged ones.
pub open spec fn attributed(s: HostView) -> bool {
    &&& forall|i: int|
        0 <= i < said(s) ==> in_table(s.table, (#[trigger] s.accepted[i]).sender)
            && s.engaged.contains(s.accepted[i].sender)
    &&& forall|name: Seq<char>| #[trigger]
        s.engaged.contains(name) ==> exists|i: int|
            0 <= i < said(s) && (#[trigger] s.accepted[i]).sender == name
}

/// The agent whose turn it is was not halted, and what is queued for it is from
/// others and on record as delivered.
pub open spec fn turn_is_fair(s: HostView) -> bool {
    match s.turn {
        None => s.inbox.len() == 0,
        Some(_) => {
            &&& s.in_turn()
            &&& !s.killed.contains(s.me())
            &&& forall|i: int|
                0 <= i < s.inbox.len() ==> (#[trigger] s.inbox[i]).sender != s.me()
                    && s.seen.contains((s.me(), s.inbox[i].id))
        },
    }
}

/// Every task in the log of handled tasks was announced by the agent that it
/// names.
pub open spec fn tasks_announced(s: HostView) -> bool {
    forall|task: Seq<char>| #[trigger]
        s.handled.dom().contains(task) ==> exists|i: int|
            0 <= i < said(s) && (#[trigger] s.accepted[i]).payload == "HANDLED "@ + task
                && s.accepted[i].sender == s.handled[task]
}

/// Deliberation is within the deadline, and a decision closes the record.
pub open spec fn bounded(s: HostView) -> bool {
    &&& s.round == 0 || s.round < s.deadline
    &&& s.decided ==> s.accepted.len() > 0 && s.accepted.last() == s.decision_wire()
}

/// What holds in every state that the host can reach.
pub open spec fn sound(s: HostView) -> bool {
    &&& numbered(s)
    &&& on_safe_channels(s)
    &&& attributed(s)
    &&& turn_is_fair(s)
    &&& tasks_announced(s)
    &&& bounded(s)
}

/// The coordination channel is safe.
pub proof fn lemma_coordination_channel_is_safe()
    ensures
        channel::safe_channel(capability::coordination_channel()),
{
    reveal_strlit("build-coord");
}

/// The host starts in a sound state.
pub proof fn law_start_is_sound(
    table: Seq<GrantView>,
    owner: Seq<char>,
    topic: Seq<char>,
    deadline: nat,
    seeds: Seq<WireView>,
)
    requires
        forall|i: int| 0 <= i < seeds.len() ==> (#[trigger] seeds[i]).id < u64::MAX,
    ensures
        sound(host::host_start(table, owner, topic, deadline, seeds)),
        forall|i: int|
            0 <= i < seeds.len() ==> (#[trigger] seeds[i]).id < host::host_start(
                table,
                owner,
                topic,
                deadline,
                seeds,
            ).next_id,
{
    lemma_id_after(seeds);
}

/// The first identifier of the host comes after those of all seeds.
proof fn lemma_id_after(seeds: Seq<WireView>)
    requires
        forall|i: int| 0 <= i < seeds.len() ==> (#[trigger] seeds[i]).id < u64::MAX,
    ensures
        1 <= host::id_after(seeds) <= u64::MAX,
        forall|i: int| 0 <= i < seeds.len() ==> (#[trigger] seeds[i]).id < host::id_after(seeds),
    decreases seeds.len(),
{
    if seeds.len() > 0 {
        let shorter = seeds.drop_last();
        assert forall|i: int| 0 <= i < shorter.len() implies (#[trigger] shorter[i]).id
            < u64::MAX by {
            assert(shorter[i] == seeds[i]);
        }
        lemma_id_after(shorter);
        assert(seeds[seeds.len() - 1].id < u64::MAX);
        assert forall|i: int| 0 <= i < seeds.len() implies (#[trigger] seeds[i]).id
            < host::id_after(seeds) by {
            if i < shorter.len() {
                assert(shorter[i] == seeds[i]);
            }
        }
    }
}

/// Everything that an agent gets published carries the agent's own name and is
/// on a safe channel that the agent was granted.
pub proof fn law_emissions_are_scoped(s: HostView, out: Seq<MessageView>, i: int)
    requires
        0 <= i < s.outgoing(out).len(),
    ensures
        s.outgoing(out)[i].sender == s.me(),
        channel::safe_channel(s.outgoing(out)[i].channel),
        s.grant().allows(s.outgoing(out)[i].channel),
        s.outgoing(out).len() == s.passing(out).len() <= out.len(),
{
    let may = |m: MessageView| s.may_emit(m);
    out.lemma_filter_pred(may, i);
    out.lemma_filter_len(may);
}

/// Accepting messages of the agent whose turn it is keeps the host sound.
proof fn lemma_accepting_is_sound(s: HostView, t: HostView, wires: Seq<WireView>)
    requires
        sound(s),
        !s.decided,
        s.in_turn(),
        s.next_id + wires.len() <= u64::MAX,
        forall|i: int|
            0 <= i < wires.len() ==> {
                let w = #[trigger] wires[i];
                &&& w.sender == s.me()
                &&& w.id == s.next_id + i
                &&& channel::safe_channel(w.channel)
            },
        t.accepted == s.accepted + wires,
        t.next_id == s.next_id + wires.len(),
        t.engaged == if wires.len() > 0 {
            s.engaged.insert(s.me())
        } else {
            s.engaged
        },
        !t.decided,
        t.table == s.table,
        t.turn == s.turn,
        t.inbox == s.inbox,
        t.killed == s.killed,
        t.seen == s.seen,
        t.round == s.round,
        t.deadline == s.deadline,
        forall|task: Seq<char>| #[trigger]
            t.handled.dom().contains(task) ==> (s.handled.dom().contains(task) && s.handled[task]
                == t.handled[task]) || (exists|i: int|
                0 <= i < wires.len() && (#[trigger] wires[i]).payload == "HANDLED "@ + task
                    && wires[i].sender == t.handled[task]),
    ensures
        sound(t),
{
    let n = s.accepted.len() as int;
    assert(in_table(s.table, s.me())) by {
        assert(s.table[s.turn->0 as int].agent == s.me());
    }
    assert forall|i: int| 0 <= i < t.accepted.len() implies {
        let w = #[trigger] t.accepted[i];
        &&& w.id == t.next_id - said(t) + i
        &&& channel::safe_channel(w.channel)
        &&& in_table(t.table, w.sender)
        &&& t.engaged.contains(w.sender)
    } by {
        if i < n {
            assert(t.accepted[i] == s.accepted[i]);
        } else {
            assert(t.accepted[i] == wires[i - n]);
        }
    }
    assert forall|name: Seq<char>| #[trigger] t.engaged.contains(name) implies exists|i: int|
        0 <= i < said(t) && (#[trigger] t.accepted[i]).sender == name by {
        if s.engaged.contains(name) {
            let i = choose|i: int| 0 <= i < said(s) && (#[trigger] s.accepted[i]).sender == name;
            assert(t.accepted[i].sender == name);
        } else {
            assert(t.accepted[n] == wires[0]);
        }
    }
    assert forall|task: Seq<char>| #[trigger] t.handled.dom().contains(task) implies exists|i: int|
        0 <= i < said(t) && (#[trigger] t.accepted[i]).payload == "HANDLED "@ + task
            && t.accepted[i].sender == t.handled[task] by {
        if s.handled.dom().contains(task) && s.handled[task] == t.handled[task] {
            let i = choose|i: int|
                0 <= i < said(s) && (#[trigger] s.accepted[i]).payload == "HANDLED "@ + task
                    && s.accepted[i].sender == s.handled[task];
            assert(t.accepted[i] == s.accepted[i]);
        } else {
            let i = choose|i: int|
                0 <= i < wires.len() && (#[trigger] wires[i]).payload == "HANDLED "@ + task
                    && wires[i].sender == t.handled[task];
            assert(t.accepted[n + i] == wires[i]);
        }
    }
}

/// Every step keeps the host sound.
pub proof fn law_steps_keep_soundness(s: HostView, step: Step)
    requires
        sound(s),
        enabled(s, step),
    ensures
        sound(after(s, step)),
{
    let t = after(s, step);
    lemma_coordination_channel_is_safe();
    match step {
        Step::Settle(task, won) => {
            if won {
                let w = s.handled_wire(task);
                assert(s.accepted.push(w) =~= s.accepted + seq![w]);
                assert(seq![w][0] == w);
                lemma_accepting_is_sound(s, t, seq![w]);
            } else {
                lemma_same_record(s, t);
            }
        },
        Step::Emit(out) => {
            let wires = s.outgoing(out);
            out.lemma_filter_len(|m: MessageView| s.may_emit(m));
            assert forall|i: int| 0 <= i < wires.len() implies {
                let w = #[trigger] wires[i];
                &&& w.sender == s.me()
                &&& w.id == s.next_id + i
                &&& channel::safe_channel(w.channel)
            } by {
                law_emissions_are_scoped(s, out, i);
            }
            lemma_accepting_is_sound(s, t, wires);
        },
        Step::EndRound => {
            if s.must_decide() {
                assert(said(t) == said(s));
                assert forall|i: int| 0 <= i < said(t) implies #[trigger] t.accepted[i]
                    == s.accepted[i] by {}
                assert(t.accepted.last() == t.decision_wire());
                assert(attributed(t)) by {
                    assert forall|name: Seq<char>| #[trigger]
                        t.engaged.contains(name) implies exists|i: int|
                        0 <= i < said(t) && (#[trigger] t.accepted[i]).sender == name by {
                        let i = choose|i: int|
                            0 <= i < said(s) && (#[trigger] s.accepted[i]).sender == name;
                        assert(t.accepted[i].sender == name);
                    }
                }
                assert(tasks_announced(t)) by {
                    assert forall|task: Seq<char>| #[trigger]
                        t.handled.dom().contains(task) implies exists|i: int|
                        0 <= i < said(t) && (#[trigger] t.accepted[i]).payload == "HANDLED "@
                            + task && t.accepted[i].sender == t.handled[task] by {
                        let i = choose|i: int|
                            0 <= i < said(s) && (#[trigger] s.accepted[i]).payload
                                == "HANDLED "@ + task && s.accepted[i].sender == s.handled[task];
                        assert(t.accepted[i] == s.accepted[i]);
                    }
                }
            } else {
                lemma_same_record(s, t);
            }
        },
        Step::Receive(w) => {
            assert(turn_is_fair(t)) by {
                assert forall|i: int| 0 <= i < t.inbox.len() implies (
                #[trigger] t.inbox[i]).sender != t.me() && t.seen.contains(
                    (t.me(), t.inbox[i].id),
                ) by {
                    if i < s.inbox.len() {
                        assert(t.inbox[i] == s.inbox[i]);
                    }
                }
            }
            lemma_same_record(s, t);
        },
        _ => {
            lemma_same_record(s, t);
        },
    }
}

/// A step that leaves the record as it is keeps what is said of the record.
proof fn lemma_same_record(s: HostView, t: HostView)
    requires
        sound(s),
        !s.decided,
        t.accepted == s.accepted,
        t.next_id == s.next_id,
        t.engaged == s.engaged,
        t.handled == s.handled,
        t.table == s.table,
        t.decided == s.decided,
    ensures
        numbered(t),
        on_safe_channels(t),
        attributed(t),
        tasks_announced(t),
{
    assert(said(t) == said(s));
    assert forall|name: Seq<char>| #[trigger] t.engaged.contains(name) implies exists|i: int|
        0 <= i < said(t) && (#[trigger] t.accepted[i]).sender == name by {
        assert(s.engaged.contains(name));
    }
    assert forall|task: Seq<char>| #[trigger] t.handled.dom().contains(task) implies exists|i: int|
        0 <= i < said(t) && (#[trigger] t.accepted[i]).payload == "HANDLED "@ + task
            && t.accepted[i].sender == t.handled[task] by {
        assert(s.handled.dom().contains(task));
    }
}

/// The host is sound in every state that it can reach.
pub proof fn law_host_is_always_sound(s: HostView, steps: Seq<Step>)
    requires
        sound(s),
        all_enabled(s, steps),
    ensures
        sound(after_all(s, steps)),
    decreases steps.len(),
{
    if steps.len() > 0 {
        law_host_is_always_sound(s, steps.drop_last());
        law_steps_keep_soundness(after_all(s, steps.drop_last()), steps.last());
    }
}

/// The name that an agent gives itself, and the identifier that it puts on a
/// message, make no difference to what is published.
pub proof fn law_claimed_identity_is_ignored(
    s: HostView,
    out: Seq<MessageView>,
    claimed: Seq<MessageView>,
)
    requires
        out.len() == claimed.len(),
        forall|i: int|
            0 <= i < out.len() ==> #[trigger] claimed[i] == (MessageView {
                id: claimed[i].id,
                sender: claimed[i].sender,
                ..out[i]
            }),
    ensures
        s.outgoing(claimed) == s.outgoing(out),
        s.after_emit(claimed) == s.after_emit(out),
    decreases out.len(),
{
    let may = |m: MessageView| s.may_emit(m);
    if out.len() > 0 {
        let short_out = out.drop_last();
        let short_claimed = claimed.drop_last();
        assert forall|i: int| 0 <= i < short_out.len() implies #[trigger] short_claimed[i] == (
        MessageView {
            id: short_claimed[i].id,
            sender: short_claimed[i].sender,
            ..short_out[i]
        }) by {
            assert(short_claimed[i] == claimed[i] && short_out[i] == out[i]);
        }
        law_claimed_identity_is_ignored(s, short_out, short_claimed);
        let n = out.len() - 1;
        assert(claimed[n] == (MessageView {
            id: claimed[n].id,
            sender: claimed[n].sender,
            ..out[n]
        }));
        assert(out =~= short_out.push(out[n]));
        assert(claimed =~= short_claimed.push(claimed[n]));
        short_out.lemma_filter_push(out[n], may);
        short_claimed.lemma_filter_push(claimed[n], may);
        let a = s.outgoing(out);
        let b = s.outgoing(claimed);
        let a0 = s.outgoing(short_out);
        let b0 = s.outgoing(short_claimed);
        assert(a0.len() == b0.len());
        assert(a.len() == b.len());
        assert forall|i: int| 0 <= i < a.len() implies #[trigger] a[i] == b[i] by {
            if i < a0.len() {
                assert(a[i] == a0[i] && b[i] == b0[i]);
            }
        }
        assert(a =~= b);
    } else {
        assert(out =~= claimed);
    }
}

/// What is published reads back as what was said: the message that the wire
/// carries is the agent's own, but for the identifier and the sender, which are
/// the host's.
pub proof fn law_publication_reads_back(s: HostView, out: Seq<MessageView>, i: int)
    requires
        0 <= i < s.outgoing(out).len(),
    ensures
        message::message_of(s.outgoing(out)[i]) == (MessageView {
            id: (s.next_id + i) as u64,
            sender: s.me(),
            ..s.passing(out)[i]
        }),
{
    message::law_act_round_trip(s.passing(out)[i].act);
}

/// An agent's own message is kept from it, whatever its channel, its payload and
/// its identifier, and leaves nothing behind but the count.
pub proof fn law_self_echo_is_unconditional(s: HostView, w: WireView)
    requires
        w.sender == s.me(),
    ensures
        s.intake(w) is Echo,
        s.after_receive(w) == (HostView { echoes: s.echoes + 1, ..s }),
{
}

/// The host's own announcements end an exchange: no agent answers them, and they
/// are not taken for tasks.
pub proof fn law_announcements_are_terminal(s: HostView, task: Seq<char>, me: Seq<char>)
    ensures
        agent::replies(me, seq![message::message_of(s.handled_wire(task))]).len() == 0,
        agent::replies(me, seq![message::message_of(s.decision_wire())]).len() == 0,
        lease::task_in(s.handled_wire(task).payload) is None,
        lease::task_in(s.decision_wire().payload) is None,
{
    reveal_strlit("TASK");
    reveal_strlit("HANDLED ");
    reveal_strlit("DECISION[");
    let none = Seq::<MessageView>::empty();
    let handled = message::message_of(s.handled_wire(task));
    let decided = message::message_of(s.decision_wire());
    none.lemma_filter_len(|m: MessageView| agent::is_live(m));
    assert(agent::replies(me, none).len() == 0);
    agent::lemma_replies_push(me, none, handled);
    agent::lemma_replies_push(me, none, decided);
    assert(none.push(handled) =~= seq![handled]);
    assert(none.push(decided) =~= seq![decided]);
    assert("TASK"@[0] == 'T');
    let h = s.handled_wire(task).payload;
    let d = s.decision_wire().payload;
    assert(h[0] == 'H' && d[0] == 'D');
    assert(h.subrange(0, 4)[0] == h[0] && d.subrange(0, 4)[0] == d[0]);
}

/// What is recorded stays recorded: later steps only add to the accepted
/// messages, to the deliveries on record and to the halted agents.
pub proof fn law_record_only_grows(s: HostView, steps: Seq<Step>)
    requires
        all_enabled(s, steps),
    ensures
        s.accepted.is_prefix_of(after_all(s, steps).accepted),
        s.seen.subset_of(after_all(s, steps).seen),
        s.killed.subset_of(after_all(s, steps).killed),
        s.next_id <= after_all(s, steps).next_id,
        after_all(s, steps).table == s.table,
        after_all(s, steps).owner == s.owner,
        after_all(s, steps).topic == s.topic,
        after_all(s, steps).deadline == s.deadline,
    decreases steps.len(),
{
    if steps.len() > 0 {
        law_record_only_grows(s, steps.drop_last());
        let p = after_all(s, steps.drop_last());
        let t = after(p, steps.last());
        assert(p.accepted =~= t.accepted.subrange(0, p.accepted.len() as int));
        assert(s.accepted =~= t.accepted.subrange(0, s.accepted.len() as int)) by {
            assert(s.accepted =~= p.accepted.subrange(0, s.accepted.len() as int));
        }
    } else {
        assert(s.accepted =~= s.accepted.subrange(0, s.accepted.len() as int));
    }
}

/// A message that an agent has been given is never given to it again, in
/// whatever later turn and round the stream delivers it.
pub proof fn law_delivery_happens_once(s: HostView, w: WireView, steps: Seq<Step>, again: WireView)
    requires
        s.in_turn(),
        !(s.intake(w) is Echo),
        all_enabled(s.after_receive(w), steps),
        after_all(s.after_receive(w), steps).in_turn(),
        after_all(s.after_receive(w), steps).me() == s.me(),
        again.id == w.id,
    ensures
        ({
            let intake = after_all(s.after_receive(w), steps).intake(again);
            intake is Echo || intake is Repeated
        }),
{
    let t = s.after_receive(w);
    assert(t.seen.contains((s.me(), w.id)));
    law_record_only_grows(t, steps);
}

/// A halt cannot be ignored: from then on nothing is accepted under the name of
/// the halted agent, except the decision if it is the owner's to announce, and
/// no turn is ever its.
pub proof fn law_halted_agent_is_silent(s: HostView, steps: Seq<Step>, name: Seq<char>)
    requires
        sound(s),
        all_enabled(s, steps),
        s.killed.contains(name),
        !s.decided,
    ensures
        ({
            let t = after_all(s, steps);
            &&& t.killed.contains(name)
            &&& t.turn is Some ==> t.me() != name
            &&& forall|i: int|
                s.accepted.len() <= i < said(t) ==> (#[trigger] t.accepted[i]).sender != name
        }),
    decreases steps.len(),
{
    law_record_only_grows(s, steps);
    law_host_is_always_sound(s, steps);
    if steps.len() > 0 {
        let before = steps.drop_last();
        law_halted_agent_is_silent(s, before, name);
        law_host_is_always_sound(s, before);
        let p = after_all(s, before);
        let t = after(p, steps.last());
        assert forall|i: int| s.accepted.len() <= i < said(t) implies (
        #[trigger] t.accepted[i]).sender != name by {
            if i < p.accepted.len() {
                assert(t.accepted[i] == p.accepted[i]);
            } else {
                match steps.last() {
                    Step::Emit(out) => {
                        assert(t.accepted[i] == p.outgoing(out)[i - p.accepted.len()]);
                    },
                    _ => {},
                }
            }
        }
    }
}

/// A halt between turns keeps the host sound.
pub proof fn lemma_halt_keeps_soundness(s: HostView, name: Seq<char>)
    requires
        sound(s),
        !s.decided,
        s.turn is None,
    ensures
        sound(s.after_halt(Some(name))),
{
    lemma_same_record(s, s.after_halt(Some(name)));
}

/// Nothing that the host accepts is published into the control plane: an agent
/// cannot issue a halt.
pub proof fn law_control_plane_is_never_written(s: HostView, i: int)
    requires
        sound(s),
        0 <= i < s.accepted.len(),
    ensures
        !channel::selects(
            channel::subject_tokens(channel::control_filter()),
            channel::subject_tokens(envelope::subject_of(s.accepted[i])),
        ),
{
    channel::law_control_plane_is_out_of_band(s.accepted[i].channel);
}

/// The number of rounds that a sequence of steps ends.
pub open spec fn rounds_ended(steps: Seq<Step>) -> nat
    decreases steps.len(),
{
    if steps.len() == 0 {
        0
    } else {
        rounds_ended(steps.drop_last()) + if steps.last() is EndRound {
            1nat
        } else {
            0nat
        }
    }
}

/// Deliberation is bounded: no more rounds can end than the deadline allows (and
/// one always can), and when that many have ended the decision has been made.
pub proof fn law_deliberation_is_bounded(s: HostView, steps: Seq<Step>)
    requires
        sound(s),
        !s.decided,
        all_enabled(s, steps),
    ensures
        ({
            let limit = if s.deadline == 0 {
                1nat
            } else {
                s.deadline
            };
            &&& s.round + rounds_ended(steps) <= limit
            &&& s.round + rounds_ended(steps) == limit ==> after_all(s, steps).decided
            &&& after_all(s, steps).decided <==> after_all(s, steps).round + 1 == s.round
                + rounds_ended(steps)
        }),
    decreases steps.len(),
{
    lemma_rounds_are_counted(s, steps);
    law_host_is_always_sound(s, steps);
    law_record_only_grows(s, steps);
}

/// Whether no step is taken after the decision, nor after the round budget is
/// used up.
pub open spec fn within_budget(s: HostView, steps: Seq<Step>) -> bool {
    forall|i: int|
        0 <= i < steps.len() ==> (#[trigger] after_all(s, steps.take(i))).may_go_on()
}

/// A run has at most as many rounds as the round budget allows, whatever the
/// deadline is and whatever is said; and when that many have ended there is no
/// other round, whether or not the decision was made.
pub proof fn law_run_ends_within_budget(s: HostView, steps: Seq<Step>)
    requires
        s.round == 0,
        !s.decided,
        all_enabled(s, steps),
        within_budget(s, steps),
    ensures
        rounds_ended(steps) <= host::ROUND_BUDGET,
        rounds_ended(steps) == host::ROUND_BUDGET ==> !after_all(s, steps).may_go_on(),
{
    lemma_rounds_are_counted(s, steps);
    if steps.len() > 0 {
        let before = steps.drop_last();
        assert(steps.take(steps.len() - 1) =~= before);
        assert(after_all(s, steps.take(steps.len() - 1)).may_go_on());
        lemma_rounds_are_counted(s, before);
    }
}

proof fn lemma_rounds_are_counted(s: HostView, steps: Seq<Step>)
    requires
        !s.decided,
        all_enabled(s, steps),
    ensures
        s.round + rounds_ended(steps) == after_all(s, steps).round + if after_all(
            s,
            steps,
        ).decided {
            1int
        } else {
            0int
        },
    decreases steps.len(),
{
    if steps.len() > 0 {
        lemma_rounds_are_counted(s, steps.drop_last());
    }
}

/// Whether a sequence of steps grants the lease under `key`.
pub open spec fn grants_key(steps: Seq<Step>, key: Seq<char>) -> bool {
    exists|i: int|
        0 <= i < steps.len() && match #[trigger] steps[i] {
            Step::Settle(task, won) => won && lease::key_of(task) == key,
            _ => false,
        }
}

/// A task is handled once: as long as the lease store does not grant the task's
/// key again, the task stays with the agent that handled it.
pub proof fn law_task_stays_with_its_agent(s: HostView, steps: Seq<Step>, task: Seq<char>)
    requires
        s.handled.dom().contains(task),
        all_enabled(s, steps),
        !grants_key(steps, lease::key_of(task)),
    ensures
        after_all(s, steps).handled.dom().contains(task),
        after_all(s, steps).handled[task] == s.handled[task],
    decreases steps.len(),
{
    if steps.len() > 0 {
        let before = steps.drop_last();
        assert(!grants_key(before, lease::key_of(task))) by {
            if grants_key(before, lease::key_of(task)) {
                let i = choose|i: int|
                    0 <= i < before.len() && match #[trigger] before[i] {
                        Step::Settle(t, won) => won && lease::key_of(t) == lease::key_of(task),
                        _ => false,
                    };
                assert(steps[i] == before[i]);
            }
        }
        law_task_stays_with_its_agent(s, before, task);
        assert(steps[steps.len() - 1] == steps.last());
    }
}

} // verus!
