//! What a run of the in-memory bus does, step by step and as a whole, in terms of
//! what the agent component is given and what it answers.

use vstd::prelude::*;
use vstd::utf8::*;

use crate::agent;
use crate::capability::GrantView;
use crate::message;
use crate::message::{Act, Message, MessageView};
use crate::number;
use crate::scenario;
use crate::simulation;
use crate::simulation::{Call, RunState, SimError, SimResult};
use crate::simulation_laws;

verus! {

/// Numbering changes the number of a message and nothing else: the `i`-th message
/// has the `i`-th number from `first` on, and otherwise says what it said.
pub proof fn law_numbering_changes_the_number_alone(out: Seq<MessageView>, first: nat, i: int)
    ensures
        simulation::stamped(out, first).len() == out.len(),
        0 <= i < out.len() ==> {
            let m = simulation::stamped(out, first)[i];
            &&& m.id == (first + i) as u64
            &&& m.sender == out[i].sender
            &&& m.channel == out[i].channel
            &&& m.act == out[i].act
            &&& m.payload == out[i].payload
            &&& m.sig == out[i].sig
            &&& m.hops == out[i].hops
        },
{
}

/// An agent looks through the log message by message. One on a channel that it was
/// not granted is counted as blocked; else one of its own is counted as an echo;
/// else one that is on record is passed over; and only else it is delivered,
/// behind what was delivered before, and goes on record.
pub proof fn law_look_goes_message_by_message(
    g: GrantView,
    log: Seq<MessageView>,
    m: MessageView,
    seen: Set<(Seq<char>, u64)>,
)
    ensures
        ({
            let none = simulation::screen(g, Seq::<MessageView>::empty(), seen);
            let p = simulation::screen(g, log, seen);
            let t = simulation::screen(g, log.push(m), seen);
            let granted = g.channels.contains(m.channel);
            let own = m.sender == g.agent;
            let known = p.seen.contains((g.agent, m.id));
            let delivered = granted && !own && !known;
            &&& none.inbox.len() == 0
            &&& none.seen == seen
            &&& none.off_scope == 0
            &&& none.echoes == 0
            &&& t.off_scope == p.off_scope + if granted {
                0int
            } else {
                1int
            }
            &&& t.echoes == p.echoes + if granted && own {
                1int
            } else {
                0int
            }
            &&& delivered ==> t.inbox == p.inbox.push(m)
            &&& !delivered ==> t.inbox == p.inbox
            &&& delivered ==> t.seen == p.seen.insert((g.agent, m.id))
            &&& !delivered ==> t.seen == p.seen
        }),
{
    assert(log.push(m).drop_last() =~= log);
    assert(log.push(m).last() == m);
}

/// The turn of an agent: it looks through the log as it was when the round
/// started, and the component is called if and only if something is delivered,
/// once, in the agent's name and with what is delivered. What the component
/// answers is put behind what was said in the round, numbered on, and is otherwise
/// as it was answered.
pub proof fn law_turn_is_a_look_and_an_answer(
    answers: spec_fn(Call) -> Seq<MessageView>,
    table: Seq<GrantView>,
    s: RunState,
    k: nat,
)
    ensures
        ({
            let l = simulation::screen(table[k as int], s.log, s.seen);
            let call = Call { round: s.round, agent: k, me: table[k as int].agent, inbox: l.inbox };
            let out = answers(call);
            let looked = simulation::after_look(table, s, k);
            let t = simulation::after_turn(answers, table, s, k);
            &&& simulation::look(table, s, k) == l
            &&& simulation::call_of(table, s, k) == call
            &&& t.seen == l.seen
            &&& t.off_scope == s.off_scope + l.off_scope
            &&& t.echoes == s.echoes + l.echoes
            &&& looked == (RunState {
                seen: t.seen,
                off_scope: t.off_scope,
                echoes: t.echoes,
                calls: t.calls,
                ..s
            })
            &&& l.inbox.len() == 0 ==> t.calls == s.calls && t == looked
            &&& l.inbox.len() > 0 ==> {
                &&& t.calls == s.calls.push(call)
                &&& t.next_id == s.next_id + out.len()
                &&& t.fresh.len() == s.fresh.len() + out.len()
                &&& t.fresh.take(s.fresh.len() as int) == s.fresh
                &&& forall|i: int|
                    0 <= i < out.len() ==> {
                        let m = t.fresh[s.fresh.len() + i];
                        &&& m.id == (s.next_id + i) as u64
                        &&& m.sender == (#[trigger] out[i]).sender
                        &&& m.channel == out[i].channel
                        &&& m.act == out[i].act
                        &&& m.payload == out[i].payload
                        &&& m.sig == out[i].sig
                        &&& m.hops == out[i].hops
                    }
                &&& t == (RunState { next_id: t.next_id, fresh: t.fresh, ..looked })
            }
        }),
{
    let l = simulation::screen(table[k as int], s.log, s.seen);
    let t = simulation::after_turn(answers, table, s, k);
    if l.inbox.len() > 0 {
        assert(t.fresh.take(s.fresh.len() as int) =~= s.fresh);
    }
}

/// What an answer adds, whoever gave it and whatever it is.
pub proof fn law_answer_is_recorded_as_given(s: RunState, out: Seq<MessageView>)
    ensures
        ({
            let t = simulation::after_answer(s, out);
            &&& t.next_id == s.next_id + out.len()
            &&& t.fresh.len() == s.fresh.len() + out.len()
            &&& t.fresh.take(s.fresh.len() as int) == s.fresh
            &&& forall|i: int|
                0 <= i < out.len() ==> {
                    let m = t.fresh[s.fresh.len() + i];
                    &&& m.id == (s.next_id + i) as u64
                    &&& m.sender == (#[trigger] out[i]).sender
                    &&& m.channel == out[i].channel
                    &&& m.act == out[i].act
                    &&& m.payload == out[i].payload
                    &&& m.sig == out[i].sig
                    &&& m.hops == out[i].hops
                }
            &&& t == (RunState { next_id: t.next_id, fresh: t.fresh, ..s })
        }),
{
    assert(simulation::after_answer(s, out).fresh.take(s.fresh.len() as int) =~= s.fresh);
}

/// A round in which something was said is put on the log and on record, all of it
/// and in order, and the next round begins; one in which nothing was said ends the
/// run. A round is the turns of all agents of the table, in its order.
pub proof fn law_round_is_put_on_record(
    answers: spec_fn(Call) -> Seq<MessageView>,
    table: Seq<GrantView>,
    seeds: Seq<MessageView>,
    next_id: nat,
    n: nat,
    s: RunState,
    k: nat,
)
    ensures
        s.fresh.len() == 0 ==> simulation::after_round(s) == (RunState {
            converged: Some(s.round),
            ..s
        }),
        s.fresh.len() > 0 ==> simulation::after_round(s) == (RunState {
            log: s.log + s.fresh,
            accepted: s.accepted + s.fresh,
            rounds: s.rounds.push(s.fresh),
            fresh: Seq::empty(),
            round: s.round + 1,
            ..s
        }),
        simulation::after_turns(answers, table, s, 0) == s,
        simulation::after_turns(answers, table, s, k + 1) == simulation::after_turn(
            answers,
            table,
            simulation::after_turns(answers, table, s, k),
            k,
        ),
        ({
            let p = simulation::run_with(answers, table, seeds, next_id, n);
            let t = simulation::run_with(answers, table, seeds, next_id, n + 1);
            &&& p.converged is Some ==> t == p
            &&& p.converged is None ==> t == simulation::after_round(
                simulation::after_turns(answers, table, p, table.len()),
            )
        }),
        ({
            let start = simulation::run_with(answers, table, seeds, next_id, 0);
            &&& start.log == seeds
            &&& start.seen == Set::<(Seq<char>, u64)>::empty()
            &&& start.next_id == next_id
            &&& start.off_scope == 0
            &&& start.echoes == 0
            &&& start.accepted.len() == 0
            &&& start.rounds.len() == 0
            &&& start.converged is None
            &&& start.round == 0
            &&& start.fresh.len() == 0
            &&& start.calls.len() == 0
        }),
{
}

/// What the answers to the calls of a round are, call by call.
proof fn lemma_said_in_is_flat(
    answers: spec_fn(Call) -> Seq<MessageView>,
    calls: Seq<Call>,
    r: nat,
)
    ensures
        simulation_laws::said_in(answers, calls, r) == calls.filter(
            |c: Call| c.round == r,
        ).map_values(answers).flatten(),
    decreases calls.len(),
{
    let in_round = |c: Call| c.round == r;
    reveal(Seq::filter);
    if calls.len() == 0 {
        assert(calls.filter(in_round).map_values(answers) =~= Seq::empty());
    } else {
        let before = calls.drop_last();
        lemma_said_in_is_flat(answers, before, r);
        if calls.last().round == r {
            let kept = before.filter(in_round);
            assert(kept.push(calls.last()).map_values(answers) =~= kept.map_values(answers).push(
                answers(calls.last()),
            ));
            kept.map_values(answers).lemma_flatten_push(answers(calls.last()));
        }
    }
}

/// What is passed to an agent is what its calls pass, call by call.
proof fn lemma_passed_to_is_flat(calls: Seq<Call>, a: nat)
    ensures
        simulation_laws::passed_to(calls, a) == calls.filter(|c: Call| c.agent == a).map_values(
            |c: Call| c.inbox,
        ).flatten(),
    decreases calls.len(),
{
    let of_agent = |c: Call| c.agent == a;
    let inbox = |c: Call| c.inbox;
    reveal(Seq::filter);
    if calls.len() == 0 {
        assert(calls.filter(of_agent).map_values(inbox) =~= Seq::empty());
    } else {
        let before = calls.drop_last();
        lemma_passed_to_is_flat(before, a);
        if calls.last().agent == a {
            let kept = before.filter(of_agent);
            assert(kept.push(calls.last()).map_values(inbox) =~= kept.map_values(inbox).push(
                calls.last().inbox,
            ));
            kept.map_values(inbox).lemma_flatten_push(calls.last().inbox);
        }
    }
}

/// The record of a round is what the component answered in that round: the same
/// number of messages, in the order in which they were answered, and each with the
/// sender, channel, act, payload, signature and hops that the component gave it.
/// Only the number is the host's, and follows on those of the rounds before.
pub proof fn law_record_keeps_what_was_answered(
    answers: spec_fn(Call) -> Seq<MessageView>,
    table: Seq<GrantView>,
    seeds: Seq<MessageView>,
    next_id: nat,
    n: nat,
    r: nat,
)
    requires
        r < simulation::run_with(answers, table, seeds, next_id, n).rounds.len(),
    ensures
        ({
            let s = simulation::run_with(answers, table, seeds, next_id, n);
            let said = s.calls.filter(|c: Call| c.round == r).map_values(answers).flatten();
            let round = s.rounds[r as int];
            &&& round.len() == said.len()
            &&& forall|i: int|
                0 <= i < round.len() ==> {
                    let m = #[trigger] round[i];
                    &&& m.id == (next_id + s.rounds.take(r as int).flatten().len() + i) as u64
                    &&& m.sender == said[i].sender
                    &&& m.channel == said[i].channel
                    &&& m.act == said[i].act
                    &&& m.payload == said[i].payload
                    &&& m.sig == said[i].sig
                    &&& m.hops == said[i].hops
                }
        }),
{
    let s = simulation::run_with(answers, table, seeds, next_id, n);
    simulation_laws::law_record_is_what_was_answered(answers, table, seeds, next_id, n);
    lemma_said_in_is_flat(answers, s.calls, r);
}

/// A run ends early only when nothing is left to say: in the round in which it
/// converged, the component answered no call with anything.
pub proof fn law_silence_ends_the_run(
    answers: spec_fn(Call) -> Seq<MessageView>,
    table: Seq<GrantView>,
    seeds: Seq<MessageView>,
    next_id: nat,
    n: nat,
    r: nat,
)
    requires
        simulation::run_with(answers, table, seeds, next_id, n).converged == Some(r),
    ensures
        simulation::run_with(answers, table, seeds, next_id, n).calls.filter(
            |c: Call| c.round == r,
        ).map_values(answers).flatten().len() == 0,
    decreases n,
{
    let p = simulation::run_with(answers, table, seeds, next_id, (n - 1) as nat);
    if p.converged is Some {
        law_silence_ends_the_run(answers, table, seeds, next_id, (n - 1) as nat, r);
    } else {
        let t = simulation::after_turns(answers, table, p, table.len());
        simulation_laws::law_rounds_are_counted(answers, table, seeds, next_id, (n - 1) as nat);
        simulation_laws::lemma_turns_keep(answers, table, p, table.len());
        simulation_laws::lemma_round_says(answers, table, seeds, next_id, (n - 1) as nat);
        lemma_said_in_is_flat(answers, t.calls, p.round);
        assert(t.fresh.len() == 0);
    }
}

/// By the end of each round, what the calls for an agent have passed, one after
/// the other, is the log as it was when the round started, in its order, without
/// the messages on channels that the agent was not granted and without its own.
pub proof fn law_calls_pass_the_log_in_order(
    answers: spec_fn(Call) -> Seq<MessageView>,
    table: Seq<GrantView>,
    seeds: Seq<MessageView>,
    next_id: nat,
    n: nat,
    a: nat,
)
    requires
        forall|x: int, y: int|
            0 <= x < y < table.len() ==> (#[trigger] table[x]).agent != (#[trigger] table[y]).agent,
        forall|i: int, j: int|
            0 <= i < j < seeds.len() ==> (#[trigger] seeds[i]).id != (#[trigger] seeds[j]).id,
        forall|i: int| 0 <= i < seeds.len() ==> (#[trigger] seeds[i]).id < next_id,
        a < table.len(),
        simulation::run_with(answers, table, seeds, next_id, n).converged is None,
        simulation::run_with(answers, table, seeds, next_id, n + 1).next_id <= u64::MAX,
    ensures
        ({
            let g = table[a as int];
            let s = simulation::run_with(answers, table, seeds, next_id, n);
            let t = simulation::run_with(answers, table, seeds, next_id, n + 1);
            &&& t.calls.filter(|c: Call| c.agent == a).map_values(|c: Call| c.inbox).flatten()
                == s.log.filter(
                |m: MessageView| g.channels.contains(m.channel) && m.sender != g.agent,
            )
            &&& forall|i: int, j: int|
                0 <= i < j < s.log.len() ==> (#[trigger] s.log[i]).id != (#[trigger] s.log[j]).id
        }),
{
    let g = table[a as int];
    let t = simulation::run_with(answers, table, seeds, next_id, n + 1);
    simulation_laws::law_all_is_passed_once_in_order(answers, table, seeds, next_id, n, a);
    lemma_passed_to_is_flat(t.calls, a);
    let audible = |m: MessageView| simulation_laws::audible(g, m);
    let raw = |m: MessageView| g.channels.contains(m.channel) && m.sender != g.agent;
    assert(audible =~= raw);
}

/// Every call is in the name of an agent of the table, with one message at least,
/// and with nothing but messages of others that were on the log when the round
/// started, on channels that the agent was granted.
pub proof fn law_calls_stay_in_scope(
    answers: spec_fn(Call) -> Seq<MessageView>,
    table: Seq<GrantView>,
    seeds: Seq<MessageView>,
    next_id: nat,
    n: nat,
    c: int,
)
    requires
        0 <= c < simulation::run_with(answers, table, seeds, next_id, n).calls.len(),
    ensures
        ({
            let call = simulation::run_with(answers, table, seeds, next_id, n).calls[c];
            let log = simulation::run_with(answers, table, seeds, next_id, call.round).log;
            let g = table[call.agent as int];
            &&& call.round < n
            &&& call.agent < table.len()
            &&& call.me == g.agent
            &&& call.inbox.len() > 0
            &&& forall|j: int|
                0 <= j < call.inbox.len() ==> {
                    let m = #[trigger] call.inbox[j];
                    &&& g.channels.contains(m.channel)
                    &&& m.sender != g.agent
                    &&& log.contains(m)
                }
        }),
{
    simulation_laws::law_calls_are_scoped(answers, table, seeds, next_id, n, c);
}

/// What one round adds to the two counters: for each agent, the messages of the
/// log on channels that it was not granted, and its own messages on those that it
/// was granted.
proof fn lemma_turns_withhold(
    answers: spec_fn(Call) -> Seq<MessageView>,
    table: Seq<GrantView>,
    s: RunState,
    k: nat,
)
    requires
        k <= table.len(),
    ensures
        ({
            let t = simulation::after_turns(answers, table, s, k);
            &&& t.log == s.log
            &&& t.off_scope == table.take(k as int).fold_left(
                s.off_scope as int,
                |sum: int, g: GrantView|
                    sum + s.log.filter(|m: MessageView| !g.channels.contains(m.channel)).len(),
            )
            &&& t.echoes == table.take(k as int).fold_left(
                s.echoes as int,
                |sum: int, g: GrantView|
                    sum + s.log.filter(
                        |m: MessageView| g.channels.contains(m.channel) && m.sender == g.agent,
                    ).len(),
            )
        }),
    decreases k,
{
    if k > 0 {
        lemma_turns_withhold(answers, table, s, (k - 1) as nat);
        let p = simulation::after_turns(answers, table, s, (k - 1) as nat);
        let g = table[k - 1];
        simulation_laws::law_withheld_are_counted(g, p.log, p.seen);
        assert(table.take(k as int).drop_last() =~= table.take(k - 1));
        assert(table.take(k as int).last() == g);
        let off = |m: MessageView| !g.channels.contains(m.channel);
        let off2 = |m: MessageView| !g.allows(m.channel);
        assert(off =~= off2);
        let own = |m: MessageView| g.channels.contains(m.channel) && m.sender == g.agent;
        let own2 = |m: MessageView| g.allows(m.channel) && m.sender == g.agent;
        assert(own =~= own2);
    }
}

/// Everything that is withheld is counted, in every round anew: for each agent of
/// the table, the messages of the log on channels that it was not granted, and its
/// own messages on those that it was granted.
pub proof fn law_each_round_counts_what_it_withholds(
    answers: spec_fn(Call) -> Seq<MessageView>,
    table: Seq<GrantView>,
    seeds: Seq<MessageView>,
    next_id: nat,
    n: nat,
)
    requires
        simulation::run_with(answers, table, seeds, next_id, n).converged is None,
    ensures
        ({
            let s = simulation::run_with(answers, table, seeds, next_id, n);
            let t = simulation::run_with(answers, table, seeds, next_id, n + 1);
            &&& t.off_scope == table.fold_left(
                s.off_scope as int,
                |sum: int, g: GrantView|
                    sum + s.log.filter(|m: MessageView| !g.channels.contains(m.channel)).len(),
            )
            &&& t.echoes == table.fold_left(
                s.echoes as int,
                |sum: int, g: GrantView|
                    sum + s.log.filter(
                        |m: MessageView| g.channels.contains(m.channel) && m.sender == g.agent,
                    ).len(),
            )
        }),
{
    let s = simulation::run_with(answers, table, seeds, next_id, n);
    lemma_turns_withhold(answers, table, s, table.len());
    assert(table.take(table.len() as int) =~= table);
}

/// The outcome of a run reports the run, all of it: both counters, every accepted
/// message and every round in its order, and the round of convergence.
pub proof fn law_outcome_reports_the_run(result: SimResult, s: RunState)
    requires
        result.reports(s),
    ensures
        result.dropped_caps == s.off_scope,
        result.dropped_echo == s.echoes,
        result.accepted@.len() == s.accepted.len(),
        forall|i: int|
            0 <= i < s.accepted.len() ==> (#[trigger] result.accepted@[i])@ == s.accepted[i],
        result.converged_round is Some <==> s.converged is Some,
        result.converged_round is Some ==> result.converged_round->0 == s.converged->0,
        result.rounds@.len() == s.rounds.len(),
        forall|r: int|
            0 <= r < s.rounds.len() ==> (#[trigger] result.rounds@[r])@.len() == s.rounds[r].len(),
        forall|r: int, i: int|
            0 <= r < s.rounds.len() && 0 <= i < s.rounds[r].len() ==> (
            #[trigger] result.rounds@[r]@[i])@ == s.rounds[r][i],
{
    assert forall|i: int| 0 <= i < s.accepted.len() implies (#[trigger] result.accepted@[i])@
        == s.accepted[i] by {
        assert(message::messages_view(result.accepted@)[i] == result.accepted@[i]@);
    }
    assert forall|r: int| 0 <= r < s.rounds.len() implies message::messages_view(
        (#[trigger] result.rounds@[r])@,
    ) == s.rounds[r] by {
        assert(simulation::rounds_view(result.rounds@)[r] == s.rounds[r]);
    }
    assert forall|r: int, i: int|
        0 <= r < s.rounds.len() && 0 <= i < s.rounds[r].len() implies (
    #[trigger] result.rounds@[r]@[i])@ == s.rounds[r][i] by {
        let round = result.rounds@[r]@;
        assert(message::messages_view(round) == s.rounds[r]);
        assert(message::messages_view(round)[i] == round[i]@);
    }
}

/// The counters of a run have room as far as the machine's range goes.
pub proof fn law_run_counts_to_the_machines_range(s: RunState)
    ensures
        simulation::in_range(s) <==> s.off_scope < 0x1_0000_0000 && s.echoes < 0x1_0000_0000
            && s.next_id < 0x1_0000_0000_0000_0000,
{
}

/// What comes of a run is explained by what the component did. An outcome is that
/// of the run with the answers that the component gave, to every call of it. An
/// error is one that the component gave to a call, all calls before which it
/// answered. And a run that could not be counted is one whose counters, after all
/// answers that the component gave, would leave the machine's range.
pub proof fn law_result_comes_from_the_component<
    E,
    F: Fn(String, Vec<Message>) -> Result<Vec<Message>, E>,
>(
    agent: F,
    table: Seq<GrantView>,
    seeds: Seq<MessageView>,
    next_id: nat,
    n: nat,
    out: Result<SimResult, SimError<E>>,
) -> (found: (spec_fn(Call) -> Seq<MessageView>, nat, nat))
    requires
        simulation::explains(agent, table, seeds, next_id, n, out),
    ensures
        ({
            let (answers, r, k) = found;
            let whole = simulation::run_with(answers, table, seeds, next_id, n);
            let s = simulation::after_turns(
                answers,
                table,
                simulation::run_with(answers, table, seeds, next_id, r),
                k,
            );
            &&& out is Ok ==> simulation::all_answered(agent, whole.calls, answers)
            &&& out is Err ==> simulation::all_answered(agent, s.calls, answers)
            &&& out is Ok ==> out->Ok_0.reports(whole)
            &&& out is Err ==> {
                &&& r < n
                &&& k < table.len()
                &&& simulation::run_with(answers, table, seeds, next_id, r).converged is None
            }
            &&& out is Err && out->Err_0 is Component ==> {
                let l = simulation::screen(table[k as int], s.log, s.seen);
                &&& l.inbox.len() > 0
                &&& exists|me: String, inbox: Vec<Message>|
                    {
                        &&& me@ == table[k as int].agent
                        &&& message::messages_view(inbox@) == l.inbox
                        &&& #[trigger] call_ensures(
                            agent,
                            (me, inbox),
                            Err::<Vec<Message>, E>(out->Err_0->Component_0),
                        )
                    }
            }
            &&& out is Err && out->Err_0 is Counters ==> {
                let t = simulation::after_turn(answers, table, s, k);
                ||| t.off_scope > 0xffff_ffff
                ||| t.echoes > 0xffff_ffff
                ||| t.next_id > 0xffff_ffff_ffff_ffff
            }
        }),
{
    match out {
        Ok(result) => {
            let answers = choose|answers: spec_fn(Call) -> Seq<MessageView>| #[trigger]
                simulation::completes(agent, answers, table, seeds, next_id, n, result);
            (answers, 0, 0)
        },
        Err(SimError::Component(e)) => {
            let (answers, r, k) = choose|
                answers: spec_fn(Call) -> Seq<MessageView>,
                r: nat,
                k: nat,
            | #[trigger] simulation::fails_at(agent, answers, table, seeds, next_id, n, r, k, e);
            let s = simulation::run_at(answers, table, seeds, next_id, r, k);
            assert(simulation::may_fail(agent, simulation::call_of(table, s, k), e));
            (answers, r, k)
        },
        Err(SimError::Counters) => {
            let (answers, r, k) = choose|
                answers: spec_fn(Call) -> Seq<MessageView>,
                r: nat,
                k: nat,
            | #[trigger]
                simulation::overflows_at(agent, answers, table, seeds, next_id, n, r, k);
            let s = simulation::run_at(answers, table, seeds, next_id, r, k);
            (answers, r, k)
        },
    }
}

/// To have answered all calls is to have answered each of them, in the name and
/// with the inbox that it was made with, by what `answers` has for it.
pub proof fn law_answers_are_the_components<
    E,
    F: Fn(String, Vec<Message>) -> Result<Vec<Message>, E>,
>(
    agent: F,
    calls: Seq<Call>,
    answers: spec_fn(Call) -> Seq<MessageView>,
    c: int,
)
    requires
        simulation::all_answered(agent, calls, answers),
        0 <= c < calls.len(),
    ensures
        exists|me: String, inbox: Vec<Message>, said: Vec<Message>|
            {
                &&& me@ == calls[c].me
                &&& message::messages_view(inbox@) == calls[c].inbox
                &&& message::messages_view(said@) == answers(calls[c])
                &&& #[trigger] call_ensures(agent, (me, inbox), Ok::<Vec<Message>, E>(said))
            },
{
    assert(simulation::may_answer(agent, calls[c], answers(calls[c])));
}

/// A component that never fails, and answers every inbox as the library's own agent
/// does, counts as answering as that agent; one that answers no call counts as
/// failing every call; and a call that is due is in scope.
pub proof fn law_components_are_judged_by_their_answers<
    E,
    F: Fn(String, Vec<Message>) -> Result<Vec<Message>, E>,
>(
    agent: F,
    table: Seq<GrantView>,
    seeds: Seq<MessageView>,
    next_id: nat,
    n: nat,
    me: Seq<char>,
    inbox: Seq<MessageView>,
)
    ensures
        (forall|me: String, inbox: Vec<Message>, answered: Result<Vec<Message>, E>|
            #[trigger] call_ensures(agent, (me, inbox), answered) ==> {
                &&& answered is Ok
                &&& message::messages_view(answered->Ok_0@) == agent::replies(
                    me@,
                    message::messages_view(inbox@),
                )
            }) ==> simulation::answers_as_own(agent),
        (forall|me: String, inbox: Vec<Message>, answered: Result<Vec<Message>, E>|
            #[trigger] call_ensures(agent, (me, inbox), answered) ==> answered is Err)
            ==> simulation::always_fails(agent),
        simulation::is_due(agent, table, seeds, next_id, n, me, inbox) ==> inbox.len() > 0 && exists|
            a: int,
        |
            {
                &&& 0 <= a < table.len()
                &&& (#[trigger] table[a]).agent == me
                &&& forall|j: int|
                    0 <= j < inbox.len() ==> table[a].channels.contains((#[trigger] inbox[j]).channel)
                        && inbox[j].sender != me
            },
{
}

/// In a run with the library's own agent, every accepted message is an answer to an
/// earlier message of the log, and is signed: it quotes that message, stays on its
/// channel and has one hop less, and its signature is that of its sender over its
/// whole payload.
pub proof fn law_every_fact_is_signed(
    table: Seq<GrantView>,
    seeds: Seq<MessageView>,
    next_id: nat,
    n: nat,
    i: int,
)
    requires
        0 <= i < simulation::run(table, seeds, next_id, n).accepted.len(),
    ensures
        ({
            let s = simulation::run(table, seeds, next_id, n);
            let m = s.accepted[i];
            &&& m.sig == "sigil-stub:"@ + m.sender + ":"@ + number::hex16(
                agent::fnv1a_bytes(encode_utf8(m.payload)),
            )
            &&& m.act == Act::Inform
            &&& exists|j: int|
                {
                    &&& 0 <= j < seeds.len() + i
                    &&& (#[trigger] s.log[j]).sender != m.sender
                    &&& m.channel == s.log[j].channel
                    &&& m.payload == "ack["@ + m.sender + "] <- "@ + s.log[j].payload
                    &&& m.hops + 1 == s.log[j].hops
                }
        }),
    decreases n,
{
    let own = simulation::own_answers();
    let s = simulation::run(table, seeds, next_id, n);
    let p = simulation::run(table, seeds, next_id, (n - 1) as nat);
    simulation_laws::law_record_is_what_was_answered(own, table, seeds, next_id, n);
    simulation_laws::law_record_is_what_was_answered(own, table, seeds, next_id, (n - 1) as nat);
    if i < p.accepted.len() {
        law_every_fact_is_signed(table, seeds, next_id, (n - 1) as nat, i);
        let m = p.accepted[i];
        let j = choose|j: int|
            {
                &&& 0 <= j < seeds.len() + i
                &&& (#[trigger] p.log[j]).sender != m.sender
                &&& m.channel == p.log[j].channel
                &&& m.payload == "ack["@ + m.sender + "] <- "@ + p.log[j].payload
                &&& m.hops + 1 == p.log[j].hops
            };
        simulation_laws::lemma_turns_keep(own, table, p, table.len());
        assert(s.accepted[i] == m);
        assert(s.log[j] == p.log[j]);
    } else {
        simulation_laws::law_rounds_are_counted(own, table, seeds, next_id, (n - 1) as nat);
        simulation_laws::lemma_turns_keep(own, table, p, table.len());
        let t = simulation::after_turns(own, table, p, table.len());
        let o = i - p.accepted.len();
        lemma_turns_sign(table, p, table.len(), o);
        let m = t.fresh[o];
        assert(s.accepted[i] == m);
        let j = choose|j: int|
            {
                &&& 0 <= j < p.log.len()
                &&& (#[trigger] p.log[j]).sender != m.sender
                &&& m.channel == p.log[j].channel
                &&& m.payload == "ack["@ + m.sender + "] <- "@ + p.log[j].payload
                &&& m.hops + 1 == p.log[j].hops
            };
        assert(s.log[j] == p.log[j]);
        assert(p.log.len() == seeds.len() + p.accepted.len());
    }
}

proof fn lemma_turns_sign(table: Seq<GrantView>, s: RunState, k: nat, o: int)
    requires
        k <= table.len(),
        s.fresh.len() == 0,
        0 <= o < simulation::after_turns(simulation::own_answers(), table, s, k).fresh.len(),
    ensures
        ({
            let m = simulation::after_turns(simulation::own_answers(), table, s, k).fresh[o];
            &&& m.sig == "sigil-stub:"@ + m.sender + ":"@ + number::hex16(
                agent::fnv1a_bytes(encode_utf8(m.payload)),
            )
            &&& m.act == Act::Inform
            &&& exists|j: int|
                {
                    &&& 0 <= j < s.log.len()
                    &&& (#[trigger] s.log[j]).sender != m.sender
                    &&& m.channel == s.log[j].channel
                    &&& m.payload == "ack["@ + m.sender + "] <- "@ + s.log[j].payload
                    &&& m.hops + 1 == s.log[j].hops
                }
        }),
    decreases k,
{
    if k > 0 {
        let own = simulation::own_answers();
        let p = simulation::after_turns(own, table, s, (k - 1) as nat);
        let t = simulation::after_turns(own, table, s, k);
        simulation_laws::lemma_turns_keep(own, table, s, (k - 1) as nat);
        if o < p.fresh.len() {
            lemma_turns_sign(table, s, (k - 1) as nat, o);
            assert(t.fresh[o] == p.fresh[o]);
        } else {
            let g = table[k - 1];
            let inbox = simulation::screen(g, p.log, p.seen).inbox;
            let out = agent::replies(g.agent, inbox);
            let x = o - p.fresh.len();
            simulation_laws::law_delivery_is_scoped_and_once(g, p.log, p.seen);
            assert(t.fresh[o] == simulation::stamped(out, p.next_id)[x]);
            agent::law_answers_lose_a_hop(g.agent, inbox, x);
            let y = choose|y: int|
                0 <= y < inbox.len() && agent::is_live(#[trigger] inbox[y]) && out[x]
                    == agent::reply(g.agent, inbox[y]) && out[x].hops + 1 == inbox[y].hops;
            let j = choose|j: int| 0 <= j < s.log.len() && s.log[j] == inbox[y];
            assert(s.log[j].sender != t.fresh[o].sender);
        }
    }
}

/// The in-memory run starts from two messages of the maintainer: a request on the
/// channel that both agents may use, and a secret on one that none may use.
pub proof fn law_scenario_starts_from_two_messages()
    ensures
        scenario::secret_channel() == "secret-ops"@,
        scenario::simulation_seeds().len() == 2,
        scenario::simulation_seeds()[0] == (MessageView {
            id: 1,
            sender: "maintainer"@,
            channel: "build-coord"@,
            act: Act::Request,
            payload: "ship v0.1?"@,
            sig: "human"@,
            hops: 3,
        }),
        scenario::simulation_seeds()[1] == (MessageView {
            id: 2,
            sender: "maintainer"@,
            channel: "secret-ops"@,
            act: Act::Inform,
            payload: "SECRET: rotate signing keys"@,
            sig: "human"@,
            hops: 3,
        }),
{
}

/// A run starts from its seeds, with nothing delivered, counted, said or called.
pub proof fn law_run_starts_from_its_seeds(seeds: Seq<MessageView>, next_id: nat)
    ensures
        ({
            let s = simulation::run_start(seeds, next_id);
            &&& s.log == seeds
            &&& s.seen == Set::<(Seq<char>, u64)>::empty()
            &&& s.next_id == next_id
            &&& s.off_scope == 0
            &&& s.echoes == 0
            &&& s.accepted.len() == 0
            &&& s.rounds.len() == 0
            &&& s.converged is None
            &&& s.round == 0
            &&& s.fresh.len() == 0
            &&& s.calls.len() == 0
        }),
{
}

/// A call that is due is one that the run comes to: the turn of an agent, all calls
/// before which the component answered, and what is delivered in that turn.
pub proof fn law_due_calls_are_of_the_run<
    E,
    F: Fn(String, Vec<Message>) -> Result<Vec<Message>, E>,
>(
    agent: F,
    table: Seq<GrantView>,
    seeds: Seq<MessageView>,
    next_id: nat,
    n: nat,
    me: Seq<char>,
    inbox: Seq<MessageView>,
) -> (found: (spec_fn(Call) -> Seq<MessageView>, nat, nat))
    requires
        simulation::is_due(agent, table, seeds, next_id, n, me, inbox),
    ensures
        ({
            let (answers, r, k) = found;
            let p = simulation::run_with(answers, table, seeds, next_id, r);
            let s = simulation::after_turns(answers, table, p, k);
            &&& r < n
            &&& k < table.len()
            &&& p.converged is None
            &&& simulation::all_answered(agent, s.calls, answers)
            &&& me == table[k as int].agent
            &&& inbox == simulation::screen(table[k as int], s.log, s.seen).inbox
        }),
{
    choose|answers: spec_fn(Call) -> Seq<MessageView>, r: nat, k: nat| #[trigger]
        simulation::due_at(agent, answers, table, seeds, next_id, n, r, k, me, inbox)
}

} // verus!
