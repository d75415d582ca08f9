//! What the controls guarantee of every run of the in-memory bus, whatever the
//! agent component answers.

use vstd::prelude::*;

use crate::capability::GrantView;
use crate::message::MessageView;
use crate::simulation;
use crate::simulation::{Call, RunState};

verus! {

/// What is delivered to an agent comes from the log, on a channel that the agent
/// was granted, and from somebody else; it was not delivered before, no
/// identifier is delivered twice, and all of it goes on record.
pub proof fn law_delivery_is_scoped_and_once(
    g: GrantView,
    log: Seq<MessageView>,
    seen: Set<(Seq<char>, u64)>,
)
    ensures
        ({
            let s = simulation::screen(g, log, seen);
            &&& forall|i: int|
                0 <= i < s.inbox.len() ==> {
                    let m = #[trigger] s.inbox[i];
                    &&& log.contains(m)
                    &&& g.allows(m.channel)
                    &&& m.sender != g.agent
                    &&& !seen.contains((g.agent, m.id))
                    &&& s.seen.contains((g.agent, m.id))
                }
            &&& forall|i: int, j: int|
                0 <= i < j < s.inbox.len() ==> s.inbox[i].id != s.inbox[j].id
            &&& seen.subset_of(s.seen)
        }),
    decreases log.len(),
{
    if log.len() > 0 {
        let rest = log.drop_last();
        law_delivery_is_scoped_and_once(g, rest, seen);
        let p = simulation::screen(g, rest, seen);
        let s = simulation::screen(g, log, seen);
        assert(log.contains(log.last())) by {
            assert(log[log.len() - 1] == log.last());
        }
        assert forall|m: MessageView| rest.contains(m) implies log.contains(m) by {
            let i = choose|i: int| 0 <= i < rest.len() && rest[i] == m;
            assert(log[i] == m);
        }
        assert forall|i: int| 0 <= i < s.inbox.len() implies {
            let m = #[trigger] s.inbox[i];
            &&& log.contains(m)
            &&& g.allows(m.channel)
            &&& m.sender != g.agent
            &&& !seen.contains((g.agent, m.id))
            &&& s.seen.contains((g.agent, m.id))
        } by {
            if i < p.inbox.len() {
                assert(s.inbox[i] == p.inbox[i]);
            }
        }
        assert forall|i: int, j: int| 0 <= i < j < s.inbox.len() implies s.inbox[i].id
            != s.inbox[j].id by {
            assert(s.inbox[i] == p.inbox[i]);
            if j < p.inbox.len() {
                assert(s.inbox[j] == p.inbox[j]);
            }
        }
    }
}

/// After an agent has looked through a log, every message of the log that it
/// may hear and did not send is on record as delivered to it.
pub proof fn law_delivery_is_complete(
    g: GrantView,
    log: Seq<MessageView>,
    seen: Set<(Seq<char>, u64)>,
)
    ensures
        forall|i: int|
            0 <= i < log.len() && g.allows(log[i].channel) && log[i].sender != g.agent
                ==> simulation::screen(g, log, seen).seen.contains(
                (g.agent, (#[trigger] log[i]).id),
            ),
    decreases log.len(),
{
    if log.len() > 0 {
        let rest = log.drop_last();
        law_delivery_is_complete(g, rest, seen);
        assert forall|i: int|
            0 <= i < log.len() && g.allows(log[i].channel) && log[i].sender
                != g.agent implies simulation::screen(g, log, seen).seen.contains(
            (g.agent, (#[trigger] log[i]).id),
        ) by {
            if i < rest.len() {
                assert(rest[i] == log[i]);
            }
        }
    }
}

/// Every message on a channel that was not granted is counted as blocked, and
/// every message of the agent's own on a granted channel as an echo, whatever
/// was delivered before and on whichever channel.
pub proof fn law_withheld_are_counted(
    g: GrantView,
    log: Seq<MessageView>,
    seen: Set<(Seq<char>, u64)>,
)
    ensures
        simulation::screen(g, log, seen).off_scope == log.filter(
            |m: MessageView| !g.allows(m.channel),
        ).len(),
        simulation::screen(g, log, seen).echoes == log.filter(
            |m: MessageView| g.allows(m.channel) && m.sender == g.agent,
        ).len(),
    decreases log.len(),
{
    let off = |m: MessageView| !g.allows(m.channel);
    let own = |m: MessageView| g.allows(m.channel) && m.sender == g.agent;
    reveal(Seq::filter);
    if log.len() > 0 {
        law_withheld_are_counted(g, log.drop_last(), seen);
    }
}

/// The turns of a round leave the log and the rounds before it as they are.
pub proof fn lemma_turns_keep(
    answers: spec_fn(Call) -> Seq<MessageView>,
    table: Seq<GrantView>,
    s: RunState,
    k: nat,
)
    ensures
        ({
            let t = simulation::after_turns(answers, table, s, k);
            &&& t.log == s.log
            &&& t.accepted == s.accepted
            &&& t.rounds == s.rounds
            &&& t.round == s.round
            &&& t.converged == s.converged
        }),
    decreases k,
{
    if k > 0 {
        lemma_turns_keep(answers, table, s, (k - 1) as nat);
    }
}

/// Whether a call is made in the name of an agent of the table, with messages of
/// others on channels that the agent was granted, all of them from `log`, and
/// with one message at least.
pub open spec fn in_call_scope(table: Seq<GrantView>, log: Seq<MessageView>, call: Call) -> bool {
    &&& call.agent < table.len()
    &&& call.me == table[call.agent as int].agent
    &&& call.inbox.len() > 0
    &&& forall|j: int|
        0 <= j < call.inbox.len() ==> {
            let m = #[trigger] call.inbox[j];
            &&& table[call.agent as int].allows(m.channel)
            &&& m.sender != call.me
            &&& log.contains(m)
        }
}

/// The calls of a round are in scope.
proof fn lemma_turns_call_in_scope(
    answers: spec_fn(Call) -> Seq<MessageView>,
    table: Seq<GrantView>,
    s: RunState,
    k: nat,
)
    requires
        k <= table.len(),
    ensures
        ({
            let t = simulation::after_turns(answers, table, s, k);
            &&& s.calls.len() <= t.calls.len()
            &&& forall|c: int| 0 <= c < s.calls.len() ==> #[trigger] t.calls[c] == s.calls[c]
            &&& forall|c: int|
                s.calls.len() <= c < t.calls.len() ==> {
                    let call = #[trigger] t.calls[c];
                    &&& call.round == s.round
                    &&& call.agent < k
                    &&& in_call_scope(table, s.log, call)
                }
            &&& forall|c: int, d: int|
                s.calls.len() <= c < d < t.calls.len() ==> (#[trigger] t.calls[c]).agent < (
                #[trigger] t.calls[d]).agent
        }),
    decreases k,
{
    if k > 0 {
        lemma_turns_call_in_scope(answers, table, s, (k - 1) as nat);
        lemma_turns_keep(answers, table, s, (k - 1) as nat);
        let p = simulation::after_turns(answers, table, s, (k - 1) as nat);
        law_delivery_is_scoped_and_once(table[k - 1], p.log, p.seen);
    }
}

/// Every call of a run is made in the name of an agent of the table, and
/// never with an empty inbox. The inbox holds nothing but messages of others, on
/// channels that the agent was granted, that were on the log when the round of
/// the call started: what is said in a round reaches nobody before the next.
pub proof fn law_calls_are_scoped(
    answers: spec_fn(Call) -> Seq<MessageView>,
    table: Seq<GrantView>,
    seeds: Seq<MessageView>,
    next_id: nat,
    n: nat,
    c: int,
)
    requires
        0 <= c < simulation::run_with(answers, table, seeds, next_id, n).calls.len(),
    ensures
        ({
            let s = simulation::run_with(answers, table, seeds, next_id, n);
            let call = s.calls[c];
            &&& call.round < n
            &&& in_call_scope(
                table,
                simulation::run_with(answers, table, seeds, next_id, call.round).log,
                call,
            )
        }),
    decreases n,
{
    let p = simulation::run_with(answers, table, seeds, next_id, (n - 1) as nat);
    if p.converged is Some {
        law_calls_are_scoped(answers, table, seeds, next_id, (n - 1) as nat, c);
    } else {
        law_rounds_are_counted(answers, table, seeds, next_id, (n - 1) as nat);
        lemma_turns_call_in_scope(answers, table, p, table.len());
        if c < p.calls.len() {
            law_calls_are_scoped(answers, table, seeds, next_id, (n - 1) as nat, c);
        }
    }
}

/// The component is called round by round, and within a round for the agents in
/// the order of the table: at most once for each of them.
pub proof fn law_calls_come_in_order(
    answers: spec_fn(Call) -> Seq<MessageView>,
    table: Seq<GrantView>,
    seeds: Seq<MessageView>,
    next_id: nat,
    n: nat,
    c: int,
    d: int,
)
    requires
        0 <= c < d < simulation::run_with(answers, table, seeds, next_id, n).calls.len(),
    ensures
        ({
            let s = simulation::run_with(answers, table, seeds, next_id, n);
            ||| s.calls[c].round < s.calls[d].round
            ||| s.calls[c].round == s.calls[d].round && s.calls[c].agent < s.calls[d].agent
        }),
    decreases n,
{
    let p = simulation::run_with(answers, table, seeds, next_id, (n - 1) as nat);
    if p.converged is Some {
        law_calls_come_in_order(answers, table, seeds, next_id, (n - 1) as nat, c, d);
    } else {
        law_rounds_are_counted(answers, table, seeds, next_id, (n - 1) as nat);
        lemma_turns_call_in_scope(answers, table, p, table.len());
        if d < p.calls.len() {
            law_calls_come_in_order(answers, table, seeds, next_id, (n - 1) as nat, c, d);
        } else if c < p.calls.len() {
            law_calls_are_scoped(answers, table, seeds, next_id, (n - 1) as nat, c);
        }
    }
}

/// A run never has more rounds than it may have, and no round in which nothing
/// is said. It converges if and only if it stops short of that number, and then
/// in the round after the last one: whatever the component answers, and even if
/// it always does.
pub proof fn law_rounds_are_counted(
    answers: spec_fn(Call) -> Seq<MessageView>,
    table: Seq<GrantView>,
    seeds: Seq<MessageView>,
    next_id: nat,
    n: nat,
)
    ensures
        ({
            let s = simulation::run_with(answers, table, seeds, next_id, n);
            &&& s.round == s.rounds.len()
            &&& s.fresh.len() == 0
            &&& s.rounds.len() <= n
            &&& forall|r: int| 0 <= r < s.rounds.len() ==> (#[trigger] s.rounds[r]).len() > 0
            &&& forall|r: nat| s.converged == Some(r) <==> s.rounds.len() == r && r < n
            &&& s.converged is None <==> s.rounds.len() == n
        }),
    decreases n,
{
    if n > 0 {
        law_rounds_are_counted(answers, table, seeds, next_id, (n - 1) as nat);
        let p = simulation::run_with(answers, table, seeds, next_id, (n - 1) as nat);
        lemma_turns_keep(answers, table, p, table.len());
        let s = simulation::run_with(answers, table, seeds, next_id, n);
        if p.converged is None && s.converged is None {
            let fresh = simulation::after_turns(answers, table, p, table.len()).fresh;
            assert(s.rounds == p.rounds.push(fresh));
        }
        if s.converged is Some {
            assert(s.converged == Some(s.rounds.len()));
        }
    }
}

/// Whether no identifier was passed twice in the name of an agent, and all that
/// was passed is on record.
spec fn passed_once(s: RunState) -> bool {
    &&& forall|c: int, i: int|
        0 <= c < s.calls.len() && 0 <= i < s.calls[c].inbox.len() ==> s.seen.contains(
            (s.calls[c].me, (#[trigger] s.calls[c].inbox[i]).id),
        )
    &&& forall|c: int, i: int, j: int|
        0 <= c < s.calls.len() && 0 <= i < j < s.calls[c].inbox.len() ==> (
        #[trigger] s.calls[c].inbox[i]).id != (#[trigger] s.calls[c].inbox[j]).id
    &&& forall|c: int, d: int, i: int, j: int|
        0 <= c < d < s.calls.len() && s.calls[c].me == s.calls[d].me && 0 <= i
            < s.calls[c].inbox.len() && 0 <= j < s.calls[d].inbox.len() ==> (
        #[trigger] s.calls[c].inbox[i]).id != (#[trigger] s.calls[d].inbox[j]).id
}

/// A round passes nothing twice.
proof fn lemma_turns_pass_once(
    answers: spec_fn(Call) -> Seq<MessageView>,
    table: Seq<GrantView>,
    s: RunState,
    k: nat,
)
    requires
        passed_once(s),
    ensures
        passed_once(simulation::after_turns(answers, table, s, k)),
    decreases k,
{
    if k > 0 {
        lemma_turns_pass_once(answers, table, s, (k - 1) as nat);
        let p = simulation::after_turns(answers, table, s, (k - 1) as nat);
        let t = simulation::after_turns(answers, table, s, k);
        law_delivery_is_scoped_and_once(table[k - 1], p.log, p.seen);
        assert forall|c: int, i: int|
            0 <= c < t.calls.len() && 0 <= i < t.calls[c].inbox.len() implies t.seen.contains(
            (t.calls[c].me, (#[trigger] t.calls[c].inbox[i]).id),
        ) by {
            if c < p.calls.len() {
                assert(t.calls[c] == p.calls[c]);
                assert(p.seen.contains((p.calls[c].me, p.calls[c].inbox[i].id)));
            }
        }
        assert forall|c: int, i: int, j: int|
            0 <= c < t.calls.len() && 0 <= i < j < t.calls[c].inbox.len() implies (
        #[trigger] t.calls[c].inbox[i]).id != (#[trigger] t.calls[c].inbox[j]).id by {
            if c < p.calls.len() {
                assert(t.calls[c] == p.calls[c]);
            }
        }
        assert forall|c: int, d: int, i: int, j: int|
            0 <= c < d < t.calls.len() && t.calls[c].me == t.calls[d].me && 0 <= i
                < t.calls[c].inbox.len() && 0 <= j < t.calls[d].inbox.len() implies (
        #[trigger] t.calls[c].inbox[i]).id != (#[trigger] t.calls[d].inbox[j]).id by {
            assert(t.calls[c] == p.calls[c]);
            if d < p.calls.len() {
                assert(t.calls[d] == p.calls[d]);
            } else {
                assert(p.seen.contains((p.calls[c].me, p.calls[c].inbox[i].id)));
            }
        }
    }
}

/// A run passes nothing twice.
proof fn lemma_run_passes_once(
    answers: spec_fn(Call) -> Seq<MessageView>,
    table: Seq<GrantView>,
    seeds: Seq<MessageView>,
    next_id: nat,
    n: nat,
)
    ensures
        passed_once(simulation::run_with(answers, table, seeds, next_id, n)),
    decreases n,
{
    if n > 0 {
        lemma_run_passes_once(answers, table, seeds, next_id, (n - 1) as nat);
        let p = simulation::run_with(answers, table, seeds, next_id, (n - 1) as nat);
        lemma_turns_pass_once(answers, table, p, table.len());
        if p.converged is None {
            let t = simulation::after_turns(answers, table, p, table.len());
            let s = simulation::run_with(answers, table, seeds, next_id, n);
            assert(s.calls == t.calls && s.seen == t.seen);
        }
    }
}

/// Over all calls in the name of the same agent, no message identifier is passed
/// twice: neither in two calls nor twice in one.
pub proof fn law_nothing_is_passed_twice(
    answers: spec_fn(Call) -> Seq<MessageView>,
    table: Seq<GrantView>,
    seeds: Seq<MessageView>,
    next_id: nat,
    n: nat,
    c: int,
    i: int,
    d: int,
    j: int,
)
    requires
        ({
            let s = simulation::run_with(answers, table, seeds, next_id, n);
            &&& 0 <= c < s.calls.len()
            &&& 0 <= d < s.calls.len()
            &&& s.calls[c].me == s.calls[d].me
            &&& 0 <= i < s.calls[c].inbox.len()
            &&& 0 <= j < s.calls[d].inbox.len()
            &&& c != d || i != j
        }),
    ensures
        ({
            let s = simulation::run_with(answers, table, seeds, next_id, n);
            s.calls[c].inbox[i].id != s.calls[d].inbox[j].id
        }),
{
    lemma_run_passes_once(answers, table, seeds, next_id, n);
}

/// Whether the agent of grant `g` is to be given the message `m`.
pub open spec fn audible(g: GrantView, m: MessageView) -> bool {
    g.allows(m.channel) && m.sender != g.agent
}

/// All that was passed to an agent of the table, in the order of the calls.
pub open spec fn passed_to(calls: Seq<Call>, agent: nat) -> Seq<MessageView>
    decreases calls.len(),
{
    if calls.len() == 0 {
        seq![]
    } else if calls.last().agent == agent {
        passed_to(calls.drop_last(), agent) + calls.last().inbox
    } else {
        passed_to(calls.drop_last(), agent)
    }
}

/// Whether no two agents of the table have the same name.
pub open spec fn distinct_names(table: Seq<GrantView>) -> bool {
    forall|a: int, b: int|
        0 <= a < b < table.len() ==> (#[trigger] table[a]).agent != (#[trigger] table[b]).agent
}

/// Whether no two messages have the same identifier.
pub open spec fn distinct_ids(log: Seq<MessageView>) -> bool {
    forall|i: int, j: int|
        0 <= i < j < log.len() ==> (#[trigger] log[i]).id != (#[trigger] log[j]).id
}

/// Whether all identifiers are below `bound`.
pub open spec fn ids_below(log: Seq<MessageView>, bound: nat) -> bool {
    forall|i: int| 0 <= i < log.len() ==> (#[trigger] log[i]).id < bound
}

/// What is on record of other agents plays no part in an agent's look through
/// the log, and is not changed by it.
proof fn lemma_screen_is_own(
    g: GrantView,
    log: Seq<MessageView>,
    seen: Set<(Seq<char>, u64)>,
    other: Set<(Seq<char>, u64)>,
)
    requires
        forall|id: u64|
            #[trigger] seen.contains((g.agent, id)) <==> other.contains((g.agent, id)),
    ensures
        simulation::screen(g, log, seen).inbox == simulation::screen(g, log, other).inbox,
        forall|id: u64| #[trigger]
            simulation::screen(g, log, seen).seen.contains((g.agent, id))
                <==> simulation::screen(g, log, other).seen.contains((g.agent, id)),
        forall|e: (Seq<char>, u64)|
            e.0 != g.agent ==> (#[trigger] simulation::screen(g, log, seen).seen.contains(e)
                <==> seen.contains(e)),
    decreases log.len(),
{
    if log.len() > 0 {
        lemma_screen_is_own(g, log.drop_last(), seen, other);
    }
}

/// What an agent has been given after the turns of a round.
proof fn lemma_turns_pass(
    answers: spec_fn(Call) -> Seq<MessageView>,
    table: Seq<GrantView>,
    s: RunState,
    a: nat,
    k: nat,
)
    requires
        distinct_names(table),
        a < table.len(),
        k <= table.len(),
    ensures
        ({
            let g = table[a as int];
            let t = simulation::after_turns(answers, table, s, k);
            let look = simulation::screen(g, s.log, s.seen);
            &&& t.log == s.log
            &&& k <= a ==> passed_to(t.calls, a) == passed_to(s.calls, a)
            &&& k <= a ==> forall|id: u64| #[trigger]
                t.seen.contains((g.agent, id)) <==> s.seen.contains((g.agent, id))
            &&& k > a ==> passed_to(t.calls, a) == passed_to(s.calls, a) + look.inbox
            &&& k > a ==> forall|id: u64| #[trigger]
                t.seen.contains((g.agent, id)) <==> look.seen.contains((g.agent, id))
        }),
    decreases k,
{
    if k > 0 {
        lemma_turns_pass(answers, table, s, a, (k - 1) as nat);
        let p = simulation::after_turns(answers, table, s, (k - 1) as nat);
        let t = simulation::after_turns(answers, table, s, k);
        let g = table[k - 1];
        let look = simulation::screen(g, p.log, p.seen);
        if look.inbox.len() > 0 {
            assert(t.calls.drop_last() =~= p.calls);
        }
        if k - 1 == a {
            lemma_screen_is_own(g, s.log, p.seen, s.seen);
            if look.inbox.len() == 0 {
                assert(passed_to(s.calls, a) + look.inbox =~= passed_to(s.calls, a));
            }
        } else {
            lemma_screen_is_own(g, s.log, p.seen, p.seen);
            assert(table[a as int].agent != g.agent);
        }
    }
}

/// An agent that was given all it may hear of the start of a log, and nothing of
/// the rest, is given what it may hear of the rest.
proof fn lemma_screen_rest(
    g: GrantView,
    log: Seq<MessageView>,
    known: int,
    seen: Set<(Seq<char>, u64)>,
)
    requires
        0 <= known <= log.len(),
        distinct_ids(log),
        forall|i: int|
            0 <= i < known && audible(g, log[i]) ==> seen.contains(
                (g.agent, (#[trigger] log[i]).id),
            ),
        forall|i: int|
            known <= i < log.len() ==> !seen.contains((g.agent, (#[trigger] log[i]).id)),
    ensures
        simulation::screen(g, log, seen).inbox == log.skip(known).filter(
            |m: MessageView| audible(g, m),
        ),
        forall|id: u64| #[trigger]
            simulation::screen(g, log, seen).seen.contains((g.agent, id)) ==> seen.contains(
                (g.agent, id),
            ) || exists|i: int| 0 <= i < log.len() && (#[trigger] log[i]).id == id,
    decreases log.len(),
{
    let heard = |m: MessageView| audible(g, m);
    let s = simulation::screen(g, log, seen);
    reveal(Seq::filter);
    if log.len() == 0 {
        assert(log.skip(known) =~= Seq::empty());
    } else {
        let rest = log.drop_last();
        let m = log.last();
        let p = simulation::screen(g, rest, seen);
        if known == log.len() {
            lemma_screen_rest(g, rest, known - 1, seen);
            assert(log.skip(known) =~= Seq::empty());
            assert(rest.skip(known - 1) =~= Seq::empty());
            assert(audible(g, log[known - 1]) ==> seen.contains((g.agent, log[known - 1].id)));
            law_delivery_is_scoped_and_once(g, rest, seen);
        } else {
            lemma_screen_rest(g, rest, known, seen);
            assert(log.skip(known).drop_last() =~= rest.skip(known));
            assert(log.skip(known).last() == m);
            assert(!seen.contains((g.agent, log[log.len() - 1].id)));
            assert(!p.seen.contains((g.agent, m.id))) by {
                if p.seen.contains((g.agent, m.id)) {
                    let i = choose|i: int| 0 <= i < rest.len() && (#[trigger] rest[i]).id == m.id;
                    assert(log[i].id == log[log.len() - 1].id);
                }
            }
        }
        assert forall|id: u64| #[trigger] s.seen.contains((g.agent, id)) implies seen.contains(
            (g.agent, id),
        ) || exists|i: int| 0 <= i < log.len() && (#[trigger] log[i]).id == id by {
            if p.seen.contains((g.agent, id)) {
                if !seen.contains((g.agent, id)) {
                    let i = choose|i: int| 0 <= i < rest.len() && (#[trigger] rest[i]).id == id;
                    assert(log[i].id == id);
                }
            } else {
                assert(log[log.len() - 1].id == id);
            }
        }
    }
}

/// What is said in a round gets identifiers that nothing else has.
proof fn lemma_turns_number(
    answers: spec_fn(Call) -> Seq<MessageView>,
    table: Seq<GrantView>,
    s: RunState,
    k: nat,
)
    requires
        simulation::after_turns(answers, table, s, k).next_id <= u64::MAX,
        distinct_ids(s.log + s.fresh),
        ids_below(s.log + s.fresh, s.next_id),
    ensures
        ({
            let t = simulation::after_turns(answers, table, s, k);
            &&& t.log == s.log
            &&& distinct_ids(t.log + t.fresh)
            &&& ids_below(t.log + t.fresh, t.next_id)
        }),
    decreases k,
{
    if k > 0 {
        let p = simulation::after_turns(answers, table, s, (k - 1) as nat);
        let t = simulation::after_turns(answers, table, s, k);
        lemma_turns_number(answers, table, s, (k - 1) as nat);
        let before = p.log + p.fresh;
        let after = t.log + t.fresh;
        assert forall|i: int| 0 <= i < after.len() implies {
            let m = #[trigger] after[i];
            &&& i < before.len() ==> m == before[i]
            &&& i >= before.len() ==> m.id == p.next_id + (i - before.len())
        } by {
            if i >= before.len() {
                assert(after[i] == t.fresh[i - p.log.len()]);
            }
        }
    }
}

/// How a run stands when a round starts: the agent of grant `g` was given what it
/// may hear of the first `known` messages of the log, and nothing else; and no
/// two messages of the log have the same identifier.
spec fn caught_up(s: RunState, g: GrantView, a: nat, known: int) -> bool {
    &&& 0 <= known <= s.log.len()
    &&& s.fresh.len() == 0
    &&& distinct_ids(s.log)
    &&& ids_below(s.log, s.next_id)
    &&& passed_to(s.calls, a) == s.log.take(known).filter(|m: MessageView| audible(g, m))
    &&& forall|i: int|
        0 <= i < known && audible(g, s.log[i]) ==> s.seen.contains(
            (g.agent, (#[trigger] s.log[i]).id),
        )
    &&& forall|id: u64| #[trigger]
        s.seen.contains((g.agent, id)) ==> exists|i: int|
            0 <= i < known && (#[trigger] s.log[i]).id == id
}

/// In a round, an agent is given the rest of what it may hear.
proof fn lemma_round_catches_up(
    answers: spec_fn(Call) -> Seq<MessageView>,
    table: Seq<GrantView>,
    s: RunState,
    a: nat,
    known: int,
)
    requires
        distinct_names(table),
        a < table.len(),
        caught_up(s, table[a as int], a, known),
        simulation::after_turns(answers, table, s, table.len()).next_id <= u64::MAX,
    ensures
        ({
            let g = table[a as int];
            let t = simulation::after_turns(answers, table, s, table.len());
            &&& passed_to(t.calls, a) == s.log.filter(|m: MessageView| audible(g, m))
            &&& t.fresh.len() > 0 ==> caught_up(
                simulation::after_round(t),
                g,
                a,
                s.log.len() as int,
            )
        }),
{
    let g = table[a as int];
    let heard = |m: MessageView| audible(g, m);
    let look = simulation::screen(g, s.log, s.seen);
    let t = simulation::after_turns(answers, table, s, table.len());
    assert(s.log + s.fresh =~= s.log);
    lemma_turns_pass(answers, table, s, a, table.len());
    lemma_turns_number(answers, table, s, table.len());
    assert forall|i: int| known <= i < s.log.len() implies !s.seen.contains(
        (g.agent, (#[trigger] s.log[i]).id),
    ) by {
        if s.seen.contains((g.agent, s.log[i].id)) {
            let j = choose|j: int| 0 <= j < known && (#[trigger] s.log[j]).id == s.log[i].id;
            assert(s.log[j].id != s.log[i].id);
        }
    }
    lemma_screen_rest(g, s.log, known, s.seen);
    law_delivery_is_complete(g, s.log, s.seen);
    Seq::filter_distributes_over_add(s.log.take(known), s.log.skip(known), heard);
    assert(s.log.take(known) + s.log.skip(known) =~= s.log);
    if t.fresh.len() > 0 {
        let u = simulation::after_round(t);
        let n = s.log.len() as int;
        assert(u.log.take(n) =~= s.log);
        assert forall|i: int| 0 <= i < n && audible(g, u.log[i]) implies u.seen.contains(
            (g.agent, (#[trigger] u.log[i]).id),
        ) by {
            assert(u.log[i] == s.log[i]);
            assert(look.seen.contains((g.agent, s.log[i].id)));
        }
        assert forall|id: u64| #[trigger] u.seen.contains((g.agent, id)) implies exists|i: int|
            0 <= i < n && (#[trigger] u.log[i]).id == id by {
            assert(look.seen.contains((g.agent, id)));
            let i = choose|i: int| 0 <= i < s.log.len() && (#[trigger] s.log[i]).id == id;
            assert(u.log[i].id == id);
        }
    }
}

/// Identifiers only grow.
proof fn lemma_next_id_grows(
    answers: spec_fn(Call) -> Seq<MessageView>,
    table: Seq<GrantView>,
    seeds: Seq<MessageView>,
    next_id: nat,
    n: nat,
)
    ensures
        ({
            let s = simulation::run_with(answers, table, seeds, next_id, n);
            let t = simulation::run_with(answers, table, seeds, next_id, n + 1);
            &&& s.next_id <= t.next_id
            &&& s.converged is None ==> t.next_id == simulation::after_turns(
                answers,
                table,
                s,
                table.len(),
            ).next_id
        }),
{
    let s = simulation::run_with(answers, table, seeds, next_id, n);
    simulation::lemma_turns_count(answers, table, s, 0, table.len());
}

/// The length of the log when the round before round `n` started.
spec fn known_at(
    answers: spec_fn(Call) -> Seq<MessageView>,
    table: Seq<GrantView>,
    seeds: Seq<MessageView>,
    next_id: nat,
    n: nat,
) -> int {
    if n == 0 {
        0
    } else {
        simulation::run_with(answers, table, seeds, next_id, (n - 1) as nat).log.len() as int
    }
}

/// When a round starts, every agent was given what it may hear of the log as it
/// was when the round before started.
proof fn lemma_run_catches_up(
    answers: spec_fn(Call) -> Seq<MessageView>,
    table: Seq<GrantView>,
    seeds: Seq<MessageView>,
    next_id: nat,
    n: nat,
    a: nat,
)
    requires
        distinct_names(table),
        distinct_ids(seeds),
        ids_below(seeds, next_id),
        a < table.len(),
        ({
            let s = simulation::run_with(answers, table, seeds, next_id, n);
            s.converged is None && s.next_id <= u64::MAX
        }),
    ensures
        caught_up(
            simulation::run_with(answers, table, seeds, next_id, n),
            table[a as int],
            a,
            known_at(answers, table, seeds, next_id, n),
        ),
    decreases n,
{
    let g = table[a as int];
    if n == 0 {
        reveal(Seq::filter);
        assert(seeds.take(0) =~= Seq::empty());
    } else {
        let p = simulation::run_with(answers, table, seeds, next_id, (n - 1) as nat);
        lemma_next_id_grows(answers, table, seeds, next_id, (n - 1) as nat);
        lemma_run_catches_up(answers, table, seeds, next_id, (n - 1) as nat, a);
        lemma_round_catches_up(
            answers,
            table,
            p,
            a,
            known_at(answers, table, seeds, next_id, (n - 1) as nat),
        );
    }
}

/// By the end of each round, each agent has been passed, exactly once and in the
/// order of the log, every message that was on the log when the round started,
/// that is on a channel it was granted and that it did not send; and nothing
/// else. No two messages of the log have the same identifier.
pub proof fn law_all_is_passed_once_in_order(
    answers: spec_fn(Call) -> Seq<MessageView>,
    table: Seq<GrantView>,
    seeds: Seq<MessageView>,
    next_id: nat,
    n: nat,
    a: nat,
)
    requires
        distinct_names(table),
        distinct_ids(seeds),
        ids_below(seeds, next_id),
        a < table.len(),
        simulation::run_with(answers, table, seeds, next_id, n).converged is None,
        simulation::run_with(answers, table, seeds, next_id, n + 1).next_id <= u64::MAX,
    ensures
        ({
            let s = simulation::run_with(answers, table, seeds, next_id, n);
            let t = simulation::run_with(answers, table, seeds, next_id, n + 1);
            &&& passed_to(t.calls, a) == s.log.filter(
                |m: MessageView| audible(table[a as int], m),
            )
            &&& distinct_ids(s.log)
        }),
{
    let s = simulation::run_with(answers, table, seeds, next_id, n);
    lemma_next_id_grows(answers, table, seeds, next_id, n);
    lemma_run_catches_up(answers, table, seeds, next_id, n, a);
    lemma_round_catches_up(
        answers,
        table,
        s,
        a,
        known_at(answers, table, seeds, next_id, n),
    );
}

/// What the component answered to the calls of round `r`, in the order of the
/// calls.
pub open spec fn said_in(
    answers: spec_fn(Call) -> Seq<MessageView>,
    calls: Seq<Call>,
    r: nat,
) -> Seq<MessageView>
    decreases calls.len(),
{
    if calls.len() == 0 {
        seq![]
    } else if calls.last().round == r {
        said_in(answers, calls.drop_last(), r) + answers(calls.last())
    } else {
        said_in(answers, calls.drop_last(), r)
    }
}

/// In a round without calls nothing is answered.
proof fn lemma_said_in_none(
    answers: spec_fn(Call) -> Seq<MessageView>,
    calls: Seq<Call>,
    r: nat,
)
    requires
        forall|c: int| 0 <= c < calls.len() ==> (#[trigger] calls[c]).round != r,
    ensures
        said_in(answers, calls, r) == Seq::<MessageView>::empty(),
    decreases calls.len(),
{
    if calls.len() > 0 {
        assert(calls[calls.len() - 1].round != r);
        lemma_said_in_none(answers, calls.drop_last(), r);
    }
}

/// What a round adds to what was answered.
proof fn lemma_turns_say(
    answers: spec_fn(Call) -> Seq<MessageView>,
    table: Seq<GrantView>,
    s: RunState,
    k: nat,
)
    requires
        s.fresh.len() == 0,
        said_in(answers, s.calls, s.round).len() == 0,
    ensures
        ({
            let t = simulation::after_turns(answers, table, s, k);
            &&& t.round == s.round
            &&& t.fresh == simulation::stamped(said_in(answers, t.calls, s.round), s.next_id)
            &&& t.next_id == s.next_id + t.fresh.len()
            &&& forall|r: nat|
                r != s.round ==> #[trigger] said_in(answers, t.calls, r) == said_in(
                    answers,
                    s.calls,
                    r,
                )
        }),
    decreases k,
{
    let t = simulation::after_turns(answers, table, s, k);
    if k == 0 {
        assert(t.fresh =~= simulation::stamped(said_in(answers, t.calls, s.round), s.next_id));
    } else {
        lemma_turns_say(answers, table, s, (k - 1) as nat);
        let p = simulation::after_turns(answers, table, s, (k - 1) as nat);
        if simulation::look(table, p, (k - 1) as nat).inbox.len() > 0 {
            let call = simulation::call_of(table, p, (k - 1) as nat);
            assert(t.calls.drop_last() =~= p.calls);
            assert(t.calls.last() == call);
            assert(said_in(answers, t.calls, s.round) == said_in(answers, p.calls, s.round)
                + answers(call));
            assert(t.fresh =~= simulation::stamped(
                said_in(answers, t.calls, s.round),
                s.next_id,
            ));
            assert forall|r: nat| r != s.round implies #[trigger] said_in(answers, t.calls, r)
                == said_in(answers, s.calls, r) by {
                assert(said_in(answers, t.calls, r) == said_in(answers, p.calls, r));
            }
        }
    }
}

/// What a round adds to a run is what the component answers in it.
pub proof fn lemma_round_says(
    answers: spec_fn(Call) -> Seq<MessageView>,
    table: Seq<GrantView>,
    seeds: Seq<MessageView>,
    next_id: nat,
    n: nat,
)
    requires
        simulation::run_with(answers, table, seeds, next_id, n).converged is None,
    ensures
        ({
            let p = simulation::run_with(answers, table, seeds, next_id, n);
            let t = simulation::after_turns(answers, table, p, table.len());
            &&& t.fresh == simulation::stamped(said_in(answers, t.calls, p.round), p.next_id)
            &&& t.next_id == p.next_id + t.fresh.len()
        }),
{
    let p = simulation::run_with(answers, table, seeds, next_id, n);
    law_rounds_are_counted(answers, table, seeds, next_id, n);
    assert forall|c: int| 0 <= c < p.calls.len() implies (#[trigger] p.calls[c]).round
        != p.round by {
        law_calls_are_scoped(answers, table, seeds, next_id, n, c);
    }
    lemma_said_in_none(answers, p.calls, p.round);
    lemma_turns_say(answers, table, p, table.len());
}

/// What a run records is what the component answered, and nothing else. The log
/// is the seeds followed by the accepted messages, which are those of the rounds
/// in order; and those of a round are the answers to its calls, in the order of
/// the calls. They carry consecutive identifiers from `next_id` on, whatever
/// identifiers the component gave them, and are otherwise as it gave them.
pub proof fn law_record_is_what_was_answered(
    answers: spec_fn(Call) -> Seq<MessageView>,
    table: Seq<GrantView>,
    seeds: Seq<MessageView>,
    next_id: nat,
    n: nat,
)
    ensures
        ({
            let s = simulation::run_with(answers, table, seeds, next_id, n);
            &&& s.log == seeds + s.accepted
            &&& s.accepted == s.rounds.flatten()
            &&& s.next_id == next_id + s.accepted.len()
            &&& forall|i: int|
                0 <= i < s.accepted.len() ==> (#[trigger] s.accepted[i]).id == (next_id
                    + i) as u64
            &&& forall|r: int|
                0 <= r < s.rounds.len() ==> #[trigger] s.rounds[r] == simulation::stamped(
                    said_in(answers, s.calls, r as nat),
                    next_id + s.rounds.take(r).flatten().len(),
                )
        }),
    decreases n,
{
    if n == 0 {
        assert(seeds + Seq::<MessageView>::empty() =~= seeds);
        assert(Seq::<Seq<MessageView>>::empty().flatten() =~= Seq::<MessageView>::empty());
    } else {
        law_record_is_what_was_answered(answers, table, seeds, next_id, (n - 1) as nat);
        law_rounds_are_counted(answers, table, seeds, next_id, (n - 1) as nat);
        let p = simulation::run_with(answers, table, seeds, next_id, (n - 1) as nat);
        let s = simulation::run_with(answers, table, seeds, next_id, n);
        if p.converged is None {
            assert forall|c: int| 0 <= c < p.calls.len() implies (#[trigger] p.calls[c]).round
                != p.round by {
                law_calls_are_scoped(answers, table, seeds, next_id, (n - 1) as nat, c);
            }
            lemma_said_in_none(answers, p.calls, p.round);
            lemma_turns_say(answers, table, p, table.len());
            lemma_turns_keep(answers, table, p, table.len());
            let t = simulation::after_turns(answers, table, p, table.len());
            if t.fresh.len() > 0 {
                assert(s.log =~= seeds + s.accepted);
                p.rounds.lemma_flatten_push(t.fresh);
                assert forall|i: int| 0 <= i < s.accepted.len() implies (
                #[trigger] s.accepted[i]).id == (next_id + i) as u64 by {
                    if i < p.accepted.len() {
                        assert(s.accepted[i] == p.accepted[i]);
                    } else {
                        assert(s.accepted[i] == t.fresh[i - p.accepted.len()]);
                    }
                }
            }
            assert forall|r: int| 0 <= r < s.rounds.len() implies #[trigger] s.rounds[r]
                == simulation::stamped(
                said_in(answers, s.calls, r as nat),
                next_id + s.rounds.take(r).flatten().len(),
            ) by {
                if r < p.rounds.len() {
                    assert(s.rounds[r] == p.rounds[r]);
                    assert(s.rounds.take(r) =~= p.rounds.take(r));
                    assert(said_in(answers, t.calls, r as nat) == said_in(
                        answers,
                        p.calls,
                        r as nat,
                    ));
                } else {
                    assert(s.rounds.take(r) =~= p.rounds);
                }
            }
        }
    }
}

/// The turns of a round only add to what is on record.
proof fn lemma_turns_record(
    answers: spec_fn(Call) -> Seq<MessageView>,
    table: Seq<GrantView>,
    s: RunState,
    k: nat,
)
    ensures
        s.seen.subset_of(simulation::after_turns(answers, table, s, k).seen),
    decreases k,
{
    if k > 0 {
        lemma_turns_record(answers, table, s, (k - 1) as nat);
        let p = simulation::after_turns(answers, table, s, (k - 1) as nat);
        law_delivery_is_scoped_and_once(table[k - 1], p.log, p.seen);
    }
}

/// A delivery stays on record for the rest of the run.
pub proof fn law_deliveries_stay_on_record(
    answers: spec_fn(Call) -> Seq<MessageView>,
    table: Seq<GrantView>,
    seeds: Seq<MessageView>,
    next_id: nat,
    n: nat,
    more: nat,
)
    requires
        n <= more,
    ensures
        simulation::run_with(answers, table, seeds, next_id, n).seen.subset_of(
            simulation::run_with(answers, table, seeds, next_id, more).seen,
        ),
    decreases more,
{
    if n < more {
        law_deliveries_stay_on_record(answers, table, seeds, next_id, n, (more - 1) as nat);
        let p = simulation::run_with(answers, table, seeds, next_id, (more - 1) as nat);
        lemma_turns_record(answers, table, p, table.len());
    }
}

} // verus!
