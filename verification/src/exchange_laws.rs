//! What holds of every exchange between the library's own agents on the
//! in-memory bus.

use vstd::prelude::*;

use crate::agent;
use crate::capability::GrantView;
use crate::message::{Act, MessageView};
use crate::simulation;
use crate::simulation::RunState;
use crate::simulation_laws;

verus! {

/// Whether the agent of grant `g` will not be given the message `m` any more.
pub open spec fn settled(g: GrantView, m: MessageView, seen: Set<(Seq<char>, u64)>) -> bool {
    ||| !g.allows(m.channel)
    ||| m.sender == g.agent
    ||| seen.contains((g.agent, m.id))
}

/// Whether every message that may still be delivered has at most `h` hops left.
pub open spec fn pending_at_most(table: Seq<GrantView>, s: RunState, h: int) -> bool {
    forall|a: int, i: int|
        #![trigger table[a], s.log[i]]
        0 <= a < table.len() && 0 <= i < s.log.len() ==> settled(table[a], s.log[i], s.seen)
            || s.log[i].hops <= h
}

/// In a round over messages with at most `h` hops left, all that is said has
/// fewer hops left, and every message is settled for every agent that had its
/// turn.
proof fn lemma_turns_use_a_hop(table: Seq<GrantView>, s: RunState, h: int, k: nat)
    requires
        k <= table.len(),
        s.fresh.len() == 0,
        pending_at_most(table, s, h),
    ensures
        ({
            let t = simulation::after_turns(simulation::own_answers(), table, s, k);
            &&& t.log == s.log
            &&& s.seen.subset_of(t.seen)
            &&& forall|i: int| 0 <= i < t.fresh.len() ==> (#[trigger] t.fresh[i]).hops < h
            &&& forall|a: int, i: int|
                #![trigger table[a], s.log[i]]
                0 <= a < k && 0 <= i < s.log.len() ==> settled(table[a], s.log[i], t.seen)
        }),
    decreases k,
{
    if k > 0 {
        let own = simulation::own_answers();
        lemma_turns_use_a_hop(table, s, h, (k - 1) as nat);
        let p = simulation::after_turns(own, table, s, (k - 1) as nat);
        let t = simulation::after_turns(own, table, s, k);
        let g = table[k - 1];
        let inbox = simulation::screen(g, p.log, p.seen).inbox;
        let out = agent::replies(g.agent, inbox);
        simulation_laws::law_delivery_is_scoped_and_once(g, p.log, p.seen);
        simulation_laws::law_delivery_is_complete(g, p.log, p.seen);
        assert forall|i: int| 0 <= i < t.fresh.len() implies (#[trigger] t.fresh[i]).hops < h by {
            if i < p.fresh.len() {
                assert(t.fresh[i] == p.fresh[i]);
            } else {
                let o = i - p.fresh.len();
                assert(t.fresh[i] == simulation::stamped(out, p.next_id)[o]);
                agent::law_answers_lose_a_hop(g.agent, inbox, o);
                let j = choose|j: int|
                    0 <= j < inbox.len() && agent::is_live(#[trigger] inbox[j]) && out[o]
                        == agent::reply(g.agent, inbox[j]) && out[o].hops + 1 == inbox[j].hops;
                let at = choose|at: int| 0 <= at < s.log.len() && s.log[at] == inbox[j];
                assert(!settled(table[k - 1], s.log[at], p.seen));
                assert(!settled(table[k - 1], s.log[at], s.seen));
            }
        }
        assert forall|a: int, i: int|
            #![trigger table[a], s.log[i]]
            0 <= a < k && 0 <= i < s.log.len() implies settled(table[a], s.log[i], t.seen) by {
            if a < k - 1 {
                assert(settled(table[a], s.log[i], p.seen));
            }
        }
    }
}

/// While a run goes on, each round takes a hop from what is still to be
/// delivered.
proof fn lemma_run_uses_hops(
    table: Seq<GrantView>,
    seeds: Seq<MessageView>,
    next_id: nat,
    hops: nat,
    n: nat,
)
    requires
        forall|i: int| 0 <= i < seeds.len() ==> (#[trigger] seeds[i]).hops <= hops,
    ensures
        ({
            let s = simulation::run(table, seeds, next_id, n);
            match s.converged {
                Some(r) => r <= hops && r < n,
                None => n <= hops && pending_at_most(table, s, hops - n),
            }
        }),
    decreases n,
{
    let own = simulation::own_answers();
    if n > 0 {
        lemma_run_uses_hops(table, seeds, next_id, hops, (n - 1) as nat);
        simulation_laws::law_rounds_are_counted(own, table, seeds, next_id, (n - 1) as nat);
        simulation_laws::law_rounds_are_counted(own, table, seeds, next_id, n);
        let p = simulation::run(table, seeds, next_id, (n - 1) as nat);
        let s = simulation::run(table, seeds, next_id, n);
        if p.converged is None {
            let h = hops - (n - 1);
            lemma_turns_use_a_hop(table, p, h, table.len());
            let t = simulation::after_turns(own, table, p, table.len());
            simulation_laws::lemma_turns_keep(own, table, p, table.len());
            if t.fresh.len() > 0 {
                assert(t.fresh[0].hops < h);
                assert forall|a: int, i: int|
                    #![trigger table[a], s.log[i]]
                    0 <= a < table.len() && 0 <= i < s.log.len() implies settled(
                    table[a],
                    s.log[i],
                    s.seen,
                ) || s.log[i].hops <= hops - n by {
                    if i < p.log.len() {
                        assert(s.log[i] == p.log[i]);
                    } else {
                        assert(s.log[i] == t.fresh[i - p.log.len()]);
                    }
                }
            }
        }
    }
}

/// Every exchange ends. If no seed has more than `hops` hops, a run of more than
/// `hops` rounds converges, in round `hops` (counted from zero) or before, no
/// matter which agents take part, what they were granted and what the seeds say.
pub proof fn law_exchange_converges(
    table: Seq<GrantView>,
    seeds: Seq<MessageView>,
    next_id: nat,
    hops: nat,
    n: nat,
)
    requires
        forall|i: int| 0 <= i < seeds.len() ==> (#[trigger] seeds[i]).hops <= hops,
        n > hops,
    ensures
        simulation::run(table, seeds, next_id, n).converged matches Some(r) && r <= hops,
{
    lemma_run_uses_hops(table, seeds, next_id, hops, n);
}

/// Whether the sender of `m` is an agent that was granted the channel of `m`.
pub open spec fn in_scope(table: Seq<GrantView>, m: MessageView) -> bool {
    exists|a: int|
        0 <= a < table.len() && (#[trigger] table[a]).agent == m.sender && table[a].allows(
            m.channel,
        )
}

/// What is said in a round is in scope.
proof fn lemma_turns_in_scope(table: Seq<GrantView>, s: RunState, k: nat)
    requires
        k <= table.len(),
        s.fresh.len() == 0,
    ensures
        ({
            let t = simulation::after_turns(simulation::own_answers(), table, s, k);
            forall|i: int|
                0 <= i < t.fresh.len() ==> {
                    let m = #[trigger] t.fresh[i];
                    &&& in_scope(table, m)
                    &&& m.act == Act::Inform
                }
        }),
    decreases k,
{
    if k > 0 {
        let own = simulation::own_answers();
        lemma_turns_in_scope(table, s, (k - 1) as nat);
        let p = simulation::after_turns(own, table, s, (k - 1) as nat);
        let t = simulation::after_turns(own, table, s, k);
        let g = table[k - 1];
        let inbox = simulation::screen(g, p.log, p.seen).inbox;
        let out = agent::replies(g.agent, inbox);
        simulation_laws::law_delivery_is_scoped_and_once(g, p.log, p.seen);
        assert forall|i: int| 0 <= i < t.fresh.len() implies {
            let m = #[trigger] t.fresh[i];
            &&& in_scope(table, m)
            &&& m.act == Act::Inform
        } by {
            if i < p.fresh.len() {
                assert(t.fresh[i] == p.fresh[i]);
            } else {
                let o = i - p.fresh.len();
                assert(t.fresh[i] == simulation::stamped(out, p.next_id)[o]);
                agent::law_answers_lose_a_hop(g.agent, inbox, o);
                assert(table[k - 1].agent == t.fresh[i].sender);
            }
        }
    }
}

/// Every message that a run with the library's own agent accepts is an `Inform`,
/// and comes from an agent that was granted the channel that it is on.
pub proof fn law_record_is_in_scope(
    table: Seq<GrantView>,
    seeds: Seq<MessageView>,
    next_id: nat,
    n: nat,
)
    ensures
        ({
            let s = simulation::run(table, seeds, next_id, n);
            forall|i: int|
                0 <= i < s.accepted.len() ==> {
                    let m = #[trigger] s.accepted[i];
                    &&& in_scope(table, m)
                    &&& m.act == Act::Inform
                }
        }),
    decreases n,
{
    if n > 0 {
        let own = simulation::own_answers();
        law_record_is_in_scope(table, seeds, next_id, (n - 1) as nat);
        simulation_laws::law_rounds_are_counted(own, table, seeds, next_id, (n - 1) as nat);
        let p = simulation::run(table, seeds, next_id, (n - 1) as nat);
        let s = simulation::run(table, seeds, next_id, n);
        if p.converged is None {
            lemma_turns_in_scope(table, p, table.len());
            simulation_laws::lemma_turns_keep(own, table, p, table.len());
            let fresh = simulation::after_turns(own, table, p, table.len()).fresh;
            assert forall|i: int| 0 <= i < s.accepted.len() implies {
                let m = #[trigger] s.accepted[i];
                &&& in_scope(table, m)
                &&& m.act == Act::Inform
            } by {
                if i < p.accepted.len() {
                    assert(s.accepted[i] == p.accepted[i]);
                } else {
                    assert(s.accepted[i] == fresh[i - p.accepted.len()]);
                }
            }
        }
    }
}

/// The hop budget falls with every round: a message said in round `r` has more
/// than `r` hops less than the budget of the seeds.
pub proof fn law_hops_fall_every_round(
    table: Seq<GrantView>,
    seeds: Seq<MessageView>,
    next_id: nat,
    hops: nat,
    n: nat,
)
    requires
        forall|i: int| 0 <= i < seeds.len() ==> (#[trigger] seeds[i]).hops <= hops,
    ensures
        ({
            let s = simulation::run(table, seeds, next_id, n);
            forall|r: int, i: int|
                0 <= r < s.rounds.len() && 0 <= i < s.rounds[r].len() ==> (
                #[trigger] s.rounds[r][i]).hops + r < hops
        }),
    decreases n,
{
    if n > 0 {
        let own = simulation::own_answers();
        law_hops_fall_every_round(table, seeds, next_id, hops, (n - 1) as nat);
        lemma_run_uses_hops(table, seeds, next_id, hops, (n - 1) as nat);
        simulation_laws::law_rounds_are_counted(own, table, seeds, next_id, (n - 1) as nat);
        let p = simulation::run(table, seeds, next_id, (n - 1) as nat);
        let s = simulation::run(table, seeds, next_id, n);
        if p.converged is None {
            lemma_turns_use_a_hop(table, p, hops - (n - 1), table.len());
            simulation_laws::lemma_turns_keep(own, table, p, table.len());
            let fresh = simulation::after_turns(own, table, p, table.len()).fresh;
            assert forall|r: int, i: int|
                0 <= r < s.rounds.len() && 0 <= i < s.rounds[r].len() implies (
            #[trigger] s.rounds[r][i]).hops + r < hops by {
                if r < p.rounds.len() {
                    assert(s.rounds[r] == p.rounds[r]);
                } else {
                    assert(s.rounds[r] == fresh);
                }
            }
        }
    }
}

} // verus!
