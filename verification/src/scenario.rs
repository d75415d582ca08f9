//! The demonstration scenario: a maintainer asks two agents whether to ship, and
//! mentions a secret on a channel that neither was granted.

use vstd::prelude::*;

use crate::agent;
use crate::capability;
use crate::capability::{standard_table, GrantView};
use crate::exchange_laws;
use crate::host;
use crate::host::{Host, Policy};
use crate::message;
use crate::message::{Act, Message, MessageView, Wire, WireView};
use crate::simulation;
use crate::simulation::{simulate, Call, RunState, SimError, SimResult};
use crate::simulation_laws;

verus! {

/// The channel that no agent was granted.
pub open spec fn secret_channel() -> Seq<char> {
    "secret-ops"@
}

/// The two messages that the in-memory run starts from.
pub open spec fn simulation_seeds() -> Seq<MessageView> {
    seq![
        MessageView {
            id: 1,
            sender: "maintainer"@,
            channel: capability::coordination_channel(),
            act: Act::Request,
            payload: "ship v0.1?"@,
            sig: "human"@,
            hops: 3,
        },
        MessageView {
            id: 2,
            sender: "maintainer"@,
            channel: secret_channel(),
            act: Act::Inform,
            payload: "SECRET: rotate signing keys"@,
            sig: "human"@,
            hops: 3,
        },
    ]
}

/// The number of messages of `log` that are kept from the agent of `g` because
/// of their channel.
spec fn off_scope(g: GrantView, log: Seq<MessageView>) -> nat {
    log.filter(|m: MessageView| !g.allows(m.channel)).len()
}

/// The number of messages of `log` that are the agent's own.
spec fn own(g: GrantView, log: Seq<MessageView>) -> nat {
    log.filter(|m: MessageView| g.allows(m.channel) && m.sender == g.agent).len()
}

/// The two agents of the scenario.
spec fn two_agents(table: Seq<GrantView>) -> bool {
    &&& table.len() == 2
    &&& table[0].agent != table[1].agent
    &&& table[0].channels == table[1].channels
}

/// How the exchange stands after `r` rounds: the last two messages of the log
/// are one of each agent, with `h` hops left, and each is yet to be delivered to
/// the other agent. All else is settled.
#[verifier::opaque]
spec fn crossed(table: Seq<GrantView>, s: RunState, r: nat, h: nat) -> bool {
    let n = s.log.len() as int;
    let x = s.log[n - 2];
    let y = s.log[n - 1];
    &&& s.converged is None
    &&& s.round == r
    &&& s.fresh.len() == 0
    &&& n >= 2
    &&& x.sender == table[0].agent
    &&& y.sender == table[1].agent
    &&& table[0].allows(x.channel)
    &&& table[0].allows(y.channel)
    &&& x.hops == h
    &&& y.hops == h
    &&& !s.seen.contains((table[0].agent, y.id))
    &&& !s.seen.contains((table[1].agent, x.id))
    &&& forall|a: int, i: int|
        #![trigger table[a], s.log[i]]
        0 <= a < 2 && 0 <= i < n - 2 ==> exchange_laws::settled(table[a], s.log[i], s.seen)
    &&& forall|a: int| 0 <= a < 2 ==> off_scope(#[trigger] table[a], s.log) == 1
    &&& forall|a: int| 0 <= a < 2 ==> own(#[trigger] table[a], s.log) == r
    &&& forall|e: (Seq<char>, u64)| #[trigger] s.seen.contains(e) ==> e.1 < s.next_id
    &&& x.id < s.next_id
    &&& y.id < s.next_id
    &&& s.next_id + 2 * h + 2 <= u64::MAX
}

/// A look through a log of which every message is settled delivers nothing, and
/// leaves the record as it is.
proof fn lemma_screen_settled(
    g: GrantView,
    log: Seq<MessageView>,
    seen: Set<(Seq<char>, u64)>,
)
    requires
        forall|i: int|
            0 <= i < log.len() ==> exchange_laws::settled(g, #[trigger] log[i], seen),
    ensures
        simulation::screen(g, log, seen).inbox == Seq::<MessageView>::empty(),
        simulation::screen(g, log, seen).seen == seen,
    decreases log.len(),
{
    if log.len() > 0 {
        let rest = log.drop_last();
        assert forall|i: int| 0 <= i < rest.len() implies exchange_laws::settled(
            g,
            #[trigger] rest[i],
            seen,
        ) by {
            assert(rest[i] == log[i]);
        }
        lemma_screen_settled(g, rest, seen);
        assert(exchange_laws::settled(g, log[log.len() - 1], seen));
    }
}

/// An agent that is owed one message is given that one.
proof fn lemma_screen_one(
    g: GrantView,
    log: Seq<MessageView>,
    seen: Set<(Seq<char>, u64)>,
    owed: int,
)
    requires
        0 <= owed < log.len(),
        !exchange_laws::settled(g, log[owed], seen),
        forall|i: int|
            0 <= i < log.len() && i != owed ==> exchange_laws::settled(
                g,
                #[trigger] log[i],
                seen,
            ),
    ensures
        simulation::screen(g, log, seen).inbox == seq![log[owed]],
        simulation::screen(g, log, seen).seen == seen.insert((g.agent, log[owed].id)),
        simulation::screen(g, log, seen).off_scope == off_scope(g, log),
        simulation::screen(g, log, seen).echoes == own(g, log),
    decreases log.len(),
{
    simulation_laws::law_withheld_are_counted(g, log, seen);
    let rest = log.drop_last();
    assert forall|i: int| 0 <= i < rest.len() && i != owed implies exchange_laws::settled(
        g,
        #[trigger] rest[i],
        seen,
    ) by {
        assert(rest[i] == log[i]);
    }
    if owed == log.len() - 1 {
        lemma_screen_settled(g, rest, seen);
        assert(simulation::screen(g, log, seen).inbox =~= seq![log[owed]]);
    } else {
        assert(rest[owed] == log[owed]);
        lemma_screen_one(g, rest, seen, owed);
        assert(exchange_laws::settled(g, log[log.len() - 1], seen));
    }
}

/// The answer to an inbox of one message.
proof fn lemma_replies_to_one(me: Seq<char>, m: MessageView)
    ensures
        agent::replies(me, seq![m]) == if agent::is_live(m) {
            seq![agent::reply(me, m)]
        } else {
            Seq::<MessageView>::empty()
        },
{
    let none = Seq::<MessageView>::empty();
    reveal(Seq::filter);
    assert(agent::replies(me, none) =~= none);
    agent::lemma_replies_push(me, none, m);
    assert(none.push(m) =~= seq![m]);
    assert(none.push(agent::reply(me, m)) =~= seq![agent::reply(me, m)]);
}

/// Two messages more in a log, one of each agent, on a channel that both were
/// granted.
proof fn lemma_counts_grow(
    table: Seq<GrantView>,
    log: Seq<MessageView>,
    x: MessageView,
    y: MessageView,
)
    requires
        two_agents(table),
        x.sender == table[0].agent,
        y.sender == table[1].agent,
        table[0].allows(x.channel),
        table[0].allows(y.channel),
    ensures
        forall|a: int|
            0 <= a < 2 ==> off_scope(#[trigger] table[a], log + seq![x, y]) == off_scope(
                table[a],
                log,
            ),
        forall|a: int|
            0 <= a < 2 ==> own(#[trigger] table[a], log + seq![x, y]) == own(table[a], log) + 1,
{
    assert forall|a: int| 0 <= a < 2 implies off_scope(#[trigger] table[a], log + seq![x, y])
        == off_scope(table[a], log) && own(table[a], log + seq![x, y]) == own(table[a], log)
        + 1 by {
        let g = table[a];
        let off = |m: MessageView| !g.allows(m.channel);
        let mine = |m: MessageView| g.allows(m.channel) && m.sender == g.agent;
        assert(log + seq![x, y] =~= log.push(x).push(y));
        log.lemma_filter_push(x, off);
        log.push(x).lemma_filter_push(y, off);
        log.lemma_filter_push(x, mine);
        log.push(x).lemma_filter_push(y, mine);
    }
}

/// One round of the exchange between two agents of the library's own.
spec fn own_round(table: Seq<GrantView>, s: RunState) -> RunState {
    simulation::after_round(simulation::after_turns(simulation::own_answers(), table, s, 2))
}

/// One round of the exchange while the two agents answer each other.
proof fn lemma_crossed_round(table: Seq<GrantView>, s: RunState, r: nat, h: nat)
    requires
        two_agents(table),
        crossed(table, s, r, h),
    ensures
        ({
            let t = own_round(table, s);
            &&& t.off_scope == s.off_scope + 2
            &&& t.echoes == s.echoes + 2 * r
            &&& h > 0 ==> crossed(table, t, r + 1, (h - 1) as nat) && t.accepted.len()
                == s.accepted.len() + 2
            &&& h == 0 ==> t.converged == Some(r) && t.accepted == s.accepted
        }),
{
    reveal(crossed);
    reveal_with_fuel(simulation::after_turns, 3);
    let n = s.log.len() as int;
    let x = s.log[n - 2];
    let y = s.log[n - 1];
    let a = table[0];
    let b = table[1];
    assert(b.allows(x.channel) && b.allows(y.channel));
    assert(exchange_laws::settled(a, x, s.seen));
    assert(forall|i: int|
        0 <= i < n && i != n - 1 ==> exchange_laws::settled(a, #[trigger] s.log[i], s.seen));
    lemma_screen_one(a, s.log, s.seen, n - 1);
    let seen1 = simulation::screen(a, s.log, s.seen).seen;
    assert(exchange_laws::settled(b, y, seen1));
    assert forall|i: int| 0 <= i < n && i != n - 2 implies exchange_laws::settled(
        b,
        #[trigger] s.log[i],
        seen1,
    ) by {
        if i < n - 2 {
            assert(exchange_laws::settled(table[1], s.log[i], s.seen));
        }
    }
    lemma_screen_one(b, s.log, seen1, n - 2);
    lemma_replies_to_one(a.agent, y);
    lemma_replies_to_one(b.agent, x);
    let round = simulation::after_turns(simulation::own_answers(), table, s, 2);
    let t = own_round(table, s);
    assert(off_scope(table[0], s.log) == 1 && off_scope(table[1], s.log) == 1);
    assert(own(table[0], s.log) == r && own(table[1], s.log) == r);
    if h == 0 {
        assert(round.fresh =~= Seq::<MessageView>::empty());
    } else {
        let x1 = MessageView { id: s.next_id as u64, ..agent::reply(a.agent, y) };
        let y1 = MessageView { id: (s.next_id + 1) as u64, ..agent::reply(b.agent, x) };
        assert(round.fresh =~= seq![x1, y1]);
        lemma_counts_grow(table, s.log, x1, y1);
        assert(t.log =~= s.log + seq![x1, y1]);
        assert(t.log[n] == x1 && t.log[n + 1] == y1);
        assert forall|k: int, i: int|
            #![trigger table[k], t.log[i]]
            0 <= k < 2 && 0 <= i < n implies exchange_laws::settled(
            table[k],
            t.log[i],
            t.seen,
        ) by {
            assert(t.log[i] == s.log[i]);
            if i < n - 2 {
                assert(exchange_laws::settled(table[k], s.log[i], s.seen));
            }
        }
    }
}

/// What is kept from the two agents of the two messages that the run starts from.
proof fn lemma_opening_counts(table: Seq<GrantView>, seeds: Seq<MessageView>)
    requires
        two_agents(table),
        seeds.len() == 2,
        forall|a: int, i: int|
            #![trigger table[a], seeds[i]]
            0 <= a < 2 && 0 <= i < 2 ==> seeds[i].sender != table[a].agent,
        table[0].allows(seeds[0].channel),
        !table[0].allows(seeds[1].channel),
    ensures
        forall|k: int|
            0 <= k < 2 ==> off_scope(#[trigger] table[k], seeds) == 1 && own(table[k], seeds) == 0,
{
    let none = Seq::<MessageView>::empty();
    assert forall|k: int| 0 <= k < 2 implies off_scope(#[trigger] table[k], seeds) == 1 && own(
        table[k],
        seeds,
    ) == 0 by {
        let g = table[k];
        let off = |m: MessageView| !g.allows(m.channel);
        let mine = |m: MessageView| g.allows(m.channel) && m.sender == g.agent;
        assert(seeds =~= none.push(seeds[0]).push(seeds[1]));
        assert(none.filter(off).len() == 0 && none.filter(mine).len() == 0) by {
            none.lemma_filter_len(off);
            none.lemma_filter_len(mine);
        }
        none.lemma_filter_push(seeds[0], off);
        none.push(seeds[0]).lemma_filter_push(seeds[1], off);
        none.lemma_filter_push(seeds[0], mine);
        none.push(seeds[0]).lemma_filter_push(seeds[1], mine);
    }
}

/// The first round of the scenario: both agents answer the maintainer, and
/// neither is given the secret.
proof fn lemma_opening_round(table: Seq<GrantView>, seeds: Seq<MessageView>)
    requires
        two_agents(table),
        seeds.len() == 2,
        forall|a: int, i: int|
            #![trigger table[a], seeds[i]]
            0 <= a < 2 && 0 <= i < 2 ==> seeds[i].sender != table[a].agent,
        table[0].allows(seeds[0].channel),
        !table[0].allows(seeds[1].channel),
        seeds[0].hops == 3,
        seeds[0].id == 1,
        seeds[1].id == 2,
    ensures
        ({
            let t = own_round(table, simulation::run_start(seeds, 3));
            &&& t.off_scope == 2
            &&& t.echoes == 0
            &&& t.accepted.len() == 2
            &&& crossed(table, t, 1, 2)
        }),
{
    reveal(crossed);
    reveal_with_fuel(simulation::after_turns, 3);
    let s = simulation::run_start(seeds, 3);
    let a = table[0];
    let b = table[1];
    let m = seeds[0];
    lemma_opening_counts(table, seeds);
    assert(exchange_laws::settled(a, seeds[1], s.seen));
    assert(table[0].agent != m.sender && table[1].agent != m.sender);
    lemma_screen_one(a, seeds, s.seen, 0);
    let seen1 = simulation::screen(a, seeds, s.seen).seen;
    assert(exchange_laws::settled(b, seeds[1], seen1));
    lemma_screen_one(b, seeds, seen1, 0);
    lemma_replies_to_one(a.agent, m);
    lemma_replies_to_one(b.agent, m);
    let x1 = MessageView { id: 3, ..agent::reply(a.agent, m) };
    let y1 = MessageView { id: 4, ..agent::reply(b.agent, m) };
    let round = simulation::after_turns(simulation::own_answers(), table, s, 2);
    assert(round.fresh =~= seq![x1, y1]);
    lemma_counts_grow(table, seeds, x1, y1);
    let t = own_round(table, s);
    assert(t.log =~= seeds + seq![x1, y1]);
    assert(t.log[2] == x1 && t.log[3] == y1);
    assert(t.log[0] == seeds[0] && t.log[1] == seeds[1]);
}

/// The names of the scenario differ where they have to.
proof fn lemma_scenario_names()
    ensures
        "synth-agent"@ != "relay-agent"@,
        "synth-agent"@ != "maintainer"@,
        "relay-agent"@ != "maintainer"@,
        "build-coord"@ != "secret-ops"@,
{
    reveal_strlit("synth-agent");
    reveal_strlit("relay-agent");
    reveal_strlit("maintainer");
    reveal_strlit("build-coord");
    reveal_strlit("secret-ops");
    assert("synth-agent"@[0] != "relay-agent"@[0]);
    assert("synth-agent"@.len() == 11 && "relay-agent"@.len() == 11);
    assert("maintainer"@.len() == 10);
    assert("build-coord"@.len() == 11 && "secret-ops"@.len() == 10);
}

/// How the in-memory run of the scenario ends.
proof fn lemma_scenario_outcome()
    ensures
        ({
            let s = simulation::run(capability::standard_grants(), simulation_seeds(), 3, 8);
            &&& s.off_scope == 8
            &&& s.echoes == 12
            &&& s.accepted.len() == 6
            &&& s.converged == Some(3nat)
            &&& s.next_id == 9
        }),
{
    let table = capability::standard_grants();
    let seeds = simulation_seeds();
    lemma_scenario_names();
    assert(table[0].channels[0] == seeds[0].channel);
    lemma_opening_round(table, seeds);
    assert(simulation::run(table, seeds, 3, 0) == simulation::run_start(seeds, 3));
    let s1 = simulation::run(table, seeds, 3, 1);
    assert(s1 == own_round(table, simulation::run_start(seeds, 3)));
    lemma_crossed_open(table, s1, 1, 2);
    lemma_crossed_round(table, s1, 1, 2);
    let s2 = simulation::run(table, seeds, 3, 2);
    assert(s2 == own_round(table, s1));
    lemma_crossed_open(table, s2, 2, 1);
    lemma_crossed_round(table, s2, 2, 1);
    let s3 = simulation::run(table, seeds, 3, 3);
    assert(s3 == own_round(table, s2));
    lemma_crossed_open(table, s3, 3, 0);
    lemma_crossed_round(table, s3, 3, 0);
    let s4 = simulation::run(table, seeds, 3, 4);
    assert(s4 == own_round(table, s3));
    let own = simulation::own_answers();
    simulation::lemma_run_stays(own, table, seeds, 3, 4, 8);
    simulation_laws::law_record_is_what_was_answered(own, table, seeds, 3, 8);
}

/// While messages are crossing, the run has not converged.
proof fn lemma_crossed_open(table: Seq<GrantView>, s: RunState, r: nat, h: nat)
    requires
        crossed(table, s, r, h),
    ensures
        s.converged is None,
{
    reveal(crossed);
}

/// The messages that the in-memory run starts from.
fn seed_messages() -> (seeds: Vec<Message>)
    ensures
        message::messages_view(seeds@) == simulation_seeds(),
{
    let mut seeds: Vec<Message> = Vec::new();
    seeds.push(
        Message {
            id: 1,
            sender: "maintainer".to_owned(),
            channel: "build-coord".to_owned(),
            act: Act::Request,
            payload: "ship v0.1?".to_owned(),
            sig: "human".to_owned(),
            hops: 3,
        },
    );
    seeds.push(
        Message {
            id: 2,
            sender: "maintainer".to_owned(),
            channel: "secret-ops".to_owned(),
            act: Act::Inform,
            payload: "SECRET: rotate signing keys".to_owned(),
            sig: "human".to_owned(),
            hops: 3,
        },
    );
    assert(message::messages_view(seeds@) =~= simulation_seeds());
    seeds
}

/// A call that is in the scope of the scenario is in the name of one of the two
/// agents. It passes one message at least, and none that the agent sent itself or
/// that is on another channel than the coordination channel: never one on the
/// secret channel. As `run_simulation` makes no call out of scope, this holds of
/// every call that it makes.
pub proof fn law_scope_of_the_scenario(me: Seq<char>, inbox: Seq<MessageView>)
    requires
        simulation::scoped_call(capability::standard_grants(), me, inbox),
    ensures
        me == "synth-agent"@ || me == "relay-agent"@,
        inbox.len() > 0,
        forall|j: int|
            0 <= j < inbox.len() ==> {
                let m = #[trigger] inbox[j];
                &&& m.channel == capability::coordination_channel()
                &&& m.channel != secret_channel()
                &&& m.sender != me
            },
{
    lemma_scenario_names();
}

/// The in-memory run of the scenario, whatever the component answers. Its calls
/// are in the names of the two agents only, with messages of others on the
/// coordination channel and never with an empty inbox: none of them passes a
/// message on the secret channel. In a round, the call in the name of the first
/// agent comes before that in the name of the second. The record is what was
/// answered, round by round and in the order of the calls, numbered from three on
/// and otherwise as it was answered. There are eight rounds at most, each of them
/// with an answer, and the run converges if and only if there are fewer.
pub proof fn law_scenario_is_controlled(answers: spec_fn(Call) -> Seq<MessageView>)
    ensures
        ({
            let table = capability::standard_grants();
            let s = simulation::run_with(answers, table, simulation_seeds(), 3, 8);
            &&& forall|c: int|
                0 <= c < s.calls.len() ==> {
                    let call = #[trigger] s.calls[c];
                    &&& call.me == "synth-agent"@ || call.me == "relay-agent"@
                    &&& call.me == table[call.agent as int].agent
                    &&& call.inbox.len() > 0
                }
            &&& forall|c: int, j: int|
                0 <= c < s.calls.len() && 0 <= j < s.calls[c].inbox.len() ==> {
                    let m = #[trigger] s.calls[c].inbox[j];
                    &&& m.channel == capability::coordination_channel()
                    &&& m.channel != secret_channel()
                    &&& m.sender != s.calls[c].me
                }
            &&& forall|c: int, d: int|
                0 <= c < d < s.calls.len() && (#[trigger] s.calls[c]).round == (
                #[trigger] s.calls[d]).round ==> s.calls[c].me == "synth-agent"@
                    && s.calls[d].me == "relay-agent"@
            &&& s.log == simulation_seeds() + s.accepted
            &&& s.accepted == s.rounds.flatten()
            &&& forall|r: int|
                0 <= r < s.rounds.len() ==> #[trigger] s.rounds[r] == simulation::stamped(
                    simulation_laws::said_in(answers, s.calls, r as nat),
                    3 + s.rounds.take(r).flatten().len(),
                )
            &&& simulation::in_range(s) ==> forall|i: int|
                0 <= i < s.accepted.len() ==> (#[trigger] s.accepted[i]).id == 3 + i
            &&& s.rounds.len() <= 8
            &&& forall|r: int| 0 <= r < s.rounds.len() ==> (#[trigger] s.rounds[r]).len() > 0
            &&& forall|r: nat| s.converged == Some(r) <==> s.rounds.len() == r && r < 8
            &&& s.converged is None <==> s.rounds.len() == 8
        }),
{
    let table = capability::standard_grants();
    let seeds = simulation_seeds();
    let s = simulation::run_with(answers, table, seeds, 3, 8);
    lemma_scenario_names();
    simulation_laws::law_record_is_what_was_answered(answers, table, seeds, 3, 8);
    simulation_laws::law_rounds_are_counted(answers, table, seeds, 3, 8);
    assert forall|c: int| 0 <= c < s.calls.len() implies {
        let call = #[trigger] s.calls[c];
        &&& call.agent < 2
        &&& simulation_laws::in_call_scope(
            table,
            simulation::run_with(answers, table, seeds, 3, call.round).log,
            call,
        )
    } by {
        simulation_laws::law_calls_are_scoped(answers, table, seeds, 3, 8, c);
    }
    assert forall|c: int, d: int|
        0 <= c < d < s.calls.len() && (#[trigger] s.calls[c]).round == (
        #[trigger] s.calls[d]).round implies s.calls[c].me == "synth-agent"@ && s.calls[d].me
        == "relay-agent"@ by {
        simulation_laws::law_calls_come_in_order(answers, table, seeds, 3, 8, c, d);
    }
}

/// The in-memory run of the scenario, whatever the component answers: by the end
/// of each round, each of the two agents has been passed, exactly once and in the
/// order of the log, every message of others on the coordination channel that was
/// on the log when the round started, and nothing else.
pub proof fn law_scenario_passes_all_once(
    answers: spec_fn(Call) -> Seq<MessageView>,
    n: nat,
    a: nat,
)
    requires
        a < 2,
        n < 8,
        ({
            let table = capability::standard_grants();
            let seeds = simulation_seeds();
            &&& simulation::run_with(answers, table, seeds, 3, n).converged is None
            &&& simulation::in_range(simulation::run_with(answers, table, seeds, 3, n + 1))
        }),
    ensures
        ({
            let table = capability::standard_grants();
            let seeds = simulation_seeds();
            let s = simulation::run_with(answers, table, seeds, 3, n);
            let t = simulation::run_with(answers, table, seeds, 3, n + 1);
            simulation_laws::passed_to(t.calls, a) == s.log.filter(
                |m: MessageView|
                    m.channel == capability::coordination_channel() && m.sender
                        != table[a as int].agent,
            )
        }),
{
    let table = capability::standard_grants();
    let seeds = simulation_seeds();
    let g = table[a as int];
    lemma_scenario_names();
    simulation_laws::law_all_is_passed_once_in_order(answers, table, seeds, 3, n, a);
    let heard = |m: MessageView| simulation_laws::audible(g, m);
    let named = |m: MessageView|
        m.channel == capability::coordination_channel() && m.sender != g.agent;
    assert forall|m: MessageView| #[trigger] heard(m) == named(m) by {
        assert(g.channels[0] == capability::coordination_channel());
    }
    assert(heard =~= named);
}

/// The in-memory run of the scenario starts with a call in the name of the first
/// agent, which passes the maintainer's request and nothing else.
proof fn lemma_scenario_opens(answers: spec_fn(Call) -> Seq<MessageView>)
    ensures
        ({
            let table = capability::standard_grants();
            let s = simulation::run_start(simulation_seeds(), 3);
            &&& simulation::in_range(simulation::after_look(table, s, 0))
            &&& simulation::look(table, s, 0).inbox == seq![simulation_seeds()[0]]
            &&& simulation::after_turns(answers, table, s, 1).calls.len() == 1
        }),
{
    let table = capability::standard_grants();
    let seeds = simulation_seeds();
    let s = simulation::run_start(seeds, 3);
    lemma_scenario_names();
    assert(table[0].channels[0] == seeds[0].channel);
    lemma_opening_counts(table, seeds);
    assert(own(table[0], seeds) == 0);
    assert(exchange_laws::settled(table[0], seeds[1], s.seen));
    lemma_screen_one(table[0], seeds, s.seen, 0);
    reveal_with_fuel(simulation::after_turns, 2);
}

/// A component that fails every call leaves the scenario without outcome.
proof fn lemma_scenario_fails<E, F: Fn(String, Vec<Message>) -> Result<Vec<Message>, E>>(
    agent: F,
    out: Result<SimResult, SimError<E>>,
)
    requires
        simulation::explains(
            agent,
            capability::standard_grants(),
            simulation_seeds(),
            3,
            8,
            out,
        ),
        simulation::always_fails(agent),
    ensures
        out is Err,
        out->Err_0 is Component,
{
    let table = capability::standard_grants();
    let seeds = simulation_seeds();
    let start = simulation::run_start(seeds, 3);
    match out {
        Ok(result) => {
            let answers = choose|answers: spec_fn(Call) -> Seq<MessageView>| #[trigger]
                simulation::completes(agent, answers, table, seeds, 3, 8, result);
            let s = simulation::run_with(answers, table, seeds, 3, 8);
            lemma_scenario_opens(answers);
            simulation::lemma_turns_count(answers, table, start, 1, 2);
            assert(simulation::run_with(answers, table, seeds, 3, 0) == start);
            assert(simulation::run_with(answers, table, seeds, 3, 1).calls.len() > 0);
            simulation::lemma_rounds_count(answers, table, seeds, 3, 1, 8);
            assert(simulation::may_answer(agent, s.calls[0], answers(s.calls[0])));
        },
        Err(SimError::Component(e)) => {},
        Err(SimError::Counters) => {
            let (answers, r, k) = choose|
                answers: spec_fn(Call) -> Seq<MessageView>,
                r: nat,
                k: nat,
            | #[trigger] simulation::overflows_at(agent, answers, table, seeds, 3, 8, r, k);
            let s = simulation::run_at(answers, table, seeds, 3, r, k);
            lemma_scenario_opens(answers);
            assert(simulation::run_with(answers, table, seeds, 3, 0) == start);
            if r > 0 {
                simulation::lemma_turns_count(answers, table, start, 1, 2);
                assert(simulation::run_with(answers, table, seeds, 3, 1).calls.len() > 0);
                simulation::lemma_rounds_count(answers, table, seeds, 3, 1, r);
                let p = simulation::run_with(answers, table, seeds, 3, r);
                simulation::lemma_turns_count(answers, table, p, 0, k);
            } else if k > 0 {
                simulation::lemma_turns_count(answers, table, start, 1, k);
            }
            if r > 0 || k > 0 {
                assert(simulation::may_answer(agent, s.calls[0], answers(s.calls[0])));
            } else {
                let t = simulation::after_turn(answers, table, s, 0);
                assert(s == start);
                assert(t.calls.len() == 1);
                if simulation::all_answered(agent, t.calls, answers) {
                    assert(simulation::may_answer(agent, t.calls[0], answers(t.calls[0])));
                }
            }
        },
    }
}

/// Runs the scenario on the in-memory bus with the component `agent`, for at most
/// eight rounds. The component is called only in the names of the two agents, and
/// never with an empty inbox, a message of the agent's own or one on another
/// channel than the coordination channel. An error of the component ends the run
/// with that error; and the component is called at least once, so that one that
/// always fails leaves the run without outcome. With a component that answers as
/// the library's own agent, the secret is kept from both agents in each of the
/// four rounds that are played, each agent's own messages are kept from it twelve
/// times in all, and the exchange ends in round three after six answers.
pub fn run_simulation<E, F: Fn(String, Vec<Message>) -> Result<Vec<Message>, E>>(
    agent: F,
) -> (out: Result<SimResult, SimError<E>>)
    requires
        forall|me: String, inbox: Vec<Message>|
            simulation::is_due(
                agent,
                capability::standard_grants(),
                simulation_seeds(),
                3,
                8,
                me@,
                message::messages_view(inbox@),
            ) ==> #[trigger] call_requires(agent, (me, inbox)),
    ensures
        simulation::explains(
            agent,
            capability::standard_grants(),
            simulation_seeds(),
            3,
            8,
            out,
        ),
        simulation::always_fails(agent) ==> out is Err && out->Err_0 is Component,
        simulation::answers_as_own(agent) ==> {
            &&& out is Ok
            &&& out->Ok_0.reports(
                simulation::run(capability::standard_grants(), simulation_seeds(), 3, 8),
            )
            &&& out->Ok_0.dropped_caps == 8
            &&& out->Ok_0.dropped_echo == 12
            &&& out->Ok_0.accepted@.len() == 6
            &&& out->Ok_0.converged_round == Some(3usize)
        },
{
    let table = standard_table();
    let seeds = seed_messages();
    let out = simulate(agent, &table, seeds, 3, 8);
    proof {
        if simulation::always_fails(agent) {
            lemma_scenario_fails(agent, out);
        }
        if simulation::answers_as_own(agent) {
            lemma_scenario_outcome();
            simulation::law_own_agent_completes(
                agent,
                capability::standard_grants(),
                simulation_seeds(),
                3,
                8,
                out,
            );
        }
    }
    out
}

/// The messages that are on the durable spine before the first round: the
/// request, the secret, and a task that both agents can see.
pub open spec fn spine_seeds() -> Seq<WireView> {
    seq![
        WireView {
            id: 1,
            sender: "maintainer"@,
            channel: capability::coordination_channel(),
            act: "request"@,
            payload: "ship v0.1?"@,
            sig: "human"@,
            hops: 3,
        },
        WireView {
            id: 2,
            sender: "maintainer"@,
            channel: secret_channel(),
            act: "inform"@,
            payload: "SECRET: rotate signing keys"@,
            sig: "human"@,
            hops: 3,
        },
        WireView {
            id: 3,
            sender: "maintainer"@,
            channel: capability::coordination_channel(),
            act: "request"@,
            payload: "TASK#42: cut the release"@,
            sig: "human"@,
            hops: 1,
        },
    ]
}

/// A message of the maintainer.
fn maintainer_wire(id: u64, channel: &str, act: &str, payload: &str, hops: u32) -> (w: Wire)
    ensures
        w@ == (WireView {
            id,
            sender: "maintainer"@,
            channel: channel@,
            act: act@,
            payload: payload@,
            sig: "human"@,
            hops,
        }),
{
    Wire {
        id,
        sender: "maintainer".to_owned(),
        channel: channel.to_owned(),
        act: act.to_owned(),
        payload: payload.to_owned(),
        sig: "human".to_owned(),
        hops,
    }
}

/// The messages that are on the durable spine before the first round.
pub fn seed_wires() -> (seeds: Vec<Wire>)
    ensures
        message::wires_view(seeds@) == spine_seeds(),
{
    let mut seeds: Vec<Wire> = Vec::new();
    seeds.push(maintainer_wire(1, "build-coord", "request", "ship v0.1?", 3));
    seeds.push(maintainer_wire(2, "secret-ops", "inform", "SECRET: rotate signing keys", 3));
    seeds.push(maintainer_wire(3, "build-coord", "request", "TASK#42: cut the release", 1));
    assert(message::wires_view(seeds@) =~= spine_seeds());
    seeds
}

/// The host of the scenario before its first round: the first agent of the table
/// decides whether to ship, after two rounds at the latest.
pub fn standard_host() -> (host: Host)
    ensures
        host.wf(),
        host@ == host::host_start(
            capability::standard_grants(),
            "synth-agent"@,
            "ship v0.1?"@,
            2,
            spine_seeds(),
        ),
        host@.next_id == 4,
{
    let table = standard_table();
    let seeds = seed_wires();
    let policy = Policy {
        owner: "synth-agent".to_owned(),
        topic: "ship v0.1?".to_owned(),
        deadline: 2,
    };
    proof {
        let said = message::wires_view(seeds@);
        assert forall|i: int| 0 <= i < seeds@.len() implies (#[trigger] seeds@[i]).id
            < u64::MAX by {
            assert(said[i] == seeds@[i]@);
        }
        reveal_with_fuel(host::id_after, 4);
        assert(host::id_after(spine_seeds()) == 4);
    }
    Host::new(table, policy, &seeds)
}

} // verus!
