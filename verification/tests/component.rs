use std::cell::RefCell;

use agora::agent::Component;
use agora::capability::{standard_table, Grant};
use agora::message::{Act, Message};
use agora::scenario::run_simulation;
use agora::simulation::{simulate, SimError, Simulation};

fn message(id: u64, sender: &str, channel: &str, payload: &str, hops: u32) -> Message {
    Message {
        id,
        sender: sender.to_string(),
        channel: channel.to_string(),
        act: Act::Propose,
        payload: payload.to_string(),
        sig: "sig".to_string(),
        hops,
    }
}

fn grant(agent: &str, channels: &[&str]) -> Grant {
    Grant {
        agent: agent.to_string(),
        channels: channels.iter().map(|c| c.to_string()).collect(),
    }
}

/// The identifiers of an inbox.
fn ids(inbox: &[Message]) -> Vec<u64> {
    inbox.iter().map(|m| m.id).collect()
}

#[test]
fn failing_component_ends_the_run_with_its_error() {
    let out = run_simulation(|_, _| Err::<Vec<Message>, String>("trap".to_string()));
    assert!(matches!(out, Err(SimError::Component(e)) if e == "trap"));
}

#[test]
fn component_may_fail_late() {
    let calls = RefCell::new(0u32);
    let out = run_simulation(|me, inbox| {
        *calls.borrow_mut() += 1;
        if *calls.borrow() == 4 {
            Err(format!("{me} failed"))
        } else {
            Ok(Component::coordinate(me, inbox))
        }
    });
    assert!(matches!(out, Err(SimError::Component(e)) if e == "relay-agent failed"));
    assert_eq!(calls.into_inner(), 4);
}

#[test]
fn calls_of_the_scenario() {
    let calls = RefCell::new(Vec::new());
    let sim = run_simulation(|me: String, inbox: Vec<Message>| {
        assert!(!inbox.is_empty());
        for m in &inbox {
            assert_eq!(m.channel, "build-coord");
            assert_ne!(m.sender, me);
        }
        calls.borrow_mut().push((me.clone(), ids(&inbox)));
        Ok::<Vec<Message>, String>(Component::coordinate(me, inbox))
    })
    .unwrap();
    let expected: Vec<(String, Vec<u64>)> = vec![
        ("synth-agent".to_string(), vec![1]),
        ("relay-agent".to_string(), vec![1]),
        ("synth-agent".to_string(), vec![4]),
        ("relay-agent".to_string(), vec![3]),
        ("synth-agent".to_string(), vec![6]),
        ("relay-agent".to_string(), vec![5]),
        ("synth-agent".to_string(), vec![8]),
        ("relay-agent".to_string(), vec![7]),
    ];
    assert_eq!(calls.into_inner(), expected);
    assert_eq!(sim.converged_round, Some(3));
}

#[test]
fn component_that_always_answers_is_cut_off() {
    let heard = RefCell::new(Vec::new());
    let sim = run_simulation(|me: String, inbox: Vec<Message>| {
        if me == "synth-agent" {
            heard.borrow_mut().extend(ids(&inbox));
        }
        Ok::<Vec<Message>, String>(vec![message(77, "nobody", "build-coord", &me, 9)])
    })
    .unwrap();
    assert_eq!(sim.converged_round, None);
    assert_eq!(sim.rounds.len(), 8);
    assert_eq!(sim.accepted.len(), 16);
    for (k, m) in sim.accepted.iter().enumerate() {
        // The host's own identifier; all else as the component gave it.
        assert_eq!(m.id, 3 + k as u64);
        assert_eq!(m.sender, "nobody");
        assert_eq!(m.act, Act::Propose);
        assert_eq!(m.sig, "sig");
        assert_eq!(m.hops, 9);
        let me = if k % 2 == 0 { "synth-agent" } else { "relay-agent" };
        assert_eq!(m.payload, me);
    }
    let in_rounds: Vec<u64> = sim.rounds.iter().flat_map(|r| ids(r)).collect();
    assert_eq!(in_rounds, ids(&sim.accepted));
    // Once each, in the order of the log, and not before the next round.
    let mut expected: Vec<u64> = vec![1];
    expected.extend(3..17u64);
    assert_eq!(heard.into_inner(), expected);
}

#[test]
fn answers_off_scope_reach_nobody() {
    let calls = RefCell::new(0u32);
    let sim = run_simulation(|_, _| {
        *calls.borrow_mut() += 1;
        Ok::<Vec<Message>, String>(vec![message(0, "x", "secret-ops", "leak", 3)])
    })
    .unwrap();
    assert_eq!(calls.into_inner(), 2);
    assert_eq!(sim.converged_round, Some(1));
    assert_eq!(sim.accepted.len(), 2);
    // One secret in the first round, three in the second, for two agents.
    assert_eq!(sim.dropped_caps, 8);
    assert_eq!(sim.dropped_echo, 0);
}

#[test]
fn silent_component_converges_at_once() {
    let sim = run_simulation(|_, _| Ok::<Vec<Message>, String>(Vec::new())).unwrap();
    assert_eq!(sim.converged_round, Some(0));
    assert!(sim.accepted.is_empty());
    assert!(sim.rounds.is_empty());
    assert_eq!(sim.dropped_caps, 2);
}

#[test]
fn claimed_sender_decides_the_echo() {
    // Everything claims to come from the first agent: it hears none of it.
    let heard = RefCell::new(Vec::new());
    let sim = run_simulation(|me: String, inbox: Vec<Message>| {
        heard.borrow_mut().push((me, ids(&inbox)));
        Ok::<Vec<Message>, String>(vec![message(0, "synth-agent", "build-coord", "p", 1)])
    })
    .unwrap();
    let heard = heard.into_inner();
    assert_eq!(heard[2], ("relay-agent".to_string(), vec![3, 4]));
    assert_eq!(heard[3], ("relay-agent".to_string(), vec![5]));
    assert_eq!(heard.iter().filter(|(me, _)| me == "synth-agent").count(), 1);
    assert_eq!(sim.converged_round, None);
}

#[test]
fn identifiers_end_with_the_machine_range() {
    let own = |me: String, inbox: Vec<Message>| Ok::<Vec<Message>, String>(Component::coordinate(me, inbox));
    let table = vec![grant("a", &["c"])];
    let seeds = vec![message(1, "m", "c", "go", 1)];
    let fits = simulate(own, &table, seeds.clone(), u64::MAX - 1, 4).unwrap();
    assert_eq!(fits.accepted[0].id, u64::MAX - 1);
    let out = simulate(own, &table, seeds, u64::MAX, 4);
    assert!(matches!(out, Err(SimError::Counters)));
}

#[test]
fn run_can_be_played_step_by_step() {
    let table = standard_table();
    let seeds = vec![message(1, "m", "build-coord", "go", 2), message(2, "m", "other", "no", 2)];
    let mut sim = Simulation::new(seeds, 10);
    assert!(!sim.has_converged());

    assert!(sim.room_to_look(&table, 0));
    let inbox = sim.look_for(&table, 0).unwrap();
    assert_eq!(ids(&inbox), vec![1]);
    assert!(sim.room_to_answer(2));
    sim.answer(vec![
        message(5, "synth-agent", "build-coord", "one", 1),
        message(5, "synth-agent", "build-coord", "two", 1),
    ]);
    let inbox = sim.look_for(&table, 1).unwrap();
    assert_eq!(ids(&inbox), vec![1]);
    sim.answer(Vec::new());
    sim.end_round();
    assert!(!sim.has_converged());

    // The first agent hears nothing new, so there is no call for it.
    assert!(sim.look_for(&table, 0).is_none());
    let inbox = sim.look_for(&table, 1).unwrap();
    assert_eq!(ids(&inbox), vec![10, 11]);
    sim.answer(Vec::new());
    sim.end_round();
    assert!(sim.has_converged());

    let out = sim.outcome();
    assert_eq!(out.converged_round, Some(1));
    assert_eq!(ids(&out.accepted), vec![10, 11]);
    assert_eq!(out.accepted[1].payload, "two");
    assert_eq!(out.rounds.len(), 1);
    assert_eq!(out.dropped_caps, 4);
    assert_eq!(out.dropped_echo, 2);
}

#[test]
fn no_component_is_called_out_of_scope() {
    // Answers on every channel and under every name, and on the secret one too.
    let sim = run_simulation(|me: String, inbox: Vec<Message>| {
        assert!(me == "synth-agent" || me == "relay-agent");
        assert!(!inbox.is_empty());
        for m in &inbox {
            assert_eq!(m.channel, "build-coord");
            assert_ne!(m.sender, me);
        }
        Ok::<Vec<Message>, String>(vec![
            message(0, "synth-agent", "build-coord", "a", 1),
            message(0, "relay-agent", "build-coord", "b", 1),
            message(0, "maintainer", "secret-ops", "c", 1),
            message(0, &me, "", "d", 1),
        ])
    })
    .unwrap();
    assert_eq!(sim.rounds.len(), 8);
    assert_eq!(sim.converged_round, None);
}
