use std::collections::HashMap;

use agora::agent::Component;
use agora::capability::{standard_table, Grant};
use agora::channel::subject_for;
use agora::host::{Cause, Decision, Host, Intake, Policy, ROUND_BUDGET};
use agora::message::{Act, Message, Wire};
use agora::scenario::{seed_wires, standard_host};

fn wire(id: u64, sender: &str, payload: &str) -> Wire {
    Wire {
        id,
        sender: sender.to_string(),
        channel: "build-coord".to_string(),
        act: "request".to_string(),
        payload: payload.to_string(),
        sig: "human".to_string(),
        hops: 2,
    }
}

fn emission(sender: &str, channel: &str, payload: &str) -> Message {
    Message {
        id: 99,
        sender: sender.to_string(),
        channel: channel.to_string(),
        act: Act::Propose,
        payload: payload.to_string(),
        sig: "s".to_string(),
        hops: 5,
    }
}

fn host(deadline: u32) -> Host {
    let policy = Policy {
        owner: "synth-agent".to_string(),
        topic: "topic".to_string(),
        deadline,
    };
    Host::new(standard_table(), policy, &vec![wire(10, "m", "x"), wire(3, "m", "y")])
}

/// Plays the host over a stream and a lease store that are kept in memory.
fn play(host: &mut Host, seeds: Vec<Wire>, halt: Option<&str>) -> (Vec<Wire>, Option<Decision>) {
    let mut stream = seeds;
    let mut read = vec![0usize; host.table.len()];
    let mut leases: HashMap<String, String> = HashMap::new();
    while host.may_go_on() {
        if host.round == 1 {
            if let Some(name) = halt {
                host.halt(name.as_bytes());
            }
        }
        for agent in 0..host.table.len() {
            if !host.begin_turn(agent) {
                continue;
            }
            let filter = host.table[agent].filter_subject();
            let me = host.table[agent].agent.clone();
            let available = stream.len();
            for at in read[agent]..available {
                let w = stream[at].clone();
                if subject_for(&w.channel) != filter {
                    continue;
                }
                if let Intake::Claim { task, key } = host.receive(w) {
                    let won = !leases.contains_key(&key);
                    if won {
                        leases.insert(key, me.clone());
                    }
                    if let Some(announced) = host.settle(&task, won) {
                        stream.push(announced);
                    }
                }
            }
            read[agent] = available;
            if let Some(inbox) = host.hand_over() {
                let out = Component::coordinate(me, inbox);
                stream.extend(host.emit(out));
            }
            host.end_turn();
        }
        if let Some(decision) = host.end_round() {
            stream.push(decision.wire.clone());
            return (stream, Some(decision));
        }
    }
    (stream, None)
}

#[test]
fn scenario_is_decided_at_the_deadline() {
    let mut host = standard_host();
    assert_eq!(host.next_id, 4);
    let (stream, decision) = play(&mut host, seed_wires(), None);
    let decision = decision.unwrap();
    assert_eq!(decision.cause, Cause::Deadline);
    assert_eq!(decision.wire.sender, "synth-agent");
    assert_eq!(decision.wire.payload, "DECISION[ship v0.1?] = AGREED");
    assert_eq!(decision.verdict, "AGREED");
    assert_eq!(decision.wire.sig, "sigil-stub:synth-agent:decision");
    assert_eq!(decision.wire.act, "inform");
    assert_eq!(decision.wire.hops, 0);
    assert!(host.decided);
    assert_eq!(host.round, 1);
    assert_eq!(host.engaged.sorted(), &vec!["relay-agent", "synth-agent"]);

    // The task was handled once, by the agent that came first.
    assert_eq!(host.dropped_dup, 1);
    assert_eq!(host.task_done.lines(), vec!["TASK#42→synth-agent"]);
    let handled: Vec<&Wire> =
        host.accepted.iter().filter(|w| w.payload == "HANDLED TASK#42").collect();
    assert_eq!(handled.len(), 1);
    assert_eq!(handled[0].sig, "sigil-stub:synth-agent:task");

    // Identifiers are consecutive, and everything accepted is on the stream.
    for (i, w) in host.accepted.iter().enumerate() {
        assert_eq!(w.id, 4 + i as u64);
        assert_eq!(w.channel, "build-coord");
    }
    assert_eq!(stream.len(), 3 + host.accepted.len());
    assert_eq!(host.dropped_emit, 0);
    assert!(host.dropped_echo > 0);
}

#[test]
fn halted_agent_is_silent() {
    let mut host = standard_host();
    let (_, decision) = play(&mut host, seed_wires(), Some(" relay-agent\n"));
    assert!(decision.is_some());
    assert_eq!(host.killed.sorted(), &vec!["relay-agent"]);
    assert!(!host.begin_turn(1));
    assert!(host.turn.is_none());
    assert!(host.begin_turn(0));
}

#[test]
fn quiet_rounds_converge() {
    let mut host = host(100);
    let (stream, decision) = play(&mut host, vec![wire(10, "m", "go")], None);
    let decision = decision.unwrap();
    assert_eq!(decision.cause, Cause::Convergence);
    assert_eq!(host.produced, 0);
    assert_eq!(stream.last().unwrap().payload, "DECISION[topic] = AGREED");
}

#[test]
fn identifiers_follow_those_of_the_seeds() {
    assert_eq!(host(1).next_id, 11);
    let policy = Policy { owner: "o".to_string(), topic: "t".to_string(), deadline: 1 };
    let empty: Vec<Grant> = Vec::new();
    assert_eq!(Host::new(empty, policy, &Vec::new()).next_id, 1);
}

#[test]
fn deliveries_are_told_apart() {
    let mut host = host(2);
    assert!(host.begin_turn(0));
    assert!(matches!(host.receive(wire(1, "synth-agent", "own")), Intake::Echo));
    assert!(matches!(host.receive(wire(2, "relay-agent", "hello")), Intake::Queued));
    assert!(matches!(host.receive(wire(2, "relay-agent", "hello")), Intake::Repeated));
    match host.receive(wire(3, "m", "TASK#7: do")) {
        Intake::Claim { task, key } => {
            assert_eq!(task, "TASK#7");
            assert_eq!(key, "TASK_7");
        }
        _ => panic!("a task must be claimed"),
    }
    assert!(matches!(host.receive(wire(3, "m", "TASK#7: do")), Intake::Repeated));
    assert_eq!(host.dropped_echo, 1);
    let inbox = host.hand_over().unwrap();
    assert_eq!(inbox.len(), 1);
    assert_eq!(inbox[0].payload, "hello");
    assert_eq!(inbox[0].act, Act::Request);
    assert!(host.hand_over().is_none());
    host.end_turn();
    // The other agent has not been given the same message.
    assert!(host.begin_turn(1));
    assert!(matches!(host.receive(wire(3, "m", "TASK#7: do")), Intake::Claim { .. }));
}

#[test]
fn lost_leases_announce_nothing() {
    let mut host = host(2);
    assert!(host.begin_turn(1));
    assert!(host.settle("TASK#7", false).is_none());
    assert_eq!(host.dropped_dup, 1);
    assert!(host.accepted.is_empty());
    let w = host.settle("TASK#8", true).unwrap();
    assert_eq!(w.id, 11);
    assert_eq!(w.sender, "relay-agent");
    assert_eq!(w.payload, "HANDLED TASK#8");
    assert_eq!(host.next_id, 12);
    assert_eq!(host.produced, 1);
}

#[test]
fn emissions_are_scoped_and_named_by_the_host() {
    let mut host = host(2);
    assert!(host.begin_turn(1));
    let wires = host.emit(vec![
        emission("synth-agent", "build-coord", "first"),
        emission("relay-agent", "secret-ops", "not granted"),
        emission("relay-agent", "build-coord.>", "not safe"),
        emission("admin", "build-coord", "second"),
    ]);
    assert_eq!(wires.len(), 2);
    assert_eq!(wires[0].id, 11);
    assert_eq!(wires[1].id, 12);
    for w in &wires {
        assert_eq!(w.sender, "relay-agent");
        assert_eq!(w.channel, "build-coord");
        assert_eq!(w.act, "propose");
        assert_eq!(w.hops, 5);
    }
    assert_eq!(wires[1].payload, "second");
    assert_eq!(host.dropped_emit, 2);
    assert_eq!(host.engaged.sorted(), &vec!["relay-agent"]);
    assert_eq!(host.accepted.len(), 2);
}

#[test]
fn unsafe_channels_are_blocked_even_if_granted() {
    let table = vec![Grant { agent: "a".to_string(), channels: vec!["x.y".to_string()] }];
    let policy = Policy { owner: "a".to_string(), topic: "t".to_string(), deadline: 1 };
    let mut host = Host::new(table, policy, &Vec::new());
    assert!(host.begin_turn(0));
    assert!(host.emit(vec![emission("a", "x.y", "p")]).is_empty());
    assert_eq!(host.dropped_emit, 1);
    assert!(host.engaged.sorted().is_empty());
}

#[test]
fn deadline_bounds_the_rounds() {
    for deadline in 0..4u32 {
        let mut host = host(deadline);
        let mut rounds = 0u32;
        loop {
            assert!(host.begin_turn(0));
            host.emit(vec![emission("a", "build-coord", "still talking")]);
            host.end_turn();
            rounds += 1;
            if host.end_round().is_some() {
                break;
            }
        }
        assert_eq!(rounds, deadline.max(1));
        assert!(host.decided);
    }
}

#[test]
fn room_is_measured() {
    let mut host = host(2);
    assert!(host.has_room_for(1));
    host.next_id = u64::MAX - 1;
    assert!(host.has_room_for(1));
    assert!(!host.has_room_for(2));
    host.next_id = 1;
    host.dropped_echo = u32::MAX;
    assert!(!host.has_room_for(1));
    assert!(host.has_room_for(0));
}

#[test]
fn unreadable_halts_do_nothing() {
    let mut host = host(2);
    host.halt(b" \n");
    assert!(host.killed.sorted().is_empty());
    host.halt(b"\xff");
    assert_eq!(host.killed.sorted(), &vec!["\u{fffd}"]);
    host.halt_agent(None);
    host.halt_agent(Some("relay-agent".to_string()));
    assert_eq!(host.killed.sorted(), &vec!["relay-agent", "\u{fffd}"]);
}

#[test]
fn round_budget_ends_an_undecided_run() {
    let mut host = host(100);
    let mut rounds = 0u32;
    while host.may_go_on() {
        assert!(host.begin_turn(0));
        host.receive(wire(100 + rounds as u64, "m", "go"));
        host.hand_over();
        assert_eq!(host.emit(vec![emission("synth-agent", "build-coord", "more")]).len(), 1);
        host.end_turn();
        assert!(host.end_round().is_none());
        rounds += 1;
    }
    assert_eq!(rounds, 8);
    assert_eq!(rounds, ROUND_BUDGET);
    assert!(!host.decided);
}

#[test]
fn no_round_follows_the_decision() {
    let mut host = standard_host();
    assert!(host.may_go_on());
    let (_, decision) = play(&mut host, seed_wires(), None);
    assert!(decision.is_some());
    assert_eq!(host.round, 1);
    assert!(!host.may_go_on());
}
