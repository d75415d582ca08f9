use agora::agent::{fnv1a, Component};
use agora::capability::{standard_table, Grant};
use agora::channel::{control_plane, is_safe_channel, kill_subject, subject_for};
use agora::envelope::envelope;
use agora::message::{act_str, parse_act, to_message, Act, Message, Wire};
use agora::scenario::run_simulation;
use agora::seen::SeenSet;
use agora::simulation::{screen_log, simulate, stamp};

fn message(id: u64, sender: &str, channel: &str, payload: &str, hops: u32) -> Message {
    Message {
        id,
        sender: sender.to_string(),
        channel: channel.to_string(),
        act: Act::Request,
        payload: payload.to_string(),
        sig: "human".to_string(),
        hops,
    }
}

fn grant(agent: &str, channels: &[&str]) -> Grant {
    Grant {
        agent: agent.to_string(),
        channels: channels.iter().map(|c| c.to_string()).collect(),
    }
}

fn own(me: String, inbox: Vec<Message>) -> Result<Vec<Message>, String> {
    Ok(Component::coordinate(me, inbox))
}

#[test]
fn cross_talk_controls_hold() {
    let sim = run_simulation(own).expect("simulation runs the wasm component");

    // Capability channel-scoping: the ungranted `secret-ops` message is never
    // delivered. Two agents, one such message, four rounds.
    assert_eq!(sim.dropped_caps, 8, "every `secret-ops` delivery must be blocked");

    // Unconditional self-echo filter.
    assert_eq!(sim.dropped_echo, 12, "self-echo filter must drop every own-message");

    // Hop count: the exchange ends instead of running to the round cap.
    assert!(sim.converged_round.is_some(), "cascade must converge, not hit the round cap");
    assert!(sim.converged_round.unwrap() < 7, "cascade must die at the hop limit");

    // Exactly the accepted messages are mirrored as facts.
    assert_eq!(sim.accepted.len(), 6, "6 signed coordination facts expected");

    for m in &sim.accepted {
        assert_eq!(m.channel, "build-coord", "no fact may land off the granted channel");
    }
}

#[test]
fn channel_validator_rejects_subject_injection() {
    for ok in ["build-coord", "secret_ops", "ch-1", "A1"] {
        assert!(is_safe_channel(ok), "{ok} should be a valid channel");
    }
    for bad in ["", "secret.ops", "build-coord.>", "build-coord.*", "a b", "x>y", "a*", "../etc"] {
        assert!(!is_safe_channel(bad), "{bad} must be rejected (injection)");
    }
}

#[test]
fn scenario_is_recorded_message_by_message() {
    let sim = run_simulation(own).unwrap();
    assert_eq!(sim.converged_round, Some(3));
    let ids: Vec<u64> = sim.accepted.iter().map(|m| m.id).collect();
    assert_eq!(ids, vec![3, 4, 5, 6, 7, 8]);
    let hops: Vec<u32> = sim.accepted.iter().map(|m| m.hops).collect();
    assert_eq!(hops, vec![2, 2, 1, 1, 0, 0]);
    let senders: Vec<&str> = sim.accepted.iter().map(|m| m.sender.as_str()).collect();
    assert_eq!(
        senders,
        vec!["synth-agent", "relay-agent", "synth-agent", "relay-agent", "synth-agent", "relay-agent"]
    );
    assert_eq!(sim.accepted[0].payload, "ack[synth-agent] <- ship v0.1?");
    assert_eq!(
        sim.accepted[3].payload,
        "ack[relay-agent] <- ack[synth-agent] <- ship v0.1?"
    );
    assert_eq!(sim.rounds.len(), 3);
    for round in &sim.rounds {
        assert_eq!(round.len(), 2);
    }
    assert_eq!(sim.rounds[1][0].id, 5);
}

#[test]
fn secret_never_reaches_an_agent() {
    let sim = run_simulation(own).unwrap();
    for m in &sim.accepted {
        assert!(!m.payload.contains("SECRET"));
    }
}

#[test]
fn channel_length_is_limited_in_bytes() {
    let longest = "a".repeat(128);
    assert!(is_safe_channel(&longest));
    let too_long = "a".repeat(129);
    assert!(!is_safe_channel(&too_long));
    assert!(!is_safe_channel("caf\u{e9}"));
    assert!(!is_safe_channel("a\n"));
    assert!(is_safe_channel("_"));
    assert!(is_safe_channel("-"));
    assert!(is_safe_channel("azAZ09"));
}

#[test]
fn every_character_is_judged_alike() {
    for code in 0..0x3000u32 {
        if let Some(c) = char::from_u32(code) {
            let name = c.to_string();
            let expected = c.is_ascii_alphanumeric() || c == '-' || c == '_';
            assert_eq!(is_safe_channel(&name), expected, "character {code}");
        }
    }
}

#[test]
fn subjects_and_control_plane() {
    assert_eq!(subject_for("build-coord"), "agora.build-coord");
    assert_eq!(subject_for(""), "agora.");
    assert_eq!(control_plane(), "agora._control.>");
    assert_eq!(kill_subject(), "agora._control.kill");
    // A safe channel has a subject of two levels, the control plane of three.
    assert!(is_safe_channel("_control"));
    assert_eq!(subject_for("_control").split('.').count(), 2);
    assert!(!is_safe_channel("_control.kill"));
}

#[test]
fn consumers_are_filtered_to_the_granted_channel() {
    let table = standard_table();
    assert_eq!(table.len(), 2);
    assert_eq!(table[0].agent, "synth-agent");
    assert_eq!(table[1].agent, "relay-agent");
    for g in &table {
        assert_eq!(g.filter_subject(), "agora.build-coord");
        assert!(g.allows("build-coord"));
        assert!(!g.allows("secret-ops"));
        assert!(!g.allows("build-coor"));
    }
    assert_eq!(table[1].consumer_name(), "agent-relay-agent");
}

#[test]
fn hash_of_known_texts() {
    assert_eq!(fnv1a(""), 0xcbf2_9ce4_8422_2325);
    assert_eq!(fnv1a("a"), 0xaf63_dc4c_8601_ec8c);
    assert_eq!(fnv1a("foobar"), 0x8594_4171_f739_67e8);
    assert_eq!(fnv1a("\u{e9}\u{2192}"), 0xba65_a810_a537_922d);
}

#[test]
fn agent_answers_live_messages_only() {
    let inbox = vec![
        message(7, "maintainer", "build-coord", "ship v0.1?", 3),
        message(8, "maintainer", "build-coord", "too late", 0),
        message(9, "maintainer", "other", "last hop", 1),
    ];
    let out = Component::coordinate("synth-agent".to_string(), inbox);
    assert_eq!(out.len(), 2);
    assert_eq!(out[0].id, 0);
    assert_eq!(out[0].sender, "synth-agent");
    assert_eq!(out[0].channel, "build-coord");
    assert_eq!(out[0].act, Act::Inform);
    assert_eq!(out[0].payload, "ack[synth-agent] <- ship v0.1?");
    assert_eq!(out[0].sig, "sigil-stub:synth-agent:2cfdec1b3d4708f1");
    assert_eq!(out[0].hops, 2);
    assert_eq!(out[1].channel, "other");
    assert_eq!(out[1].hops, 0);
    assert!(Component::coordinate("a".to_string(), vec![message(1, "b", "c", "d", 0)]).is_empty());
}

#[test]
fn speech_acts_round_trip() {
    for act in [Act::Inform, Act::Request, Act::Propose, Act::Agree, Act::Refuse] {
        assert_eq!(parse_act(act_str(&act)), act);
    }
    assert_eq!(act_str(&Act::Refuse), "refuse");
    assert_eq!(parse_act("shout"), Act::Inform);
    assert_eq!(parse_act("Request"), Act::Inform);
    assert_eq!(parse_act(""), Act::Inform);
}

#[test]
fn delivery_is_scoped_and_once() {
    let g = grant("me", &["here"]);
    let log = vec![
        message(1, "you", "here", "one", 1),
        message(2, "you", "there", "off scope", 1),
        message(3, "me", "here", "own", 1),
        message(1, "you", "here", "same identifier", 1),
        message(4, "me", "there", "own, off scope", 1),
    ];
    let mut seen = SeenSet::new();
    let first = screen_log(&g, &log, &mut seen);
    assert_eq!(first.inbox.len(), 1);
    assert_eq!(first.inbox[0].payload, "one");
    assert_eq!(first.off_scope, 2);
    assert_eq!(first.echoes, 1);
    let second = screen_log(&g, &log, &mut seen);
    assert!(second.inbox.is_empty());
    assert_eq!(second.off_scope, 2);
    assert_eq!(second.echoes, 1);
}

#[test]
fn seen_pairs_are_told_apart() {
    let mut seen = SeenSet::new();
    assert!(seen.insert("a", 1));
    assert!(seen.insert("a", 2));
    assert!(seen.insert("b", 1));
    assert!(!seen.insert("a", 1));
    assert!(!seen.insert("b", 1));
}

#[test]
fn stamps_are_consecutive() {
    let out = stamp(
        vec![message(0, "a", "c", "x", 1), message(0, "b", "c", "y", 1)],
        41,
    );
    assert_eq!(out[0].id, 41);
    assert_eq!(out[1].id, 42);
    assert_eq!(out[1].payload, "y");
}

#[test]
fn exchange_ends_with_the_hop_budget() {
    for hops in 0..5u32 {
        let table = vec![grant("a", &["c"]), grant("b", &["c"]), grant("d", &["c"])];
        let sim = simulate(own, &table, vec![message(1, "m", "c", "go", hops)], 2, 10).unwrap();
        assert_eq!(sim.converged_round, Some(hops as usize));
        assert_eq!(sim.rounds.len(), hops as usize);
        for (r, round) in sim.rounds.iter().enumerate() {
            for m in round {
                assert!(m.hops as usize + r < hops as usize);
            }
        }
    }
}

#[test]
fn a_run_can_be_cut_short() {
    let table = vec![grant("a", &["c"]), grant("b", &["c"])];
    let sim = simulate(own, &table, vec![message(1, "m", "c", "go", 9)], 2, 3).unwrap();
    assert_eq!(sim.converged_round, None);
    assert_eq!(sim.accepted.len(), 6);
    let none = simulate(own, &table, vec![message(1, "m", "c", "go", 9)], 2, 0).unwrap();
    assert_eq!(none.converged_round, None);
    assert!(none.accepted.is_empty());
}

#[test]
fn nothing_is_said_without_grants() {
    let table = vec![grant("a", &[]), grant("b", &["elsewhere"])];
    let sim = simulate(own, &table, vec![message(1, "m", "c", "go", 9)], 2, 5).unwrap();
    assert_eq!(sim.converged_round, Some(0));
    assert_eq!(sim.dropped_caps, 2);
    assert_eq!(sim.dropped_echo, 0);
}

#[test]
fn envelopes_carry_subject_and_identifier() {
    let w = Wire {
        id: 1234567890123456789,
        sender: "a".to_string(),
        channel: "build-coord".to_string(),
        act: "agree".to_string(),
        payload: "p".to_string(),
        sig: "s".to_string(),
        hops: 2,
    };
    let e = envelope(&w);
    assert_eq!(e.subject, "agora.build-coord");
    assert_eq!(e.msg_id, "1234567890123456789");
    let m = to_message(w.clone());
    assert_eq!(m.act, Act::Agree);
    assert_eq!(m.id, w.id);
    assert_eq!(m.payload, "p");
    assert_eq!(m.hops, 2);
}
