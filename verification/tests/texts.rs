use agora::control::{demo_halt, halt_target, parse_halt};
use agora::facts::{quoted, render_facts};
use agora::lease::{lease_key, task_id};
use agora::message::Wire;
use agora::names::{NameSet, TaskLog};
use agora::number::{to_decimal, to_hex16, to_padded_decimal};
use agora::text::{before_colon, begins_with, chars_of, comes_before, same_text, trim};

fn wire(id: u64, sender: &str, payload: &str) -> Wire {
    Wire {
        id,
        sender: sender.to_string(),
        channel: "build-coord".to_string(),
        act: "inform".to_string(),
        payload: payload.to_string(),
        sig: "sig".to_string(),
        hops: 1,
    }
}

#[test]
fn fact_payload_cannot_inject_yaml() {
    let malicious = "x\"\n  - id: COORD-9999\n    type: coordination-fact\n    sender: admin";
    let encoded = quoted(malicious);
    assert!(encoded.starts_with('"') && encoded.ends_with('"'), "must be a quoted scalar");
    assert!(!encoded.contains('\n'), "encoded scalar must not contain a raw newline");
    let back: String = serde_json::from_str(&encoded).unwrap();
    assert_eq!(back, malicious);
}

#[test]
fn scalars_are_escaped() {
    assert_eq!(quoted(""), "\"\"");
    assert_eq!(quoted("plain"), "\"plain\"");
    assert_eq!(quoted("a\"b\\c"), "\"a\\\"b\\\\c\"");
    assert_eq!(quoted("\u{8}\t\n\u{c}\r"), "\"\\b\\t\\n\\f\\r\"");
    assert_eq!(quoted("\u{0}\u{b}\u{1f}"), "\"\\u0000\\u000b\\u001f\"");
    assert_eq!(quoted("\u{7f}/\u{e9}\u{2028}"), "\"\u{7f}/\u{e9}\u{2028}\"");
}

#[test]
fn scalars_read_back() {
    for code in 0..0x2100u32 {
        if let Some(c) = char::from_u32(code) {
            let text = format!("<{c}>");
            let encoded = quoted(&text);
            let back: String = serde_json::from_str(&encoded).unwrap();
            assert_eq!(back, text);
            assert!(encoded.chars().all(|x| x >= ' '));
        }
    }
}

#[test]
fn record_of_two_facts() {
    let text = render_facts(&vec![wire(4, "synth-agent", "HANDLED TASK#42"), wire(12345, "a\"b", "x\ny")]);
    let expected = "# agora coordination facts — mirrored into rivet (the durable, auditable record)\n\
artifacts:\n\
\x20 - id: COORD-0004\n    type: coordination-fact\n    sender: \"synth-agent\"\n    channel: \"build-coord\"\n    act: \"inform\"\n    sig: \"sig\"\n    payload: \"HANDLED TASK#42\"\n\
\x20 - id: COORD-12345\n    type: coordination-fact\n    sender: \"a\\\"b\"\n    channel: \"build-coord\"\n    act: \"inform\"\n    sig: \"sig\"\n    payload: \"x\\ny\"\n";
    assert_eq!(text, expected);
}

#[test]
fn record_has_seven_lines_for_each_fact() {
    let forged = "x\"\n  - id: COORD-9999\n    type: coordination-fact\n    sender: admin";
    for n in 0..4u64 {
        let facts: Vec<Wire> = (0..n).map(|i| wire(i, forged, forged)).collect();
        let text = render_facts(&facts);
        assert_eq!(text.lines().count() as u64, 2 + 7 * n);
        let ids = text.lines().filter(|l| l.starts_with("  - id: ")).count() as u64;
        assert_eq!(ids, n);
    }
}

#[test]
fn record_without_facts() {
    assert_eq!(
        render_facts(&Vec::new()),
        "# agora coordination facts — mirrored into rivet (the durable, auditable record)\nartifacts:\n"
    );
}

#[test]
fn records_tell_messages_apart() {
    let a = render_facts(&vec![wire(1, "a", "b")]);
    let b = render_facts(&vec![wire(1, "a", "b ")]);
    let c = render_facts(&vec![wire(10001, "a", "b")]);
    assert_ne!(a, b);
    assert_ne!(a, c);
}

#[test]
fn numbers_as_text() {
    for n in [0u64, 7, 10, 42, 99, 100, 999, 1000, 9999, 10000, 123456, u64::MAX] {
        assert_eq!(to_decimal(n), n.to_string());
        assert_eq!(to_padded_decimal(n), format!("{n:04}"));
        assert_eq!(to_hex16(n), format!("{n:016x}"));
    }
    assert_eq!(to_padded_decimal(7), "0007");
    assert_eq!(to_hex16(0xabc), "0000000000000abc");
}

#[test]
fn white_space_is_that_of_the_standard_library() {
    for code in 0..0x11_0000u32 {
        if let Some(c) = char::from_u32(code) {
            let text = format!("{c}x{c}");
            assert_eq!(trim(&text), text.trim(), "character {code}");
        }
    }
}

#[test]
fn trimming() {
    assert_eq!(trim(""), "");
    assert_eq!(trim(" \t\n "), "");
    assert_eq!(trim("  a b \u{3000}"), "a b");
    assert_eq!(trim("a"), "a");
}

#[test]
fn heads_and_prefixes() {
    assert_eq!(before_colon("TASK#42: cut: it"), "TASK#42");
    assert_eq!(before_colon("none"), "none");
    assert_eq!(before_colon(":x"), "");
    assert_eq!(before_colon(""), "");
    assert!(begins_with("TASK#1", "TASK"));
    assert!(begins_with("TASK", "TASK"));
    assert!(begins_with("x", ""));
    assert!(!begins_with("TAS", "TASK"));
    assert!(!begins_with("task", "TASK"));
    assert_eq!(chars_of("a\u{e9}\u{1f600}"), vec!['a', '\u{e9}', '\u{1f600}']);
}

#[test]
fn dictionary_order_is_that_of_the_standard_library() {
    let words = ["", "a", "ab", "b", "A", "\u{e9}", "e", "z", "\u{ffff}", "\u{10000}", "aa"];
    for x in words {
        for y in words {
            assert_eq!(comes_before(x, y), x < y, "{x} {y}");
            assert_eq!(same_text(x, y), x == y);
        }
    }
}

#[test]
fn names_are_kept_sorted_and_once() {
    let mut set = NameSet::new();
    for name in ["relay", "synth", "alpha", "relay", "\u{e9}"] {
        set.insert(name);
    }
    assert_eq!(set.sorted(), &vec!["alpha", "relay", "synth", "\u{e9}"]);
    assert!(set.contains("synth"));
    assert!(!set.contains("synt"));
    assert!(!NameSet::new().contains(""));
}

#[test]
fn handled_tasks_are_listed_in_order() {
    let mut log = TaskLog::new();
    assert!(log.lines().is_empty());
    log.insert("TASK#42", "synth");
    log.insert("TASK#1", "relay");
    log.insert("TASK#42", "other");
    assert_eq!(log.lines(), vec!["TASK#1→relay", "TASK#42→other"]);
}

#[test]
fn tasks_and_lease_keys() {
    assert_eq!(task_id("TASK#42: cut the release"), Some("TASK#42".to_string()));
    assert_eq!(task_id("TASK 7 : spaced"), Some("TASK 7".to_string()));
    assert_eq!(task_id("TASK"), Some("TASK".to_string()));
    assert_eq!(task_id("TASK:"), Some("TASK".to_string()));
    assert_eq!(task_id(" TASK#42: x"), None);
    assert_eq!(task_id("HANDLED TASK#42"), None);
    assert_eq!(task_id(""), None);
    assert_eq!(lease_key("TASK#42"), "TASK_42");
    assert_eq!(lease_key("TASK-1_a.b/c=d \u{e9}"), "TASK-1_a.b_c_d__");
    assert_eq!(lease_key("TASK_42"), "TASK_42");
}

#[test]
fn halts_name_their_agent() {
    assert_eq!(parse_halt(b"relay-agent"), Some("relay-agent".to_string()));
    assert_eq!(parse_halt(b"  relay-agent\r\n"), Some("relay-agent".to_string()));
    assert_eq!(parse_halt(b""), None);
    assert_eq!(parse_halt(b" \n"), None);
    assert_eq!(parse_halt(b"\xffrelay"), Some("\u{fffd}relay".to_string()));
    assert_eq!(parse_halt("\u{a0}caf\u{e9}".as_bytes()), Some("caf\u{e9}".to_string()));
    assert_eq!(halt_target(" x "), Some("x".to_string()));
    assert_eq!(halt_target("\t"), None);
}

#[test]
fn demonstration_halts_in_the_second_round() {
    let asked = Some("relay-agent".to_string());
    assert_eq!(demo_halt(0, asked.clone()), None);
    assert_eq!(demo_halt(1, asked.clone()), asked);
    assert_eq!(demo_halt(2, asked), None);
    assert_eq!(demo_halt(1, Some(String::new())), None);
    assert_eq!(demo_halt(1, None), None);
}
