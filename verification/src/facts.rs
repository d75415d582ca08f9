//! The durable record: every accepted message as a fact in a YAML document.
//! Texts are written as JSON strings, which are YAML scalars on one line, so
//! that nothing that a message says can add to the document's structure.

use vstd::prelude::*;

use crate::message;
use crate::message::{Wire, WireView};
use crate::number;
use crate::number::to_padded_decimal;
use crate::text;

verus! {

/// A character inside a JSON string. The quote, the backslash and the control
/// characters are escaped; all others stand for themselves.
pub open spec fn json_escape(c: char) -> Seq<char> {
    if c == '"' {
        seq!['\\', '"']
    } else if c == '\\' {
        seq!['\\', '\\']
    } else if c == '\u{8}' {
        seq!['\\', 'b']
    } else if c == '\u{9}' {
        seq!['\\', 't']
    } else if c == '\u{a}' {
        seq!['\\', 'n']
    } else if c == '\u{c}' {
        seq!['\\', 'f']
    } else if c == '\u{d}' {
        seq!['\\', 'r']
    } else if c <= '\u{1f}' {
        seq![
            '\\',
            'u',
            '0',
            '0',
            number::digit(c as int / 16),
            number::digit(c as int % 16),
        ]
    } else {
        seq![c]
    }
}

/// The characters of `s` inside a JSON string.
pub open spec fn json_escaped(s: Seq<char>) -> Seq<char>
    decreases s.len(),
{
    if s.len() == 0 {
        seq![]
    } else {
        json_escape(s[0]) + json_escaped(s.drop_first())
    }
}

/// `s` as a JSON string, quotes included.
pub open spec fn json_string(s: Seq<char>) -> Seq<char> {
    seq!['"'] + json_escaped(s) + seq!['"']
}

/// The error type of the JSON writer.
#[verifier::external_type_specification]
#[verifier::external_body]
pub struct ExJsonError(serde_json::Error);

/// Calls `serde_json::to_string` on a text. Writing a string into memory cannot
/// fail, and the result is the text as a JSON string: in quotes, with the quote,
/// the backslash and the control characters escaped, the latter in their short
/// form where there is one, else as `\u00` and two lower-case hexadecimal digits.
#[verifier::external_body]
fn json_text(s: &str) -> (written: Result<String, serde_json::Error>)
    ensures
        written is Ok,
        written->Ok_0@ == json_string(s@),
{
    serde_json::to_string(s)
}

/// `s` as a quoted scalar.
pub fn quoted(s: &str) -> (scalar: String)
    ensures
        scalar@ == json_string(s@),
{
    match json_text(s) {
        Ok(scalar) => scalar,
        Err(_) => "\"\"".to_owned(),
    }
}

/// The first line of a record.
pub open spec fn title() -> Seq<char> {
    "# agora coordination facts — mirrored into rivet (the durable, auditable record)"@
}

/// The lines of one fact.
pub open spec fn fact_lines(w: WireView) -> Seq<Seq<char>> {
    seq![
        "  - id: COORD-"@ + number::padded_decimal(w.id as nat, 4),
        "    type: coordination-fact"@,
        "    sender: "@ + json_string(w.sender),
        "    channel: "@ + json_string(w.channel),
        "    act: "@ + json_string(w.act),
        "    sig: "@ + json_string(w.sig),
        "    payload: "@ + json_string(w.payload),
    ]
}

/// The lines of a record: two lines of head, then those of each fact.
pub open spec fn record_lines(facts: Seq<WireView>) -> Seq<Seq<char>>
    decreases facts.len(),
{
    if facts.len() == 0 {
        seq![title(), "artifacts:"@]
    } else {
        record_lines(facts.drop_last()) + fact_lines(facts.last())
    }
}

/// Lines as one text, each ended by a line feed.
pub open spec fn joined(lines: Seq<Seq<char>>) -> Seq<char>
    decreases lines.len(),
{
    if lines.len() == 0 {
        seq![]
    } else {
        (joined(lines.drop_last()) + lines.last()).push('\n')
    }
}

/// The record of a list of messages.
pub open spec fn record(facts: Seq<WireView>) -> Seq<char> {
    joined(record_lines(facts))
}

/// Joining lines after lines.
proof fn lemma_joined_add(a: Seq<Seq<char>>, b: Seq<Seq<char>>)
    ensures
        joined(a + b) == joined(a) + joined(b),
    decreases b.len(),
{
    if b.len() == 0 {
        assert(a + b =~= a);
        assert(joined(a) + joined(b) =~= joined(a));
    } else {
        lemma_joined_add(a, b.drop_last());
        assert((a + b).drop_last() =~= a + b.drop_last());
        assert((a + b).last() == b.last());
        assert(joined(a + b) =~= joined(a) + joined(b));
    }
}

/// Appends a line that consists of a label and a quoted text.
fn push_line(record: &mut String, label: &str, value: &str)
    ensures
        final(record)@ == old(record)@ + joined(seq![label@ + json_string(value@)]),
{
    let scalar = quoted(value);
    record.append(label);
    record.append(scalar.as_str());
    record.append("\n");
    proof {
        reveal_strlit("\n");
        lemma_joined_one(label@ + json_string(value@));
    }
    assert(record@ =~= old(record)@ + joined(seq![label@ + json_string(value@)]));
}

/// One line on its own.
proof fn lemma_joined_one(line: Seq<char>)
    ensures
        joined(seq![line]) == line.push('\n'),
{
    let none = Seq::<Seq<char>>::empty();
    assert(seq![line].drop_last() =~= none);
    assert(joined(none) + line =~= line);
}

/// Appends the lines of one fact.
fn push_fact(record: &mut String, w: &Wire)
    ensures
        final(record)@ == old(record)@ + joined(fact_lines(w@)),
{
    let number = to_padded_decimal(w.id);
    record.append("  - id: COORD-");
    record.append(number.as_str());
    record.append("\n");
    record.append("    type: coordination-fact");
    record.append("\n");
    let ghost l = fact_lines(w@);
    proof {
        reveal_strlit("\n");
        lemma_joined_one(l[0]);
        lemma_joined_one(l[1]);
        assert(record@ =~= old(record)@ + joined(seq![l[0]]) + joined(seq![l[1]]));
    }
    push_line(record, "    sender: ", w.sender.as_str());
    push_line(record, "    channel: ", w.channel.as_str());
    push_line(record, "    act: ", w.act.as_str());
    push_line(record, "    sig: ", w.sig.as_str());
    push_line(record, "    payload: ", w.payload.as_str());
    proof {
        lemma_joined_add(seq![l[0]], seq![l[1]]);
        lemma_joined_add(seq![l[0]] + seq![l[1]], seq![l[2]]);
        lemma_joined_add(seq![l[0]] + seq![l[1]] + seq![l[2]], seq![l[3]]);
        lemma_joined_add(seq![l[0]] + seq![l[1]] + seq![l[2]] + seq![l[3]], seq![l[4]]);
        lemma_joined_add(
            seq![l[0]] + seq![l[1]] + seq![l[2]] + seq![l[3]] + seq![l[4]],
            seq![l[5]],
        );
        lemma_joined_add(
            seq![l[0]] + seq![l[1]] + seq![l[2]] + seq![l[3]] + seq![l[4]] + seq![l[5]],
            seq![l[6]],
        );
        assert(l =~= seq![l[0]] + seq![l[1]] + seq![l[2]] + seq![l[3]] + seq![l[4]] + seq![l[5]]
            + seq![l[6]]);
        assert(record@ =~= old(record)@ + joined(l));
    }
}

/// The record of the accepted messages, in their order.
pub fn render_facts(accepted: &Vec<Wire>) -> (text: String)
    ensures
        text@ == record(message::wires_view(accepted@)),
{
    let ghost facts = message::wires_view(accepted@);
    let mut text = "# agora coordination facts — mirrored into rivet (the durable, auditable record)".to_owned();
    text.append("\n");
    text.append("artifacts:");
    text.append("\n");
    proof {
        reveal_strlit("\n");
        lemma_joined_one(title());
        lemma_joined_one("artifacts:"@);
        lemma_joined_add(seq![title()], seq!["artifacts:"@]);
        assert(seq![title()] + seq!["artifacts:"@] =~= seq![title(), "artifacts:"@]);
        assert(facts.take(0) =~= Seq::<WireView>::empty());
        assert(text@ =~= record(facts.take(0)));
    }
    let mut i: usize = 0;
    while i < accepted.len()
        invariant
            i <= accepted@.len(),
            facts == message::wires_view(accepted@),
            text@ == record(facts.take(i as int)),
        decreases accepted@.len() - i,
    {
        push_fact(&mut text, &accepted[i]);
        proof {
            let next = facts.take(i + 1);
            assert(next.drop_last() =~= facts.take(i as int));
            assert(next.last() == accepted@[i as int]@);
            lemma_joined_add(record_lines(next.drop_last()), fact_lines(next.last()));
        }
        i = i + 1;
    }
    assert(facts.take(i as int) =~= facts);
    text
}

/// The record grows by one fact for each message, and by nothing else: the empty
/// record is its two lines of head, and a message more adds seven lines, with its
/// number and its sender, channel, act, signature and payload, in that order.
pub proof fn law_each_message_adds_a_fact(facts: Seq<WireView>, w: WireView)
    ensures
        record(Seq::<WireView>::empty())
            == "# agora coordination facts — mirrored into rivet (the durable, auditable record)"@
            + "\n"@ + "artifacts:"@ + "\n"@,
        record(facts.push(w)) == record(facts) + "  - id: COORD-"@ + number::padded_decimal(
            w.id as nat,
            4,
        ) + "\n"@ + "    type: coordination-fact"@ + "\n"@ + "    sender: "@ + json_string(w.sender)
            + "\n"@ + "    channel: "@ + json_string(w.channel) + "\n"@ + "    act: "@ + json_string(
            w.act,
        ) + "\n"@ + "    sig: "@ + json_string(w.sig) + "\n"@ + "    payload: "@ + json_string(
            w.payload,
        ) + "\n"@,
{
    reveal_strlit("\n");
    lemma_joined_one(title());
    lemma_joined_one("artifacts:"@);
    lemma_joined_add(seq![title()], seq!["artifacts:"@]);
    assert(seq![title()] + seq!["artifacts:"@] =~= seq![title(), "artifacts:"@]);
    assert(record(Seq::<WireView>::empty())
        =~= "# agora coordination facts — mirrored into rivet (the durable, auditable record)"@
        + "\n"@ + "artifacts:"@ + "\n"@);
    assert(facts.push(w).drop_last() =~= facts);
    let l = fact_lines(w);
    let none = Seq::<char>::empty();
    let l0 = record_lines(facts);
    let l1 = l0.push(l[0]);
    let l2 = l1.push(l[1]);
    let l3 = l2.push(l[2]);
    let l4 = l3.push(l[3]);
    let l5 = l4.push(l[4]);
    let l6 = l5.push(l[5]);
    assert(l0 + l =~= l6.push(l[6]));
    lemma_joined_push(l0, "  - id: COORD-"@, number::padded_decimal(w.id as nat, 4));
    lemma_joined_push(l1, "    type: coordination-fact"@, none);
    assert("    type: coordination-fact"@ + none =~= "    type: coordination-fact"@);
    assert(joined(l1) + "    type: coordination-fact"@ + none =~= joined(l1)
        + "    type: coordination-fact"@);
    lemma_joined_push(l2, "    sender: "@, json_string(w.sender));
    lemma_joined_push(l3, "    channel: "@, json_string(w.channel));
    lemma_joined_push(l4, "    act: "@, json_string(w.act));
    lemma_joined_push(l5, "    sig: "@, json_string(w.sig));
    lemma_joined_push(l6, "    payload: "@, json_string(w.payload));
}

/// One line more, of two pieces.
proof fn lemma_joined_push(lines: Seq<Seq<char>>, label: Seq<char>, value: Seq<char>)
    ensures
        joined(lines.push(label + value)) == joined(lines) + label + value + "\n"@,
{
    reveal_strlit("\n");
    assert(lines.push(label + value).drop_last() =~= lines);
    assert((joined(lines) + (label + value)).push('\n') =~= joined(lines) + label + value + "\n"@);
}

/// Quoting goes character by character. A plain character stands for itself; the
/// quote and the backslash have a backslash in front; of the control characters,
/// five have a letter of their own and the others are spelled by their number.
pub proof fn law_quoting_goes_by_characters(s: Seq<char>, c: char)
    ensures
        json_string(Seq::<char>::empty()) == seq!['"', '"'],
        c >= ' ' && c != '"' && c != '\\' ==> json_string(s.push(c)) == json_string(s).drop_last()
            + seq![c, '"'],
        c == '"' ==> json_string(s.push(c)) == json_string(s).drop_last() + seq!['\\', '"', '"'],
        c == '\\' ==> json_string(s.push(c)) == json_string(s).drop_last() + seq!['\\', '\\', '"'],
        c == '\n' ==> json_string(s.push(c)) == json_string(s).drop_last() + seq!['\\', 'n', '"'],
        c == '\r' ==> json_string(s.push(c)) == json_string(s).drop_last() + seq!['\\', 'r', '"'],
        c == '\t' ==> json_string(s.push(c)) == json_string(s).drop_last() + seq!['\\', 't', '"'],
        c as int == 8 ==> json_string(s.push(c)) == json_string(s).drop_last() + seq![
            '\\',
            'b',
            '"',
        ],
        c as int == 12 ==> json_string(s.push(c)) == json_string(s).drop_last() + seq![
            '\\',
            'f',
            '"',
        ],
        ({
            let n = c as int;
            n < 32 && !(8 <= n <= 10) && !(12 <= n <= 13) ==> json_string(s.push(c))
                == json_string(s).drop_last() + seq![
                '\\',
                'u',
                '0',
                '0',
                "0123456789abcdef"@[n / 16],
                "0123456789abcdef"@[n % 16],
                '"',
            ]
        }),
{
    lemma_escaped_push(s, c);
    assert(json_string(Seq::<char>::empty()) =~= seq!['"', '"']);
    let tail = json_escape(c) + seq!['"'];
    assert(json_string(s).drop_last() =~= seq!['"'] + json_escaped(s));
    assert(json_string(s.push(c)) =~= json_string(s).drop_last() + tail);
    if c >= ' ' && c != '"' && c != '\\' {
        assert(tail =~= seq![c, '"']);
    } else {
        assert(json_escape(c).len() == 2 ==> tail =~= seq![
            json_escape(c)[0],
            json_escape(c)[1],
            '"',
        ]);
        assert(json_escape(c).len() == 6 ==> tail =~= seq![
            json_escape(c)[0],
            json_escape(c)[1],
            json_escape(c)[2],
            json_escape(c)[3],
            json_escape(c)[4],
            json_escape(c)[5],
            '"',
        ]);
    }
}

proof fn lemma_escaped_push(s: Seq<char>, c: char)
    ensures
        json_escaped(s.push(c)) == json_escaped(s) + json_escape(c),
    decreases s.len(),
{
    let t = s.push(c);
    if s.len() == 0 {
        assert(t.drop_first() =~= Seq::<char>::empty());
        assert(json_escaped(Seq::<char>::empty()) =~= Seq::<char>::empty());
        assert(json_escaped(s) =~= Seq::<char>::empty());
        assert(t[0] == c);
        assert(json_escaped(t) =~= json_escaped(s) + json_escape(c));
    } else {
        lemma_escaped_push(s.drop_first(), c);
        assert(t.drop_first() =~= s.drop_first().push(c));
        assert(t[0] == s[0]);
        assert(json_escaped(t) =~= json_escaped(s) + json_escape(c));
    }
}

} // verus!
