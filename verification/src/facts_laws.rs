//! What the record guarantees of every message that it mirrors.

use vstd::prelude::*;

use crate::facts;
use crate::message::WireView;
use crate::number;
use crate::text;

verus! {

/// What is written for one character holds no control character, and never
/// begins with a quote.
proof fn lemma_escape_is_plain(c: char)
    ensures
        facts::json_escape(c).len() >= 1,
        facts::json_escape(c)[0] != '"',
        forall|i: int|
            0 <= i < facts::json_escape(c).len() ==> #[trigger] facts::json_escape(c)[i] >= ' ',
{
    if c <= '\u{1f}' {
        lemma_digits();
    }
}

/// The sixteen digits.
proof fn lemma_digits()
    ensures
        forall|d: int| 0 <= d < 16 ==> #[trigger] number::digit(d) >= '0',
        forall|d: int, e: int|
            0 <= d < 16 && 0 <= e < 16 && d != e ==> #[trigger] number::digit(d)
                != #[trigger] number::digit(e),
{
    reveal_strlit("0123456789abcdef");
}

/// A quoted scalar begins and ends with a quote and holds no control character,
/// above all no line feed: whatever the text, it stays on one line.
pub proof fn law_scalar_is_one_line(s: Seq<char>)
    ensures
        facts::json_string(s).len() >= 2,
        facts::json_string(s)[0] == '"',
        facts::json_string(s).last() == '"',
        forall|i: int|
            0 <= i < facts::json_string(s).len() ==> #[trigger] facts::json_string(s)[i] >= ' ',
{
    lemma_escaped_is_plain(s);
    let inner = facts::json_escaped(s);
    assert forall|i: int| 0 <= i < facts::json_string(s).len() implies #[trigger] facts::json_string(
        s,
    )[i] >= ' ' by {
        if 1 <= i <= inner.len() {
            assert(facts::json_string(s)[i] == inner[i - 1]);
        }
    }
}

proof fn lemma_escaped_is_plain(s: Seq<char>)
    ensures
        forall|i: int|
            0 <= i < facts::json_escaped(s).len() ==> #[trigger] facts::json_escaped(s)[i] >= ' ',
    decreases s.len(),
{
    if s.len() > 0 {
        lemma_escape_is_plain(s[0]);
        lemma_escaped_is_plain(s.drop_first());
        let first = facts::json_escape(s[0]);
        let rest = facts::json_escaped(s.drop_first());
        assert forall|i: int| 0 <= i < facts::json_escaped(s).len() implies #[trigger] facts::json_escaped(
            s,
        )[i] >= ' ' by {
            if i < first.len() {
                assert(facts::json_escaped(s)[i] == first[i]);
            } else {
                assert(facts::json_escaped(s)[i] == rest[i - first.len()]);
            }
        }
    }
}

/// What is written for a character says which character it was, and where it
/// ends.
proof fn lemma_escape_reads_back(a: char, more_a: Seq<char>, b: char, more_b: Seq<char>)
    requires
        facts::json_escape(a) + more_a == facts::json_escape(b) + more_b,
    ensures
        a == b,
        more_a == more_b,
{
    let x = facts::json_escape(a);
    let y = facts::json_escape(b);
    let all = x + more_a;
    lemma_digits();
    assert(all[0] == x[0] && all[0] == y[0]);
    if x.len() > 1 {
        assert(all[1] == x[1]);
    }
    if y.len() > 1 {
        assert((y + more_b)[1] == y[1]);
    }
    if x.len() == 6 && y.len() == 6 {
        assert(all[4] == x[4] && (y + more_b)[4] == y[4]);
        assert(all[5] == x[5] && (y + more_b)[5] == y[5]);
        assert(a as int / 16 == b as int / 16);
        assert(a as int % 16 == b as int % 16);
    }
    assert(a == b);
    assert(all.skip(x.len() as int) =~= more_a);
    assert((y + more_b).skip(y.len() as int) =~= more_b);
}

proof fn lemma_escaped_reads_back(a: Seq<char>, more_a: Seq<char>, b: Seq<char>, more_b: Seq<char>)
    requires
        facts::json_escaped(a) + seq!['"'] + more_a == facts::json_escaped(b) + seq!['"'] + more_b,
    ensures
        a == b,
        more_a == more_b,
    decreases a.len(),
{
    let quote = seq!['"'];
    let left = facts::json_escaped(a) + quote + more_a;
    let right = facts::json_escaped(b) + quote + more_b;
    if a.len() > 0 {
        lemma_escape_is_plain(a[0]);
        assert(left =~= facts::json_escape(a[0]) + (facts::json_escaped(a.drop_first()) + quote
            + more_a));
        assert(left[0] == facts::json_escape(a[0])[0]);
    } else {
        assert(left =~= quote + more_a);
        assert(left[0] == '"');
    }
    if b.len() > 0 {
        lemma_escape_is_plain(b[0]);
        assert(right =~= facts::json_escape(b[0]) + (facts::json_escaped(b.drop_first()) + quote
            + more_b));
        assert(right[0] == facts::json_escape(b[0])[0]);
    } else {
        assert(right =~= quote + more_b);
        assert(right[0] == '"');
    }
    if a.len() > 0 && b.len() > 0 {
        lemma_escape_reads_back(
            a[0],
            facts::json_escaped(a.drop_first()) + quote + more_a,
            b[0],
            facts::json_escaped(b.drop_first()) + quote + more_b,
        );
        lemma_escaped_reads_back(a.drop_first(), more_a, b.drop_first(), more_b);
        assert(a =~= seq![a[0]] + a.drop_first());
        assert(b =~= seq![b[0]] + b.drop_first());
    } else {
        assert(a =~= b);
        assert(left.skip(1) =~= more_a);
        assert(right.skip(1) =~= more_b);
    }
}

/// A quoted scalar says exactly which text was quoted, and where it ends,
/// whatever follows it: no text can be read as another, nor break out of its
/// quotes.
pub proof fn law_scalar_reads_back(a: Seq<char>, more_a: Seq<char>, b: Seq<char>, more_b: Seq<char>)
    requires
        facts::json_string(a) + more_a == facts::json_string(b) + more_b,
    ensures
        a == b,
        more_a == more_b,
{
    let quote = seq!['"'];
    let left = facts::json_string(a) + more_a;
    let right = facts::json_string(b) + more_b;
    assert(left.skip(1) =~= facts::json_escaped(a) + quote + more_a);
    assert(right.skip(1) =~= facts::json_escaped(b) + quote + more_b);
    lemma_escaped_reads_back(a, more_a, b, more_b);
}

/// Whether a text holds no line feed.
pub open spec fn one_line(s: Seq<char>) -> bool {
    forall|i: int| 0 <= i < s.len() ==> #[trigger] s[i] != '\n'
}

proof fn lemma_decimal_is_one_line(n: nat)
    ensures
        one_line(number::decimal(n)),
    decreases n,
{
    lemma_digits();
    if n >= 10 {
        lemma_decimal_is_one_line(n / 10);
    }
}

proof fn lemma_one_line_add(a: Seq<char>, b: Seq<char>)
    requires
        one_line(a),
        one_line(b),
    ensures
        one_line(a + b),
{
    assert forall|i: int| 0 <= i < (a + b).len() implies #[trigger] (a + b)[i] != '\n' by {
        if i < a.len() {
            assert((a + b)[i] == a[i]);
        } else {
            assert((a + b)[i] == b[i - a.len()]);
        }
    }
}

proof fn lemma_scalar_one_line(s: Seq<char>)
    ensures
        one_line(facts::json_string(s)),
{
    law_scalar_is_one_line(s);
    assert forall|i: int| 0 <= i < facts::json_string(s).len() implies #[trigger] facts::json_string(
        s,
    )[i] != '\n' by {
        assert(facts::json_string(s)[i] >= ' ');
    }
}

/// The labels of a fact are on one line.
proof fn lemma_labels()
    ensures
        one_line("  - id: COORD-"@),
        one_line("    type: coordination-fact"@),
        one_line("    sender: "@),
        one_line("    channel: "@),
        one_line("    act: "@),
        one_line("    sig: "@),
        one_line("    payload: "@),
        one_line("artifacts:"@),
{
    reveal_strlit("  - id: COORD-");
    reveal_strlit("    type: coordination-fact");
    reveal_strlit("    sender: ");
    reveal_strlit("    channel: ");
    reveal_strlit("    act: ");
    reveal_strlit("    sig: ");
    reveal_strlit("    payload: ");
    reveal_strlit("artifacts:");
}

proof fn lemma_title()
    ensures
        one_line(facts::title()),
{
    reveal_strlit(
        "# agora coordination facts — mirrored into rivet (the durable, auditable record)",
    );
}

proof fn lemma_fact_lines_are_lines(w: WireView)
    ensures
        forall|i: int| 0 <= i < 7 ==> one_line(#[trigger] facts::fact_lines(w)[i]),
        facts::fact_lines(w).len() == 7,
{
    lemma_labels();
    let zeros = Seq::new(
        if number::decimal(w.id as nat).len() < 4 {
            (4 - number::decimal(w.id as nat).len()) as nat
        } else {
            0
        },
        |i: int| '0',
    );
    lemma_decimal_is_one_line(w.id as nat);
    assert(one_line(zeros));
    lemma_one_line_add(zeros, number::decimal(w.id as nat));
    assert(number::padded_decimal(w.id as nat, 4) =~= zeros + number::decimal(w.id as nat));
    lemma_one_line_add("  - id: COORD-"@, number::padded_decimal(w.id as nat, 4));
    lemma_scalar_one_line(w.sender);
    lemma_scalar_one_line(w.channel);
    lemma_scalar_one_line(w.act);
    lemma_scalar_one_line(w.sig);
    lemma_scalar_one_line(w.payload);
    lemma_one_line_add("    sender: "@, facts::json_string(w.sender));
    lemma_one_line_add("    channel: "@, facts::json_string(w.channel));
    lemma_one_line_add("    act: "@, facts::json_string(w.act));
    lemma_one_line_add("    sig: "@, facts::json_string(w.sig));
    lemma_one_line_add("    payload: "@, facts::json_string(w.payload));
}

proof fn lemma_record_lines_are_lines(messages: Seq<WireView>)
    ensures
        facts::record_lines(messages).len() == 2 + 7 * messages.len(),
        forall|i: int|
            0 <= i < facts::record_lines(messages).len() ==> one_line(
                #[trigger] facts::record_lines(messages)[i],
            ),
    decreases messages.len(),
{
    lemma_labels();
    lemma_title();
    if messages.len() > 0 {
        let head = facts::record_lines(messages.drop_last());
        let tail = facts::fact_lines(messages.last());
        lemma_record_lines_are_lines(messages.drop_last());
        lemma_fact_lines_are_lines(messages.last());
        assert forall|i: int| 0 <= i < facts::record_lines(messages).len() implies one_line(
            #[trigger] facts::record_lines(messages)[i],
        ) by {
            if i < head.len() {
                assert(facts::record_lines(messages)[i] == head[i]);
            } else {
                assert(facts::record_lines(messages)[i] == tail[i - head.len()]);
            }
        }
    }
}

/// Splitting joined lines at the line feeds gives the lines back, and the empty
/// text after the last line feed.
proof fn lemma_split_joined(lines: Seq<Seq<char>>)
    requires
        forall|i: int| 0 <= i < lines.len() ==> one_line(#[trigger] lines[i]),
    ensures
        text::split(facts::joined(lines), '\n') == lines.push(Seq::<char>::empty()),
    decreases lines.len(),
{
    let none = Seq::<char>::empty();
    if lines.len() == 0 {
        assert(seq![none] =~= lines.push(none));
    } else {
        let head = lines.drop_last();
        let last = lines.last();
        assert forall|i: int| 0 <= i < head.len() implies one_line(#[trigger] head[i]) by {
            assert(head[i] == lines[i]);
        }
        lemma_split_joined(head);
        assert(one_line(lines[lines.len() - 1]));
        text::lemma_split_extend(facts::joined(head), last, '\n');
        let t = text::split(facts::joined(head), '\n');
        assert(t.drop_last() =~= head);
        assert(none + last =~= last);
        let s = facts::joined(head) + last;
        assert(text::split(s, '\n') =~= lines);
        assert(s.push('\n').drop_last() =~= s);
    }
}

/// A record has exactly two lines of head and seven lines for each message, as
/// the messages' order has it: whatever a message says, it cannot add a line,
/// and so cannot add a fact.
pub proof fn law_record_cannot_be_forged(messages: Seq<WireView>)
    ensures
        text::split(facts::record(messages), '\n') == facts::record_lines(messages).push(
            Seq::<char>::empty(),
        ),
        facts::record_lines(messages).len() == 2 + 7 * messages.len(),
{
    lemma_record_lines_are_lines(messages);
    lemma_split_joined(facts::record_lines(messages));
}

/// Where the lines of a fact stand in the record.
proof fn lemma_fact_place(messages: Seq<WireView>, k: int, j: int)
    requires
        0 <= k < messages.len(),
        0 <= j < 7,
    ensures
        facts::record_lines(messages)[2 + 7 * k + j] == facts::fact_lines(messages[k])[j],
    decreases messages.len(),
{
    let shorter = messages.drop_last();
    lemma_record_lines_are_lines(shorter);
    if k < shorter.len() {
        lemma_fact_place(shorter, k, j);
        assert(shorter[k] == messages[k]);
    }
}

/// A label and a scalar say which text was quoted.
proof fn lemma_labelled_reads_back(label: Seq<char>, a: Seq<char>, b: Seq<char>)
    requires
        label + facts::json_string(a) == label + facts::json_string(b),
    ensures
        a == b,
{
    let none = Seq::<char>::empty();
    let n = label.len() as int;
    assert((label + facts::json_string(a)).skip(n) =~= facts::json_string(a) + none);
    assert((label + facts::json_string(b)).skip(n) =~= facts::json_string(b) + none);
    law_scalar_reads_back(a, none, b, none);
}

/// Whether two messages say the same in all that a record holds.
pub open spec fn same_fact(a: WireView, b: WireView) -> bool {
    &&& a.id == b.id
    &&& a.sender == b.sender
    &&& a.channel == b.channel
    &&& a.act == b.act
    &&& a.sig == b.sig
    &&& a.payload == b.payload
}

/// Nothing is lost in the record: two lists of messages with the same record are
/// equally long and say the same, message by message.
pub proof fn law_record_is_lossless(a: Seq<WireView>, b: Seq<WireView>)
    requires
        facts::record(a) == facts::record(b),
    ensures
        a.len() == b.len(),
        forall|k: int| 0 <= k < a.len() ==> same_fact(#[trigger] a[k], b[k]),
{
    law_record_cannot_be_forged(a);
    law_record_cannot_be_forged(b);
    let none = Seq::<char>::empty();
    assert(facts::record_lines(a).push(none).drop_last() =~= facts::record_lines(a));
    assert(facts::record_lines(b).push(none).drop_last() =~= facts::record_lines(b));
    assert forall|k: int| 0 <= k < a.len() implies same_fact(#[trigger] a[k], b[k]) by {
        let x = facts::fact_lines(a[k]);
        let y = facts::fact_lines(b[k]);
        assert forall|j: int| 0 <= j < 7 implies #[trigger] x[j] == y[j] by {
            lemma_fact_place(a, k, j);
            lemma_fact_place(b, k, j);
        }
        let n = "  - id: COORD-"@.len() as int;
        assert(x[0].skip(n) =~= number::padded_decimal(a[k].id as nat, 4));
        assert(y[0].skip(n) =~= number::padded_decimal(b[k].id as nat, 4));
        number::law_padded_decimal_injective(a[k].id as nat, b[k].id as nat);
        assert(x[2] == y[2] && x[3] == y[3] && x[4] == y[4] && x[5] == y[5] && x[6] == y[6]);
        lemma_labelled_reads_back("    sender: "@, a[k].sender, b[k].sender);
        lemma_labelled_reads_back("    channel: "@, a[k].channel, b[k].channel);
        lemma_labelled_reads_back("    act: "@, a[k].act, b[k].act);
        lemma_labelled_reads_back("    sig: "@, a[k].sig, b[k].sig);
        lemma_labelled_reads_back("    payload: "@, a[k].payload, b[k].payload);
    }
}

} // verus!
