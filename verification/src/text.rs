//! Plain-text helpers: comparing, cutting and numbering strings, each with a
//! contract over the sequence of characters that a string views as.

use vstd::prelude::*;
use vstd::utf8::*;

verus! {

/// What a list of strings says.
pub open spec fn texts(strings: Seq<String>) -> Seq<Seq<char>> {
    strings.map_values(|s: String| s@)
}

/// What an optional string says.
pub open spec fn option_text(text: Option<String>) -> Option<Seq<char>> {
    match text {
        Some(s) => Some(s@),
        None => None,
    }
}

/// The characters of `s`, in order.
pub fn chars_of(s: &str) -> (chars: Vec<char>)
    ensures
        chars@ == s@,
{
    let mut chars: Vec<char> = Vec::new();
    for c in it: s.chars()
        invariant
            it.seq() == s@,
            chars@ == s@.take(it.index() as int),
    {
        chars.push(c);
    }
    chars
}

/// Whether `a` and `b` hold the same text.
pub fn same_text(a: &str, b: &str) -> (same: bool)
    ensures
        same == (a@ == b@),
{
    let left = a.as_bytes();
    let right = b.as_bytes();
    proof {
        encode_utf8_decode_utf8(a@);
        encode_utf8_decode_utf8(b@);
    }
    if left.len() != right.len() {
        return false;
    }
    let mut i: usize = 0;
    while i < left.len()
        invariant
            i <= left@.len(),
            left@.len() == right@.len(),
            left@ == encode_utf8(a@),
            right@ == encode_utf8(b@),
            forall|j: int| 0 <= j < i ==> left@[j] == right@[j],
        decreases left@.len() - i,
    {
        if left[i] != right[i] {
            return false;
        }
        i = i + 1;
    }
    assert(left@ =~= right@);
    true
}

/// Whether `a` stands before `b` in dictionary order: at the first place where
/// they differ, `a` has the lower character or has ended.
pub open spec fn before(a: Seq<char>, b: Seq<char>) -> bool
    decreases a.len(),
{
    if b.len() == 0 {
        false
    } else if a.len() == 0 {
        true
    } else if a[0] != b[0] {
        a[0] < b[0]
    } else {
        before(a.drop_first(), b.drop_first())
    }
}

/// No text stands before itself.
pub proof fn lemma_before_irreflexive(a: Seq<char>)
    ensures
        !before(a, a),
    decreases a.len(),
{
    if a.len() > 0 {
        lemma_before_irreflexive(a.drop_first());
    }
}

/// The order is transitive.
pub proof fn lemma_before_transitive(a: Seq<char>, b: Seq<char>, c: Seq<char>)
    requires
        before(a, b),
        before(b, c),
    ensures
        before(a, c),
    decreases a.len(),
{
    if a.len() > 0 && a[0] == b[0] && b[0] == c[0] {
        lemma_before_transitive(a.drop_first(), b.drop_first(), c.drop_first());
    }
}

/// Of two different texts one stands before the other.
pub proof fn lemma_before_total(a: Seq<char>, b: Seq<char>)
    requires
        !before(a, b),
        a != b,
    ensures
        before(b, a),
    decreases a.len(),
{
    if a.len() == 0 || b.len() == 0 {
        assert(a.len() == 0 && b.len() == 0 ==> a =~= b);
    } else if a[0] == b[0] {
        if a.drop_first() == b.drop_first() {
            assert(a =~= seq![a[0]] + a.drop_first());
            assert(b =~= seq![b[0]] + b.drop_first());
        }
        lemma_before_total(a.drop_first(), b.drop_first());
    }
}

/// Whether `a` stands before `b` in dictionary order.
pub fn comes_before(a: &str, b: &str) -> (earlier: bool)
    ensures
        earlier == before(a@, b@),
{
    let left = chars_of(a);
    let right = chars_of(b);
    let mut i: usize = 0;
    assert(a@.skip(0) =~= a@);
    assert(b@.skip(0) =~= b@);
    while i < left.len() && i < right.len() && left[i] == right[i]
        invariant
            left@ == a@,
            right@ == b@,
            i <= left@.len(),
            i <= right@.len(),
            before(a@, b@) == before(a@.skip(i as int), b@.skip(i as int)),
        decreases left@.len() - i,
    {
        assert(a@.skip(i as int).drop_first() =~= a@.skip(i + 1));
        assert(b@.skip(i as int).drop_first() =~= b@.skip(i + 1));
        i = i + 1;
    }
    if i >= right.len() {
        false
    } else if i >= left.len() {
        true
    } else {
        left[i] < right[i]
    }
}

/// Whether `c` has the Unicode property `White_Space`.
pub open spec fn is_white_space(c: char) -> bool {
    ||| '\u{9}' <= c <= '\u{d}'
    ||| c == ' '
    ||| c == '\u{85}'
    ||| c == '\u{a0}'
    ||| c == '\u{1680}'
    ||| '\u{2000}' <= c <= '\u{200a}'
    ||| c == '\u{2028}'
    ||| c == '\u{2029}'
    ||| c == '\u{202f}'
    ||| c == '\u{205f}'
    ||| c == '\u{3000}'
}

/// `s` without the white space at its start.
pub open spec fn without_leading_space(s: Seq<char>) -> Seq<char>
    decreases s.len(),
{
    if s.len() > 0 && is_white_space(s[0]) {
        without_leading_space(s.drop_first())
    } else {
        s
    }
}

/// `s` without the white space at its end.
pub open spec fn without_trailing_space(s: Seq<char>) -> Seq<char>
    decreases s.len(),
{
    if s.len() > 0 && is_white_space(s.last()) {
        without_trailing_space(s.drop_last())
    } else {
        s
    }
}

/// `s` without the white space at its start and at its end.
pub open spec fn trimmed(s: Seq<char>) -> Seq<char> {
    without_trailing_space(without_leading_space(s))
}

/// Whether `c` has the Unicode property `White_Space`.
fn white_space(c: char) -> (white: bool)
    ensures
        white == is_white_space(c),
{
    ('\u{9}' <= c && c <= '\u{d}') || c == ' ' || c == '\u{85}' || c == '\u{a0}' || c == '\u{1680}'
        || ('\u{2000}' <= c && c <= '\u{200a}') || c == '\u{2028}' || c == '\u{2029}' || c
        == '\u{202f}' || c == '\u{205f}' || c == '\u{3000}'
}

/// `s` without the white space around it.
pub fn trim(s: &str) -> (inner: &str)
    ensures
        inner@ == trimmed(s@),
{
    let chars = chars_of(s);
    let mut from: usize = 0;
    assert(s@.skip(0) =~= s@);
    while from < chars.len() && white_space(chars[from])
        invariant
            chars@ == s@,
            from <= chars@.len(),
            without_leading_space(s@) == without_leading_space(s@.skip(from as int)),
        decreases chars@.len() - from,
    {
        assert(s@.skip(from as int).drop_first() =~= s@.skip(from + 1));
        from = from + 1;
    }
    let ghost rest = s@.skip(from as int);
    assert(without_leading_space(s@) == rest);
    let mut to: usize = chars.len();
    assert(rest.take(to - from) =~= rest);
    while from < to && white_space(chars[to - 1])
        invariant
            chars@ == s@,
            from <= to <= chars@.len(),
            rest == s@.skip(from as int),
            without_trailing_space(rest) == without_trailing_space(rest.take(to - from)),
        decreases to,
    {
        assert(rest.take(to - from).drop_last() =~= rest.take(to - 1 - from));
        assert(rest.take(to - from).last() == chars@[to - 1]);
        to = to - 1;
    }
    assert(rest.take(to - from).len() > 0 ==> rest.take(to - from).last() == chars@[to - 1]);
    assert(rest.take(to - from) =~= s@.subrange(from as int, to as int));
    s.substring_char(from, to)
}

/// The part of `s` in front of the first colon; all of `s` if it has none.
pub open spec fn up_to_colon(s: Seq<char>) -> Seq<char>
    decreases s.len(),
{
    if s.len() == 0 || s[0] == ':' {
        seq![]
    } else {
        seq![s[0]] + up_to_colon(s.drop_first())
    }
}

/// The part of `s` in front of the first colon; all of `s` if it has none.
pub fn before_colon(s: &str) -> (head: &str)
    ensures
        head@ == up_to_colon(s@),
{
    let chars = chars_of(s);
    let mut to: usize = 0;
    assert(s@.take(0) + up_to_colon(s@.skip(0)) =~= up_to_colon(s@)) by {
        assert(s@.skip(0) =~= s@);
    }
    while to < chars.len() && chars[to] != ':'
        invariant
            chars@ == s@,
            to <= chars@.len(),
            up_to_colon(s@) == s@.take(to as int) + up_to_colon(s@.skip(to as int)),
        decreases chars@.len() - to,
    {
        assert(s@.skip(to as int).drop_first() =~= s@.skip(to + 1));
        assert(s@.take(to + 1) =~= s@.take(to as int).push(s@[to as int]));
        assert(s@.take(to + 1) + up_to_colon(s@.skip(to + 1)) =~= s@.take(to as int) + (seq![
            s@[to as int],
        ] + up_to_colon(s@.skip(to + 1))));
        to = to + 1;
    }
    assert(up_to_colon(s@) =~= s@.take(to as int));
    s.substring_char(0, to)
}

/// Whether `s` begins with `head`.
pub fn begins_with(s: &str, head: &str) -> (yes: bool)
    ensures
        yes == head@.is_prefix_of(s@),
{
    let chars = chars_of(s);
    let wanted = chars_of(head);
    if chars.len() < wanted.len() {
        return false;
    }
    let mut i: usize = 0;
    while i < wanted.len()
        invariant
            chars@ == s@,
            wanted@ == head@,
            wanted@.len() <= chars@.len(),
            i <= wanted@.len(),
            forall|j: int| 0 <= j < i ==> wanted@[j] == chars@[j],
        decreases wanted@.len() - i,
    {
        if chars[i] != wanted[i] {
            assert(s@.subrange(0, head@.len() as int)[i as int] != head@[i as int]);
            return false;
        }
        i = i + 1;
    }
    assert(s@.subrange(0, head@.len() as int) =~= head@);
    true
}

/// The parts of `s` between its separators.
pub open spec fn split(s: Seq<char>, separator: char) -> Seq<Seq<char>>
    decreases s.len(),
{
    if s.len() == 0 {
        seq![Seq::<char>::empty()]
    } else {
        let done = split(s.drop_last(), separator);
        if s.last() == separator {
            done.push(Seq::<char>::empty())
        } else {
            done.drop_last().push(done.last().push(s.last()))
        }
    }
}

/// Characters other than the separator go to the last part.
pub proof fn lemma_split_extend(s: Seq<char>, more: Seq<char>, separator: char)
    requires
        forall|i: int| 0 <= i < more.len() ==> #[trigger] more[i] != separator,
    ensures
        split(s, separator).len() >= 1,
        split(s + more, separator) == split(s, separator).drop_last().push(
            split(s, separator).last() + more,
        ),
    decreases s.len() + more.len(),
{
    let t = split(s, separator);
    if more.len() > 0 {
        lemma_split_extend(s, more.drop_last(), separator);
        assert((s + more).drop_last() =~= s + more.drop_last());
        let shorter = t.drop_last().push(t.last() + more.drop_last());
        assert(shorter.drop_last() =~= t.drop_last());
        assert((t.last() + more.drop_last()).push(more.last()) =~= t.last() + more);
    } else {
        assert(s + more =~= s);
        if s.len() > 0 {
            lemma_split_extend(s.drop_last(), Seq::<char>::empty(), separator);
        }
        assert(t.last() + more =~= t.last());
        assert(t.drop_last().push(t.last()) =~= t);
    }
}

/// A separator, and a rest without separators, make one part more.
pub proof fn lemma_split_after(s: Seq<char>, more: Seq<char>, separator: char)
    requires
        forall|i: int| 0 <= i < more.len() ==> #[trigger] more[i] != separator,
    ensures
        split(s.push(separator) + more, separator) == split(s, separator).push(more),
{
    let ended = s.push(separator);
    lemma_split_extend(ended, more, separator);
    assert(ended.drop_last() =~= s);
    let t = split(s, separator);
    assert(split(ended, separator) == t.push(Seq::<char>::empty()));
    assert(t.push(Seq::<char>::empty()).drop_last() =~= t);
    assert(Seq::<char>::empty() + more =~= more);
}

/// The order is that of a dictionary: one text stands before another if and only
/// if, after a start that they share, it has ended and the other has not, or goes
/// on with a lower character.
pub proof fn law_dictionary_order(a: Seq<char>, b: Seq<char>)
    ensures
        before(a, b) <==> exists|k: int|
            {
                &&& 0 <= k <= a.len()
                &&& k < b.len()
                &&& #[trigger] a.take(k) == b.take(k)
                &&& k == a.len() || a[k] < b[k]
            },
    decreases a.len(),
{
    let witnessed = |k: int|
        {
            &&& 0 <= k <= a.len()
            &&& k < b.len()
            &&& a.take(k) == b.take(k)
            &&& k == a.len() || a[k] < b[k]
        };
    if b.len() > 0 && (a.len() == 0 || a[0] != b[0]) {
        assert(a.take(0) =~= b.take(0));
        if exists|k: int| #[trigger] a.take(k) == b.take(k) && witnessed(k) {
            let k = choose|k: int| #[trigger] a.take(k) == b.take(k) && witnessed(k);
            if k > 0 {
                assert(a.take(k)[0] == b.take(k)[0]);
            }
        }
    } else if a.len() > 0 && b.len() > 0 {
        let a1 = a.drop_first();
        let b1 = b.drop_first();
        law_dictionary_order(a1, b1);
        if before(a, b) {
            let k = choose|k: int|
                {
                    &&& 0 <= k <= a1.len()
                    &&& k < b1.len()
                    &&& #[trigger] a1.take(k) == b1.take(k)
                    &&& k == a1.len() || a1[k] < b1[k]
                };
            assert forall|i: int| 0 <= i < k + 1 implies a[i] == b[i] by {
                if i > 0 {
                    assert(a1.take(k)[i - 1] == b1.take(k)[i - 1]);
                }
            }
            assert(a.take(k + 1) =~= b.take(k + 1));
        }
        if exists|k: int| #[trigger] a.take(k) == b.take(k) && witnessed(k) {
            let k = choose|k: int| #[trigger] a.take(k) == b.take(k) && witnessed(k);
            assert(k > 0);
            assert forall|i: int| 0 <= i < k - 1 implies a1[i] == b1[i] by {
                assert(a.take(k)[i + 1] == b.take(k)[i + 1]);
            }
            assert(a1.take(k - 1) =~= b1.take(k - 1));
        }
    }
}

/// The characters that count as white space, by their numbers.
pub proof fn law_white_space(c: char)
    ensures
        is_white_space(c) <==> {
            let n = c as int;
            ||| 9 <= n <= 13
            ||| n == 0x20
            ||| n == 0x85
            ||| n == 0xa0
            ||| n == 0x1680
            ||| 0x2000 <= n <= 0x200a
            ||| n == 0x2028
            ||| n == 0x2029
            ||| n == 0x202f
            ||| n == 0x205f
            ||| n == 0x3000
        },
{
}

proof fn lemma_leading_space(s: Seq<char>) -> (from: int)
    ensures
        0 <= from <= s.len(),
        without_leading_space(s) == s.skip(from),
        forall|i: int| 0 <= i < from ==> is_white_space(#[trigger] s[i]),
        from < s.len() ==> !is_white_space(s[from]),
    decreases s.len(),
{
    if s.len() > 0 && is_white_space(s[0]) {
        let rest = s.drop_first();
        let from = lemma_leading_space(rest);
        assert(rest.skip(from) =~= s.skip(from + 1));
        assert forall|i: int| 0 <= i < from + 1 implies is_white_space(#[trigger] s[i]) by {
            if i > 0 {
                assert(rest[i - 1] == s[i]);
            }
        }
        from + 1
    } else {
        assert(s.skip(0) =~= s);
        0
    }
}

proof fn lemma_trailing_space(s: Seq<char>) -> (to: int)
    ensures
        0 <= to <= s.len(),
        without_trailing_space(s) == s.take(to),
        forall|i: int| to <= i < s.len() ==> is_white_space(#[trigger] s[i]),
        to > 0 ==> !is_white_space(s[to - 1]),
    decreases s.len(),
{
    if s.len() > 0 && is_white_space(s.last()) {
        let rest = s.drop_last();
        let to = lemma_trailing_space(rest);
        assert(rest.take(to) =~= s.take(to));
        assert forall|i: int| to <= i < s.len() implies is_white_space(#[trigger] s[i]) by {
            if i < rest.len() {
                assert(rest[i] == s[i]);
            }
        }
        to
    } else {
        assert(s.take(s.len() as int) =~= s);
        s.len() as int
    }
}

/// Trimming takes white space from both ends, all of it, and nothing else: what is
/// left is a part of the text, with nothing but white space in front of it and
/// behind it, and begins and ends otherwise.
pub proof fn law_trim_takes_outer_space(s: Seq<char>)
    ensures
        exists|from: int, to: int|
            {
                &&& 0 <= from <= to <= s.len()
                &&& trimmed(s) == #[trigger] s.subrange(from, to)
                &&& forall|i: int| 0 <= i < from ==> is_white_space(#[trigger] s[i])
                &&& forall|i: int| to <= i < s.len() ==> is_white_space(#[trigger] s[i])
                &&& from < to ==> !is_white_space(s[from]) && !is_white_space(s[to - 1])
            },
{
    let from = lemma_leading_space(s);
    let rest = s.skip(from);
    let n = lemma_trailing_space(rest);
    let to = from + n;
    assert(rest.take(n) =~= s.subrange(from, to));
    assert forall|i: int| to <= i < s.len() implies is_white_space(#[trigger] s[i]) by {
        assert(rest[i - from] == s[i]);
    }
    if from < to {
        assert(rest[n - 1] == s[to - 1]);
    }
}

/// The part in front of the first colon is where the text starts, holds no colon,
/// and ends at a colon or with the text.
pub proof fn law_head_ends_at_the_first_colon(s: Seq<char>)
    ensures
        up_to_colon(s).len() <= s.len(),
        up_to_colon(s) == s.take(up_to_colon(s).len() as int),
        forall|i: int| 0 <= i < up_to_colon(s).len() ==> #[trigger] s[i] != ':',
        up_to_colon(s).len() < s.len() ==> s[up_to_colon(s).len() as int] == ':',
    decreases s.len(),
{
    let head = up_to_colon(s);
    if s.len() > 0 && s[0] != ':' {
        let rest = s.drop_first();
        law_head_ends_at_the_first_colon(rest);
        let tail = up_to_colon(rest);
        assert forall|i: int| 0 <= i < head.len() implies #[trigger] s[i] != ':' by {
            if i > 0 {
                assert(rest[i - 1] == s[i]);
            }
        }
        assert forall|i: int| 0 <= i < head.len() implies head[i] == s[i] by {
            if i > 0 {
                assert(head[i] == tail[i - 1]);
                assert(tail[i - 1] == rest.take(tail.len() as int)[i - 1]);
            }
        }
        assert(head =~= s.take(head.len() as int));
        if head.len() < s.len() {
            assert(rest[tail.len() as int] == s[head.len() as int]);
        }
    } else {
        assert(head =~= s.take(0));
    }
}

/// What a list of strings, and an optional string, say is what the strings say.
pub proof fn law_texts_are_the_strings(strings: Seq<String>, i: int, text: Option<String>)
    ensures
        texts(strings).len() == strings.len(),
        0 <= i < strings.len() ==> texts(strings)[i] == strings[i]@,
        text is Some <==> option_text(text) is Some,
        text is Some ==> option_text(text)->0 == text->0@,
{
}

} // verus!
