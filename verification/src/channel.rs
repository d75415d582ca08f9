//! Channel names and the subjects that they are published under.

use vstd::prelude::*;
use vstd::utf8::*;

use crate::text;
use crate::text::chars_of;

verus! {

/// The longest channel name that is accepted, in bytes.
pub const MAX_CHANNEL_BYTES: usize = 128;

/// A letter, a digit, `-` or `_`: the characters of a single subject token.
pub open spec fn is_token_char(c: char) -> bool {
    ||| 'a' <= c <= 'z'
    ||| 'A' <= c <= 'Z'
    ||| '0' <= c <= '9'
    ||| c == '-'
    ||| c == '_'
}

/// A channel name that is a single safe subject token: not empty, not too
/// long, and made of token characters only.
pub open spec fn safe_channel(name: Seq<char>) -> bool {
    &&& 1 <= name.len() <= MAX_CHANNEL_BYTES
    &&& forall|i: int| 0 <= i < name.len() ==> #[trigger] is_token_char(name[i])
}

/// The subject of a channel: `agora.` followed by the channel's name.
pub open spec fn channel_subject(name: Seq<char>) -> Seq<char> {
    "agora."@ + name
}

/// The subjects that the control plane listens to.
pub fn control_plane() -> (filter: &'static str)
    ensures
        filter@ == control_filter(),
{
    "agora._control.>"
}

/// The subject under which an operator halts an agent.
pub fn kill_subject() -> (subject: &'static str)
    ensures
        subject@ == halt_subject(),
{
    "agora._control.kill"
}

/// The subject that messages of `channel` are published under.
pub fn subject_for(channel: &str) -> (subject: String)
    ensures
        subject@ == channel_subject(channel@),
{
    let mut subject = "agora.".to_owned();
    subject.append(channel);
    subject
}

/// Whether `c` is a single safe subject token: not empty, at most 128 bytes,
/// and made of ASCII letters, digits, `-` and `_` only. A name with a `.`, a
/// wildcard or white space in it is refused, so no channel name can add subject
/// levels or match more than itself.
pub fn is_safe_channel(c: &str) -> (safe: bool)
    ensures
        safe == safe_channel(c@),
{
    proof {
        if safe_channel(c@) {
            assert forall|i: int| 0 <= i < c@.len() implies '\0' <= #[trigger] c@[i]
                <= '\u{7f}' by {
                assert(is_token_char(c@[i]));
            }
            is_ascii_chars_encode_utf8(c@);
        }
    }
    if c.is_empty() || c.as_bytes().len() > MAX_CHANNEL_BYTES {
        return false;
    }
    let chars = chars_of(c);
    let mut i: usize = 0;
    while i < chars.len()
        invariant
            i <= chars@.len(),
            chars@ == c@,
            forall|j: int| 0 <= j < i ==> #[trigger] is_token_char(c@[j]),
        decreases chars@.len() - i,
    {
        let ch: char = chars[i];
        let letter = ('a' <= ch && ch <= 'z') || ('A' <= ch && ch <= 'Z');
        let digit = '0' <= ch && ch <= '9';
        if !(letter || digit || ch == '-' || ch == '_') {
            assert(!is_token_char(c@[i as int]));
            return false;
        }
        i = i + 1;
    }
    proof {
        assert forall|j: int| 0 <= j < c@.len() implies '\0' <= #[trigger] c@[j] <= '\u{7f}' by {
            assert(is_token_char(c@[j]));
        }
        is_ascii_chars_encode_utf8(c@);
    }
    true
}

/// The tokens of a subject: the parts between its dots.
pub open spec fn subject_tokens(subject: Seq<char>) -> Seq<Seq<char>> {
    text::split(subject, '.')
}

/// Whether a filter selects a subject, token by token: `*` stands for any one
/// token, and `>` for all that follow, at least one.
pub open spec fn selects(filter: Seq<Seq<char>>, subject: Seq<Seq<char>>) -> bool
    decreases filter.len(),
{
    if filter.len() == 0 {
        subject.len() == 0
    } else if filter[0] == ">"@ {
        filter.len() == 1 && subject.len() > 0
    } else {
        &&& subject.len() > 0
        &&& filter[0] == "*"@ || filter[0] == subject[0]
        &&& selects(filter.drop_first(), subject.drop_first())
    }
}

/// The filter of the control plane.
pub open spec fn control_filter() -> Seq<char> {
    "agora._control.>"@
}

/// The subject under which an operator halts an agent.
pub open spec fn halt_subject() -> Seq<char> {
    "agora._control.kill"@
}

/// The tokens of the subjects that are spelled out.
proof fn lemma_spelled_out()
    ensures
        subject_tokens("agora"@) == seq!["agora"@],
        "agora."@ == "agora"@.push('.'),
        subject_tokens(control_filter()) == seq!["agora"@, "_control"@, ">"@],
        subject_tokens(halt_subject()) == seq!["agora"@, "_control"@, "kill"@],
        "agora"@ != ">"@,
        "agora"@ != "*"@,
        "_control"@ != ">"@,
        "_control"@ != "*"@,
{
    reveal_strlit("agora");
    reveal_strlit("agora.");
    reveal_strlit("_control");
    reveal_strlit("kill");
    reveal_strlit(">");
    reveal_strlit("*");
    reveal_strlit("agora._control.>");
    reveal_strlit("agora._control.kill");
    let none = Seq::<char>::empty();
    text::lemma_split_extend(none, "agora"@, '.');
    assert(none + "agora"@ =~= "agora"@);
    assert(subject_tokens(none).drop_last().push("agora"@) =~= seq!["agora"@]);
    let plane = "agora"@.push('.') + "_control"@;
    text::lemma_split_after("agora"@, "_control"@, '.');
    text::lemma_split_after(plane, ">"@, '.');
    text::lemma_split_after(plane, "kill"@, '.');
    assert(control_filter() =~= plane.push('.') + ">"@);
    assert(halt_subject() =~= plane.push('.') + "kill"@);
    assert(seq!["agora"@].push("_control"@).push(">"@) =~= seq!["agora"@, "_control"@, ">"@]);
    assert(seq!["agora"@].push("_control"@).push("kill"@) =~= seq![
        "agora"@,
        "_control"@,
        "kill"@,
    ]);
    assert("agora."@ =~= "agora"@.push('.'));
    assert("agora"@.len() == 5 && "_control"@.len() == 8 && ">"@.len() == 1 && "*"@.len() == 1);
}

/// The subject of a safe channel has exactly two tokens, of which the second is
/// the channel's name, and that name is no wildcard: a channel name can neither
/// add subject levels nor stand for other channels.
pub proof fn law_safe_channel_is_one_token(name: Seq<char>)
    requires
        safe_channel(name),
    ensures
        subject_tokens(channel_subject(name)) == seq!["agora"@, name],
        name != "*"@,
        name != ">"@,
{
    lemma_spelled_out();
    reveal_strlit("*");
    reveal_strlit(">");
    assert forall|i: int| 0 <= i < name.len() implies #[trigger] name[i] != '.' by {
        assert(is_token_char(name[i]));
    }
    text::lemma_split_after("agora"@, name, '.');
    assert(seq!["agora"@].push(name) =~= seq!["agora"@, name]);
    assert(is_token_char(name[0]));
}

/// A consumer that is filtered to the subject of a safe channel is given what is
/// published on that channel, and nothing else.
pub proof fn law_filter_is_exact(granted: Seq<char>, subject: Seq<Seq<char>>)
    requires
        safe_channel(granted),
    ensures
        selects(subject_tokens(channel_subject(granted)), subject) <==> subject
            == subject_tokens(channel_subject(granted)),
{
    law_safe_channel_is_one_token(granted);
    lemma_spelled_out();
    let f = subject_tokens(channel_subject(granted));
    reveal_with_fuel(selects, 3);
    assert(f.drop_first() =~= seq![granted]);
    assert(f.drop_first().drop_first() =~= Seq::<Seq<char>>::empty());
    if selects(f, subject) {
        assert(subject.drop_first().drop_first().len() == 0);
        assert(subject.drop_first()[0] == subject[1]);
        assert(subject =~= f);
    }
}

/// The control plane is out of reach: no safe channel publishes into it, and no
/// consumer that is filtered to a safe channel is given what is sent there.
pub proof fn law_control_plane_is_out_of_band(channel: Seq<char>)
    requires
        safe_channel(channel),
    ensures
        !selects(subject_tokens(control_filter()), subject_tokens(channel_subject(channel))),
        !selects(subject_tokens(channel_subject(channel)), subject_tokens(halt_subject())),
        selects(subject_tokens(control_filter()), subject_tokens(halt_subject())),
{
    law_safe_channel_is_one_token(channel);
    lemma_spelled_out();
    let c = subject_tokens(channel_subject(channel));
    let f = subject_tokens(control_filter());
    let h = subject_tokens(halt_subject());
    law_filter_is_exact(channel, h);
    reveal_with_fuel(selects, 4);
    assert(f.drop_first() =~= seq!["_control"@, ">"@]);
    assert(f.drop_first().drop_first() =~= seq![">"@]);
    assert(c.drop_first().drop_first().len() == 0);
    assert(h.drop_first() =~= seq!["_control"@, "kill"@]);
    assert(h.drop_first().drop_first() =~= seq!["kill"@]);
    assert(c.len() == 2 && h.len() == 3);
}

/// Different channels have different subjects.
pub proof fn law_subjects_differ(a: Seq<char>, b: Seq<char>)
    ensures
        channel_subject(a) == channel_subject(b) ==> a == b,
{
    if channel_subject(a) == channel_subject(b) {
        let n = "agora."@.len() as int;
        assert(channel_subject(a).skip(n) =~= a);
        assert(channel_subject(b).skip(n) =~= b);
    }
}

/// A channel name is safe if and only if it has 1 to 128 characters, each of them
/// an ASCII letter, an ASCII digit, `-` or `_`.
pub proof fn law_safe_names(name: Seq<char>)
    ensures
        safe_channel(name) <==> {
            &&& 1 <= name.len() <= 128
            &&& forall|i: int|
                0 <= i < name.len() ==> {
                    let c = #[trigger] name[i];
                    ||| 'a' <= c <= 'z'
                    ||| 'A' <= c <= 'Z'
                    ||| '0' <= c <= '9'
                    ||| c == '-'
                    ||| c == '_'
                }
        },
{
    if 1 <= name.len() <= 128 && forall|i: int|
        0 <= i < name.len() ==> {
            let c = #[trigger] name[i];
            ||| 'a' <= c <= 'z'
            ||| 'A' <= c <= 'Z'
            ||| '0' <= c <= '9'
            ||| c == '-'
            ||| c == '_'
        } {
        assert forall|i: int| 0 <= i < name.len() implies #[trigger] is_token_char(name[i]) by {
            let c = name[i];
        }
    }
    if safe_channel(name) {
        assert forall|i: int| 0 <= i < name.len() implies {
            let c = #[trigger] name[i];
            ||| 'a' <= c <= 'z'
            ||| 'A' <= c <= 'Z'
            ||| '0' <= c <= '9'
            ||| c == '-'
            ||| c == '_'
        } by {
            assert(is_token_char(name[i]));
        }
    }
}

/// All subjects are under `agora.`: a channel has its name there, and the control
/// plane what begins with `_control.`.
pub proof fn law_subjects_are_spelled(name: Seq<char>)
    ensures
        channel_subject(name) == "agora."@ + name,
        control_filter() == "agora._control.>"@,
        halt_subject() == "agora._control.kill"@,
{
}

} // verus!
