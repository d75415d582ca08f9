//! Tasks and leases. Several agents may see a task, but it has to be handled
//! once: an agent claims it by creating the task's key in the lease store, which
//! succeeds for the first one only.

use vstd::prelude::*;

use crate::control;
use crate::text;
use crate::text::{before_colon, begins_with, chars_of, trim};

verus! {

/// The task that a payload asks for, if it asks for one: a payload that begins
/// with `TASK` names its task in front of the first colon.
pub open spec fn task_in(payload: Seq<char>) -> Option<Seq<char>> {
    if "TASK"@.is_prefix_of(payload) {
        Some(text::trimmed(text::up_to_colon(payload)))
    } else {
        None
    }
}

/// The task that a payload asks for, if it asks for one.
pub fn task_id(payload: &str) -> (task: Option<String>)
    ensures
        text::option_text(task) == task_in(payload@),
{
    if begins_with(payload, "TASK") {
        Some(trim(before_colon(payload)).to_owned())
    } else {
        None
    }
}

/// A character that a lease key takes over as it is.
pub open spec fn is_key_char(c: char) -> bool {
    ||| 'a' <= c <= 'z'
    ||| 'A' <= c <= 'Z'
    ||| '0' <= c <= '9'
    ||| c == '-'
    ||| c == '_'
    ||| c == '.'
}

/// The lease key of a task: its name, with `_` for every character other than
/// ASCII letters, digits, `-`, `_` and `.`.
pub open spec fn key_of(task: Seq<char>) -> Seq<char> {
    task.map_values(
        |c: char|
            if is_key_char(c) {
                c
            } else {
                '_'
            },
    )
}

/// The lease key of a task.
pub fn lease_key(task: &str) -> (key: String)
    ensures
        key@ == key_of(task@),
{
    let chars = chars_of(task);
    let mut key = String::new();
    let mut i: usize = 0;
    assert(key@ =~= key_of(task@).take(0));
    while i < chars.len()
        invariant
            chars@ == task@,
            i <= chars@.len(),
            key@ == key_of(task@).take(i as int),
        decreases chars@.len() - i,
    {
        let c: char = chars[i];
        let letter = ('a' <= c && c <= 'z') || ('A' <= c && c <= 'Z');
        let digit = '0' <= c && c <= '9';
        if letter || digit || c == '-' || c == '_' || c == '.' {
            key.append(task.substring_char(i, i + 1));
        } else {
            proof {
                reveal_strlit("_");
            }
            key.append("_");
        }
        i = i + 1;
        assert(key@ =~= key_of(task@).take(i as int));
    }
    assert(key_of(task@).take(i as int) =~= key_of(task@));
    key
}

/// A lease key is as long as the task's name and holds only ASCII letters, digits,
/// `-`, `_` and `.`; and a key is its own key.
pub proof fn law_key_is_storable(task: Seq<char>)
    ensures
        key_of(task).len() == task.len(),
        forall|i: int| 0 <= i < task.len() ==> is_key_char(#[trigger] key_of(task)[i]),
        key_of(key_of(task)) == key_of(task),
{
    assert(key_of(key_of(task)) =~= key_of(task));
}

/// The name of a task, and its key, begin with `TASK`: neither is ever empty.
pub proof fn law_task_keeps_its_mark(payload: Seq<char>)
    ensures
        match task_in(payload) {
            Some(task) => "TASK"@.is_prefix_of(task) && "TASK"@.is_prefix_of(key_of(task)),
            None => true,
        },
{
    if "TASK"@.is_prefix_of(payload) {
        reveal_strlit("TASK");
        let head = text::up_to_colon(payload);
        assert(payload.subrange(0, 4) == "TASK"@);
        assert forall|i: int| 0 <= i < 4 implies payload[i] == "TASK"@[i] by {
            assert(payload.subrange(0, 4)[i] == payload[i]);
        }
        reveal_with_fuel(text::up_to_colon, 5);
        assert(payload[0] == 'T' && payload[1] == 'A' && payload[2] == 'S' && payload[3] == 'K');
        assert(payload.drop_first()[0] == 'A');
        assert(payload.drop_first().drop_first()[0] == 'S');
        assert(payload.drop_first().drop_first().drop_first()[0] == 'K');
        assert(head.len() >= 4 && head[0] == 'T' && head[1] == 'A' && head[2] == 'S' && head[3]
            == 'K');
        assert(text::without_leading_space(head) == head);
        lemma_trailing_keeps(head, 4);
        let task = text::trimmed(head);
        assert(task.subrange(0, 4) =~= "TASK"@);
        assert(key_of(task).subrange(0, 4) =~= "TASK"@);
    }
}

/// Taking white space from the end of a text leaves a start of it that ends
/// otherwise.
proof fn lemma_trailing_keeps(s: Seq<char>, n: int)
    requires
        0 < n <= s.len(),
        !text::is_white_space(s[n - 1]),
    ensures
        text::without_trailing_space(s).len() >= n,
        forall|i: int| 0 <= i < n ==> #[trigger] text::without_trailing_space(s)[i] == s[i],
    decreases s.len(),
{
    if text::is_white_space(s.last()) {
        let shorter = s.drop_last();
        lemma_trailing_keeps(shorter, n);
        assert forall|i: int| 0 <= i < n implies #[trigger] text::without_trailing_space(s)[i]
            == s[i] by {
            assert(text::without_trailing_space(shorter)[i] == shorter[i]);
        }
    }
}

/// A payload asks for a task if and only if it begins with `TASK`. The task's name
/// is where the payload begins, holds no colon and does not end in white space;
/// and nothing but white space stands between it and the first colon, or the
/// payload's end if there is none.
pub proof fn law_task_ends_at_the_first_colon(payload: Seq<char>)
    ensures
        task_in(payload) is Some <==> "TASK"@.is_prefix_of(payload),
        task_in(payload) is Some ==> {
            let task = task_in(payload)->0;
            exists|end: int|
                {
                    &&& 0 < task.len() <= end <= payload.len()
                    &&& task == payload.take(task.len() as int)
                    &&& !text::is_white_space(task.last())
                    &&& forall|i: int|
                        task.len() <= i < end ==> text::is_white_space(#[trigger] payload[i])
                    &&& task.is_prefix_of(#[trigger] payload.take(end))
                    &&& forall|i: int| 0 <= i < end ==> #[trigger] payload[i] != ':'
                    &&& end < payload.len() ==> payload[end] == ':'
                }
        },
{
    if task_in(payload) is Some {
        let task = task_in(payload)->0;
        let head = text::up_to_colon(payload);
        let end = head.len() as int;
        text::law_head_ends_at_the_first_colon(payload);
        law_task_keeps_its_mark(payload);
        text::law_trim_takes_outer_space(head);
        reveal_strlit("TASK");
        assert(task.subrange(0, 4) == "TASK"@);
        assert(payload.subrange(0, 4) == "TASK"@);
        assert(payload[0] == payload.subrange(0, 4)[0]);
        let (from, to) = choose|from: int, to: int|
            {
                &&& 0 <= from <= to <= head.len()
                &&& text::trimmed(head) == #[trigger] head.subrange(from, to)
                &&& forall|i: int| 0 <= i < from ==> text::is_white_space(#[trigger] head[i])
                &&& forall|i: int|
                    to <= i < head.len() ==> text::is_white_space(#[trigger] head[i])
                &&& from < to ==> !text::is_white_space(head[from]) && !text::is_white_space(
                    head[to - 1],
                )
            };
        assert(task.len() >= 4);
        assert(head[0] == payload[0]);
        assert(from == 0);
        assert(task =~= payload.take(to));
        assert forall|i: int| task.len() <= i < end implies text::is_white_space(
            #[trigger] payload[i],
        ) by {
            assert(head[i] == payload[i]);
        }
        assert(task.last() == head[to - 1]);
        assert(payload.take(end).subrange(0, to) =~= task);
    }
}

/// What stands behind the first colon plays no part in a task's name, and neither
/// does white space in front of that colon: however a task is asked for, it has
/// the same name, and so the same key.
pub proof fn law_same_task_however_asked(id: Seq<char>, space: Seq<char>, rest: Seq<char>)
    requires
        forall|i: int| 0 <= i < id.len() ==> #[trigger] id[i] != ':',
        id.len() > 0 ==> !text::is_white_space(id.last()),
        forall|i: int| 0 <= i < space.len() ==> text::is_white_space(#[trigger] space[i]),
    ensures
        task_in("TASK"@ + id) == Some("TASK"@ + id),
        task_in("TASK"@ + id + seq![':'] + rest) == Some("TASK"@ + id),
        task_in("TASK"@ + id + space + seq![':'] + rest) == Some("TASK"@ + id),
{
    lemma_task_named(id, Seq::empty(), Seq::empty());
    lemma_task_named(id, Seq::empty(), seq![':'] + rest);
    lemma_task_named(id, space, seq![':'] + rest);
    let mark = "TASK"@ + id;
    let none = Seq::<char>::empty();
    assert(mark + none + none =~= mark);
    assert(mark + none + (seq![':'] + rest) =~= mark + seq![':'] + rest);
    assert(mark + space + (seq![':'] + rest) =~= mark + space + seq![':'] + rest);
}

proof fn lemma_task_named(id: Seq<char>, space: Seq<char>, tail: Seq<char>)
    requires
        forall|i: int| 0 <= i < id.len() ==> #[trigger] id[i] != ':',
        id.len() > 0 ==> !text::is_white_space(id.last()),
        forall|i: int| 0 <= i < space.len() ==> text::is_white_space(#[trigger] space[i]),
        tail.len() > 0 ==> tail[0] == ':',
    ensures
        task_in("TASK"@ + id + space + tail) == Some("TASK"@ + id),
{
    reveal_strlit("TASK");
    let name = "TASK"@ + id;
    let payload = name + space + tail;
    let n = name.len() as int;
    let e = n + space.len() as int;
    assert(payload.subrange(0, 4) =~= "TASK"@);
    let head = text::up_to_colon(payload);
    let h = head.len() as int;
    text::law_head_ends_at_the_first_colon(payload);
    assert forall|i: int| 0 <= i < e implies #[trigger] payload[i] != ':' by {
        if i < n {
            assert(payload[i] == name[i]);
            if i >= 4 {
                assert(name[i] == id[i - 4]);
            }
        } else {
            assert(payload[i] == space[i - n]);
        }
    }
    if tail.len() > 0 {
        assert(payload[e] == tail[0]);
    }
    assert(h == e);
    assert(head =~= name + space);
    assert(head[0] == 'T');
    assert(text::without_leading_space(head) == head);
    if id.len() > 0 {
        assert(name.last() == id.last());
    } else {
        assert(name.last() == 'K');
    }
    control::lemma_trailing_space_goes(name, space);
}

/// A lease key follows the task's name character by character: ASCII letters and
/// digits, `-`, `_` and `.` are kept, and every other character is a `_`.
pub proof fn law_key_follows_the_name(task: Seq<char>, i: int)
    requires
        0 <= i < task.len(),
    ensures
        key_of(task).len() == task.len(),
        ({
            let c = task[i];
            let kept = {
                ||| 'a' <= c <= 'z'
                ||| 'A' <= c <= 'Z'
                ||| '0' <= c <= '9'
                ||| c == '-'
                ||| c == '_'
                ||| c == '.'
            };
            &&& kept ==> key_of(task)[i] == c
            &&& !kept ==> key_of(task)[i] == '_'
        }),
{
}

} // verus!
