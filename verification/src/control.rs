//! The control plane: an operator's halt, out of the agents' reach.

use vstd::prelude::*;
use vstd::utf8::*;

use crate::text;
use crate::text::trim;

verus! {

/// What `String::from_utf8_lossy` makes of a sequence of bytes.
pub uninterp spec fn utf8_lossy(bytes: Seq<u8>) -> Seq<char>;

/// Calls `String::from_utf8_lossy`. The result depends on the bytes alone. Bytes
/// that are valid UTF-8 are decoded; of others, where invalid sequences become
/// replacement characters, nothing more is said.
#[verifier::external_body]
fn lossy_text(bytes: &[u8]) -> (text: String)
    ensures
        text@ == utf8_lossy(bytes@),
        valid_utf8(bytes@) ==> text@ == decode_utf8(bytes@),
{
    String::from_utf8_lossy(bytes).into_owned()
}

/// The agent that the text of a halt names, if it names one: what is left
/// without the white space around it.
pub open spec fn halted_agent(text: Seq<char>) -> Option<Seq<char>> {
    let name = text::trimmed(text);
    if name.len() == 0 {
        None
    } else {
        Some(name)
    }
}

/// The agent that the text of a halt names, if it names one.
pub fn halt_target(text: &str) -> (agent: Option<String>)
    ensures
        text::option_text(agent) == halted_agent(text@),
{
    let name = trim(text);
    if name.is_empty() {
        None
    } else {
        Some(name.to_owned())
    }
}

/// The agent that the payload of a control message names, if it names one.
pub fn parse_halt(payload: &[u8]) -> (agent: Option<String>)
    ensures
        text::option_text(agent) == halted_agent(utf8_lossy(payload@)),
        valid_utf8(payload@) ==> text::option_text(agent) == halted_agent(decode_utf8(payload@)),
{
    let text = lossy_text(payload);
    halt_target(text.as_str())
}

/// The halt that the operator issues at the start of a round, if a demonstration
/// of it was asked for: the one agent named, in the second round.
pub open spec fn demonstrated_halt(round: int, asked: Option<Seq<char>>) -> Option<Seq<char>> {
    match asked {
        Some(name) => if round == 1 && name.len() > 0 {
            Some(name)
        } else {
            None
        },
        None => None,
    }
}

/// The halt that the operator issues at the start of `round`.
pub fn demo_halt(round: u32, asked: Option<String>) -> (target: Option<String>)
    ensures
        text::option_text(target) == demonstrated_halt(
            round as int,
            text::option_text(asked),
        ),
{
    match asked {
        Some(name) => {
            if round == 1 && !name.as_str().is_empty() {
                Some(name)
            } else {
                None
            }
        },
        None => None,
    }
}

/// A payload that is an agent's name, with or without white space around it,
/// halts that agent, as long as the name has none of its own at its ends.
pub proof fn law_halt_names_its_agent(before: Seq<char>, name: Seq<char>, after: Seq<char>)
    requires
        name.len() > 0,
        !text::is_white_space(name[0]),
        !text::is_white_space(name.last()),
        forall|i: int| 0 <= i < before.len() ==> text::is_white_space(#[trigger] before[i]),
        forall|i: int| 0 <= i < after.len() ==> text::is_white_space(#[trigger] after[i]),
    ensures
        halted_agent(before + name + after) == Some(name),
        utf8_halts(encode_utf8(before + name + after), name),
{
    lemma_leading_space_goes(before, name + after);
    assert(before + name + after =~= before + (name + after));
    assert((name + after)[0] == name[0]);
    lemma_trailing_space_goes(name, after);
    encode_utf8_decode_utf8(before + name + after);
    encode_utf8_valid_utf8(before + name + after);
}

/// Whether bytes, if they are UTF-8, say that the agent `name` is to be halted.
pub open spec fn utf8_halts(bytes: Seq<u8>, name: Seq<char>) -> bool {
    valid_utf8(bytes) && halted_agent(decode_utf8(bytes)) == Some(name)
}

/// White space in front of a text that begins otherwise goes.
pub proof fn lemma_leading_space_goes(space: Seq<char>, rest: Seq<char>)
    requires
        forall|i: int| 0 <= i < space.len() ==> text::is_white_space(#[trigger] space[i]),
        rest.len() > 0 ==> !text::is_white_space(rest[0]),
    ensures
        text::without_leading_space(space + rest) == rest,
    decreases space.len(),
{
    if space.len() == 0 {
        assert(space + rest =~= rest);
    } else {
        assert((space + rest)[0] == space[0]);
        assert((space + rest).drop_first() =~= space.drop_first() + rest);
        lemma_leading_space_goes(space.drop_first(), rest);
    }
}

/// White space behind a text that ends otherwise goes.
pub proof fn lemma_trailing_space_goes(rest: Seq<char>, space: Seq<char>)
    requires
        forall|i: int| 0 <= i < space.len() ==> text::is_white_space(#[trigger] space[i]),
        rest.len() > 0 ==> !text::is_white_space(rest.last()),
    ensures
        text::without_trailing_space(rest + space) == rest,
    decreases space.len(),
{
    if space.len() == 0 {
        assert(rest + space =~= rest);
    } else {
        assert((rest + space).last() == space.last());
        assert((rest + space).drop_last() =~= rest + space.drop_last());
        lemma_trailing_space_goes(rest, space.drop_last());
    }
}

/// A payload halts an agent if and only if there is more in it than white space;
/// the agent is then what is left of it without the white space at its ends.
pub proof fn law_halt_needs_a_name(text: Seq<char>)
    ensures
        halted_agent(text) is None <==> forall|i: int|
            0 <= i < text.len() ==> text::is_white_space(#[trigger] text[i]),
        halted_agent(text) is Some ==> exists|from: int, to: int|
            {
                &&& 0 <= from < to <= text.len()
                &&& halted_agent(text) == Some(#[trigger] text.subrange(from, to))
                &&& forall|i: int| 0 <= i < from ==> text::is_white_space(#[trigger] text[i])
                &&& forall|i: int|
                    to <= i < text.len() ==> text::is_white_space(#[trigger] text[i])
                &&& !text::is_white_space(text[from])
                &&& !text::is_white_space(text[to - 1])
            },
{
    text::law_trim_takes_outer_space(text);
}

/// The demonstration halts the agent that was asked for, in the second round and
/// no other, unless no name was given.
pub proof fn law_demonstration_is_in_round_one(round: int, asked: Option<Seq<char>>)
    ensures
        demonstrated_halt(round, asked) is Some <==> round == 1 && asked is Some && asked->0.len()
            > 0,
        demonstrated_halt(round, asked) is Some ==> demonstrated_halt(round, asked) == asked,
{
}

} // verus!
