//! The agent: pure coordination logic. It answers each live message once, with
//! a signed acknowledgement that has one hop less to travel.

use vstd::prelude::*;
use vstd::utf8::*;
use vstd::wrapping::*;

use crate::message;
use crate::message::{Act, Message, MessageView};
use crate::number;

verus! {

/// The starting value of the 64-bit FNV-1a hash.
pub const FNV_OFFSET: u64 = 0xcbf2_9ce4_8422_2325;

/// The multiplier of the 64-bit FNV-1a hash.
pub const FNV_PRIME: u64 = 0x0000_0100_0000_01b3;

/// One step of the hash: mix in a byte, then multiply modulo 2 to the 64th.
pub open spec fn fnv_step(h: u64, b: u8) -> u64 {
    u64_specs::wrapping_mul(h ^ (b as u64), FNV_PRIME)
}

/// The 64-bit FNV-1a hash of a sequence of bytes.
pub open spec fn fnv1a_bytes(bytes: Seq<u8>) -> u64 {
    bytes.fold_left(FNV_OFFSET, |h: u64, b: u8| fnv_step(h, b))
}

/// The 64-bit FNV-1a hash of the UTF-8 bytes of `s`, which stands in for a
/// signature.
pub fn fnv1a(s: &str) -> (hash: u64)
    ensures
        hash == fnv1a_bytes(encode_utf8(s@)),
{
    let bytes = s.as_bytes();
    let ghost step = |h: u64, b: u8| fnv_step(h, b);
    let mut h: u64 = FNV_OFFSET;
    let mut i: usize = 0;
    while i < bytes.len()
        invariant
            i <= bytes@.len(),
            bytes@ == encode_utf8(s@),
            step == |h: u64, b: u8| fnv_step(h, b),
            h == bytes@.take(i as int).fold_left(FNV_OFFSET, step),
        decreases bytes@.len() - i,
    {
        let ghost next = bytes@.take(i + 1);
        assert(next.drop_last() =~= bytes@.take(i as int));
        assert(next.last() == bytes@[i as int]);
        h = h ^ (bytes[i] as u64);
        h = h.wrapping_mul(FNV_PRIME);
        i = i + 1;
    }
    assert(bytes@.take(i as int) =~= bytes@);
    h
}

/// The text with which the agent `me` acknowledges a payload.
pub open spec fn ack_payload(me: Seq<char>, payload: Seq<char>) -> Seq<char> {
    "ack["@ + me + "] <- "@ + payload
}

/// The stand-in signature of the agent `me` on a payload.
pub open spec fn stub_signature(me: Seq<char>, payload: Seq<char>) -> Seq<char> {
    "sigil-stub:"@ + me + ":"@ + number::hex16(fnv1a_bytes(encode_utf8(payload)))
}

/// Whether a message may still be answered.
pub open spec fn is_live(m: MessageView) -> bool {
    m.hops > 0
}

/// The answer of the agent `me` to a live message: an `Inform` on the same
/// channel, signed, with one hop less. The host assigns the identifier.
pub open spec fn reply(me: Seq<char>, m: MessageView) -> MessageView {
    MessageView {
        id: 0,
        sender: me,
        channel: m.channel,
        act: Act::Inform,
        payload: ack_payload(me, m.payload),
        sig: stub_signature(me, ack_payload(me, m.payload)),
        hops: (m.hops - 1) as u32,
    }
}

/// The answers of the agent `me` to an inbox: one for each live message, in the
/// inbox's order.
pub open spec fn replies(me: Seq<char>, inbox: Seq<MessageView>) -> Seq<MessageView> {
    inbox.filter(|m: MessageView| is_live(m)).map_values(|m: MessageView| reply(me, m))
}

/// The answers to an inbox with one more message at its end.
pub proof fn lemma_replies_push(me: Seq<char>, inbox: Seq<MessageView>, m: MessageView)
    ensures
        replies(me, inbox.push(m)) == if is_live(m) {
            replies(me, inbox).push(reply(me, m))
        } else {
            replies(me, inbox)
        },
{
    let live = |m: MessageView| is_live(m);
    inbox.lemma_filter_push(m, live);
    let answers = inbox.push(m).filter(live).map_values(|m: MessageView| reply(me, m));
    if is_live(m) {
        assert(answers =~= replies(me, inbox).push(reply(me, m)));
    }
}

/// Every answer is the answer to a live message of the inbox. So it comes from
/// `me`, stays on a channel that the inbox already used, and has exactly one hop
/// less than what it answers; and an inbox without live messages gets no answer.
pub proof fn law_answers_lose_a_hop(me: Seq<char>, inbox: Seq<MessageView>, i: int)
    requires
        0 <= i < replies(me, inbox).len(),
    ensures
        exists|j: int|
            0 <= j < inbox.len() && is_live(#[trigger] inbox[j]) && replies(me, inbox)[i] == reply(
                me,
                inbox[j],
            ) && replies(me, inbox)[i].hops + 1 == inbox[j].hops,
{
    let live = |m: MessageView| is_live(m);
    let answered = inbox.filter(live);
    assert(replies(me, inbox)[i] == reply(me, answered[i]));
    inbox.lemma_filter_pred(live, i);
    assert(answered.contains(answered[i]));
    inbox.lemma_filter_contains_rev(live, answered[i]);
    let j = choose|j: int| 0 <= j < inbox.len() && inbox[j] == answered[i];
    assert(is_live(inbox[j]));
}

/// The stand-in signature of the agent `me` on a payload.
fn sign(me: &str, payload: &str) -> (sig: String)
    ensures
        sig@ == stub_signature(me@, payload@),
{
    let hash = number::to_hex16(fnv1a(payload));
    let mut sig = "sigil-stub:".to_owned();
    sig.append(me);
    sig.append(":");
    sig.append(hash.as_str());
    sig
}

/// The agent component.
pub struct Component;

impl Component {
    /// Answers an inbox that the host has already restricted to the channels
    /// that the agent was granted, and from which it has taken the agent's own
    /// messages. A message with no hops left is never answered, which is what
    /// keeps agents that answer everything from answering each other forever.
    pub fn coordinate(me: String, inbox: Vec<Message>) -> (out: Vec<Message>)
        ensures
            message::messages_view(out@) == replies(me@, message::messages_view(inbox@)),
    {
        let mut out: Vec<Message> = Vec::new();
        let mut i: usize = 0;
        assert(message::messages_view(out@) =~= replies(me@, message::messages_view(inbox@).take(0)));
        while i < inbox.len()
            invariant
                i <= inbox@.len(),
                message::messages_view(out@) == replies(me@, message::messages_view(inbox@).take(i as int)),
            decreases inbox@.len() - i,
        {
            let m = &inbox[i];
            let ghost before = message::messages_view(inbox@).take(i as int);
            let ghost earlier = out@;
            proof {
                lemma_replies_push(me@, before, m@);
                assert(message::messages_view(inbox@).take(i + 1) =~= before.push(m@));
            }
            i = i + 1;
            if m.hops == 0 {
                continue;
            }
            let mut payload = "ack[".to_owned();
            payload.append(me.as_str());
            payload.append("] <- ");
            payload.append(m.payload.as_str());
            let sig = sign(me.as_str(), payload.as_str());
            out.push(
                Message {
                    id: 0,
                    sender: me.clone(),
                    channel: m.channel.clone(),
                    act: Act::Inform,
                    payload,
                    sig,
                    hops: m.hops - 1,
                },
            );
            assert(message::messages_view(out@) =~= message::messages_view(earlier).push(reply(me@, m@)));
        }
        assert(message::messages_view(inbox@).take(i as int) =~= message::messages_view(inbox@));
        out
    }
}

/// Every byte goes into the hash, at every length: no bytes hash to the offset,
/// and with one byte more the hash is mixed with that byte and multiplied by the
/// prime, modulo 2 to the 64th.
pub proof fn law_hash_mixes_every_byte(bytes: Seq<u8>, b: u8)
    ensures
        fnv1a_bytes(Seq::<u8>::empty()) == 0xcbf2_9ce4_8422_2325u64,
        fnv1a_bytes(bytes.push(b)) as int == ((fnv1a_bytes(bytes) ^ (b as u64)) as int
            * 0x0000_0100_0000_01b3) % 0x1_0000_0000_0000_0000,
{
    assert(bytes.push(b).drop_last() =~= bytes);
    assert(bytes.push(b).last() == b);
}

/// An inbox is answered message by message, in its order: a message without hops
/// left gets no answer; any other gets one, an `Inform` under the name of `me` on
/// the message's own channel, which quotes the message, is signed over its whole
/// text and has one hop less. The identifier is left to the host.
pub proof fn law_each_live_message_is_answered(
    me: Seq<char>,
    inbox: Seq<MessageView>,
    m: MessageView,
)
    ensures
        replies(me, Seq::<MessageView>::empty()).len() == 0,
        m.hops == 0 ==> replies(me, inbox.push(m)) == replies(me, inbox),
        m.hops > 0 ==> {
            let before = replies(me, inbox);
            let after = replies(me, inbox.push(m));
            let answer = after.last();
            &&& after.len() == before.len() + 1
            &&& after.drop_last() == before
            &&& answer.id == 0
            &&& answer.sender == me
            &&& answer.channel == m.channel
            &&& answer.act == Act::Inform
            &&& answer.payload == "ack["@ + me + "] <- "@ + m.payload
            &&& answer.sig == "sigil-stub:"@ + me + ":"@ + number::hex16(
                fnv1a_bytes(encode_utf8("ack["@ + me + "] <- "@ + m.payload)),
            )
            &&& answer.hops + 1 == m.hops
        },
{
    let none = Seq::<MessageView>::empty();
    none.lemma_filter_len(|m: MessageView| is_live(m));
    lemma_replies_push(me, inbox, m);
    if m.hops > 0 {
        assert(replies(me, inbox).push(reply(me, m)).drop_last() =~= replies(me, inbox));
    }
}

} // verus!
