//! How a wire message is published: under which subject, and with which
//! identifier the stream recognises a second publication of the same message.

use vstd::prelude::*;

use crate::channel;
use crate::channel::subject_for;
use crate::message::{Wire, WireView};
use crate::number;
use crate::number::to_decimal;

verus! {

/// The subject of a publication, and its identifier for the stream's
/// deduplication.
pub struct Envelope {
    pub subject: String,
    pub msg_id: String,
}

/// The subject that a wire message is published under: that of its channel.
pub open spec fn subject_of(w: WireView) -> Seq<char> {
    channel::channel_subject(w.channel)
}

/// The deduplication identifier of a wire message: its own, in decimal.
pub open spec fn msg_id_of(w: WireView) -> Seq<char> {
    number::decimal(w.id as nat)
}

/// The envelope of a wire message.
pub fn envelope(w: &Wire) -> (e: Envelope)
    ensures
        e.subject@ == subject_of(w@),
        e.msg_id@ == msg_id_of(w@),
{
    Envelope { subject: subject_for(w.channel.as_str()), msg_id: to_decimal(w.id) }
}

/// The stream takes two publications for the same message only if they carry the
/// same identifier.
pub proof fn law_only_repeats_are_dropped(a: WireView, b: WireView)
    ensures
        msg_id_of(a) == msg_id_of(b) <==> a.id == b.id,
{
    number::law_decimal_injective(a.id as nat, b.id as nat);
}

/// A message is published under the subject of its channel, with its own number
/// in decimal as the identifier by which the stream knows it.
pub proof fn law_envelope_says_channel_and_number(w: WireView)
    ensures
        subject_of(w) == "agora."@ + w.channel,
        msg_id_of(w).fold_left(0int, |v: int, c: char| 10 * v + (c as int - '0' as int)) == w.id,
        forall|i: int| 0 <= i < msg_id_of(w).len() ==> '0' <= #[trigger] msg_id_of(w)[i] <= '9',
        w.id > 0 ==> msg_id_of(w)[0] != '0',
        w.id == 0 ==> msg_id_of(w) == seq!['0'],
{
    number::law_decimal_reads_back(w.id as nat);
}

} // verus!
