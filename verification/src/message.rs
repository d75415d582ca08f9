//! The protocol's vocabulary: speech acts, coordination messages, and the wire
//! form in which a message travels and is recorded.

use vstd::prelude::*;

use crate::text::same_text;

verus! {

/// The speech act that a message performs.
#[derive(Clone, Copy, Debug, PartialEq, Eq, Structural)]
pub enum Act {
    Inform,
    Request,
    Propose,
    Agree,
    Refuse,
}

/// The name of a speech act on the wire.
pub open spec fn act_name(act: Act) -> Seq<char> {
    match act {
        Act::Inform => "inform"@,
        Act::Request => "request"@,
        Act::Propose => "propose"@,
        Act::Agree => "agree"@,
        Act::Refuse => "refuse"@,
    }
}

/// The speech act that a name stands for. A name that is not the name of an act
/// counts as the weakest one, `Inform`.
pub open spec fn act_named(name: Seq<char>) -> Act {
    if name == "request"@ {
        Act::Request
    } else if name == "propose"@ {
        Act::Propose
    } else if name == "agree"@ {
        Act::Agree
    } else if name == "refuse"@ {
        Act::Refuse
    } else {
        Act::Inform
    }
}

/// The wire name of a speech act.
pub fn act_str(a: &Act) -> (name: &'static str)
    ensures
        name@ == act_name(*a),
{
    match a {
        Act::Inform => "inform",
        Act::Request => "request",
        Act::Propose => "propose",
        Act::Agree => "agree",
        Act::Refuse => "refuse",
    }
}

/// The speech act of a wire name; an unknown name is an `Inform`.
pub fn parse_act(s: &str) -> (act: Act)
    ensures
        act == act_named(s@),
{
    if same_text(s, "request") {
        Act::Request
    } else if same_text(s, "propose") {
        Act::Propose
    } else if same_text(s, "agree") {
        Act::Agree
    } else if same_text(s, "refuse") {
        Act::Refuse
    } else {
        Act::Inform
    }
}

/// Reading back the name of an act gives that act.
pub proof fn law_act_round_trip(act: Act)
    ensures
        act_named(act_name(act)) == act,
{
    reveal_strlit("inform");
    reveal_strlit("request");
    reveal_strlit("propose");
    reveal_strlit("agree");
    reveal_strlit("refuse");
    // Names of the same length differ in their first letter.
    assert("agree"@.len() == 5);
    assert("inform"@.len() == 6 && "inform"@[0] == 'i');
    assert("refuse"@.len() == 6 && "refuse"@[0] == 'r');
    assert("request"@.len() == 7 && "request"@[0] == 'r');
    assert("propose"@.len() == 7 && "propose"@[0] == 'p');
}

/// A coordination message, as an agent reads and writes it.
#[derive(Debug)]
pub struct Message {
    pub id: u64,
    pub sender: String,
    pub channel: String,
    pub act: Act,
    pub payload: String,
    pub sig: String,
    pub hops: u32,
}

/// What a message says, with its texts as character sequences.
#[verifier::ext_equal]
pub struct MessageView {
    pub id: u64,
    pub sender: Seq<char>,
    pub channel: Seq<char>,
    pub act: Act,
    pub payload: Seq<char>,
    pub sig: Seq<char>,
    pub hops: u32,
}

impl View for Message {
    type V = MessageView;

    open spec fn view(&self) -> MessageView {
        MessageView {
            id: self.id,
            sender: self.sender@,
            channel: self.channel@,
            act: self.act,
            payload: self.payload@,
            sig: self.sig@,
            hops: self.hops,
        }
    }
}

impl Clone for Message {
    fn clone(&self) -> (copy: Self)
        ensures
            copy@ == self@,
    {
        Message {
            id: self.id,
            sender: self.sender.clone(),
            channel: self.channel.clone(),
            act: self.act,
            payload: self.payload.clone(),
            sig: self.sig.clone(),
            hops: self.hops,
        }
    }
}

/// A message in wire form: the act is spelled out by name.
#[derive(Debug)]
pub struct Wire {
    pub id: u64,
    pub sender: String,
    pub channel: String,
    pub act: String,
    pub payload: String,
    pub sig: String,
    pub hops: u32,
}

/// What a wire message says, with its texts as character sequences.
#[verifier::ext_equal]
pub struct WireView {
    pub id: u64,
    pub sender: Seq<char>,
    pub channel: Seq<char>,
    pub act: Seq<char>,
    pub payload: Seq<char>,
    pub sig: Seq<char>,
    pub hops: u32,
}

impl View for Wire {
    type V = WireView;

    open spec fn view(&self) -> WireView {
        WireView {
            id: self.id,
            sender: self.sender@,
            channel: self.channel@,
            act: self.act@,
            payload: self.payload@,
            sig: self.sig@,
            hops: self.hops,
        }
    }
}

impl Clone for Wire {
    fn clone(&self) -> (copy: Self)
        ensures
            copy@ == self@,
    {
        Wire {
            id: self.id,
            sender: self.sender.clone(),
            channel: self.channel.clone(),
            act: self.act.clone(),
            payload: self.payload.clone(),
            sig: self.sig.clone(),
            hops: self.hops,
        }
    }
}

/// What a list of messages says.
pub open spec fn messages_view(messages: Seq<Message>) -> Seq<MessageView> {
    messages.map_values(|m: Message| m@)
}

/// What a list of wire messages says.
pub open spec fn wires_view(wires: Seq<Wire>) -> Seq<WireView> {
    wires.map_values(|w: Wire| w@)
}

/// The message that a wire message carries.
pub open spec fn message_of(wire: WireView) -> MessageView {
    MessageView {
        id: wire.id,
        sender: wire.sender,
        channel: wire.channel,
        act: act_named(wire.act),
        payload: wire.payload,
        sig: wire.sig,
        hops: wire.hops,
    }
}

/// The message that a wire message carries, its act read back from its name.
pub fn to_message(wire: Wire) -> (message: Message)
    ensures
        message@ == message_of(wire@),
{
    let act = parse_act(wire.act.as_str());
    Message {
        id: wire.id,
        sender: wire.sender,
        channel: wire.channel,
        act,
        payload: wire.payload,
        sig: wire.sig,
        hops: wire.hops,
    }
}

/// The acts have the names of the protocol, and a name stands for an act only if
/// it is that act's own; every other name stands for `Inform`.
pub proof fn law_acts_have_their_names(act: Act, name: Seq<char>)
    ensures
        act == Act::Inform ==> act_name(act) == "inform"@,
        act == Act::Request ==> act_name(act) == "request"@,
        act == Act::Propose ==> act_name(act) == "propose"@,
        act == Act::Agree ==> act_name(act) == "agree"@,
        act == Act::Refuse ==> act_name(act) == "refuse"@,
        act_named(name) == Act::Request <==> name == "request"@,
        act_named(name) == Act::Propose <==> name == "propose"@,
        act_named(name) == Act::Agree <==> name == "agree"@,
        act_named(name) == Act::Refuse <==> name == "refuse"@,
{
    law_act_round_trip(Act::Request);
    law_act_round_trip(Act::Propose);
    law_act_round_trip(Act::Agree);
    law_act_round_trip(Act::Refuse);
}

/// Nothing of a message is left out of what contracts say of it, nor of a wire
/// message.
pub proof fn law_views_leave_nothing_out(m: Message, w: Wire)
    ensures
        m@.id == m.id,
        m@.sender == m.sender@,
        m@.channel == m.channel@,
        m@.act == m.act,
        m@.payload == m.payload@,
        m@.sig == m.sig@,
        m@.hops == m.hops,
        w@.id == w.id,
        w@.sender == w.sender@,
        w@.channel == w.channel@,
        w@.act == w.act@,
        w@.payload == w.payload@,
        w@.sig == w.sig@,
        w@.hops == w.hops,
{
}

/// A list says what its messages say, one by one and in order.
pub proof fn law_lists_keep_order(messages: Seq<Message>, wires: Seq<Wire>, i: int)
    ensures
        messages_view(messages).len() == messages.len(),
        0 <= i < messages.len() ==> messages_view(messages)[i] == messages[i]@,
        wires_view(wires).len() == wires.len(),
        0 <= i < wires.len() ==> wires_view(wires)[i] == wires[i]@,
{
}

/// A message is what its wire says, field by field. Only the act is spelled
/// differently: an act that is sent by its name arrives as that act.
pub proof fn law_wire_carries_the_message(w: WireView)
    ensures
        message_of(w).id == w.id,
        message_of(w).sender == w.sender,
        message_of(w).channel == w.channel,
        message_of(w).payload == w.payload,
        message_of(w).sig == w.sig,
        message_of(w).hops == w.hops,
        message_of(w).act == Act::Request <==> w.act == "request"@,
        message_of(w).act == Act::Propose <==> w.act == "propose"@,
        message_of(w).act == Act::Agree <==> w.act == "agree"@,
        message_of(w).act == Act::Refuse <==> w.act == "refuse"@,
{
    law_acts_have_their_names(Act::Inform, w.act);
}

} // verus!
