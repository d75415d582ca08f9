//! The capability table: which channels each agent was granted.

use vstd::prelude::*;

use crate::channel;
use crate::channel::subject_for;
use crate::text;
use crate::text::same_text;

verus! {

/// The channels that one agent was granted.
pub struct Grant {
    pub agent: String,
    pub channels: Vec<String>,
}

/// What a grant says.
#[verifier::ext_equal]
pub struct GrantView {
    pub agent: Seq<char>,
    pub channels: Seq<Seq<char>>,
}

impl View for Grant {
    type V = GrantView;

    open spec fn view(&self) -> GrantView {
        GrantView { agent: self.agent@, channels: text::texts(self.channels@) }
    }
}

/// What a list of grants says.
pub open spec fn grants_view(grants: Seq<Grant>) -> Seq<GrantView> {
    grants.map_values(|g: Grant| g@)
}

impl GrantView {
    /// Whether the agent was granted `channel`.
    pub open spec fn allows(self, channel: Seq<char>) -> bool {
        self.channels.contains(channel)
    }
}

impl Grant {
    /// Whether the agent was granted `channel`.
    pub fn allows(&self, channel: &str) -> (granted: bool)
        ensures
            granted == self@.allows(channel@),
    {
        let mut i: usize = 0;
        while i < self.channels.len()
            invariant
                i <= self.channels@.len(),
                forall|j: int| 0 <= j < i ==> self@.channels[j] != channel@,
            decreases self.channels@.len() - i,
        {
            if same_text(self.channels[i].as_str(), channel) {
                assert(self@.channels[i as int] == channel@);
                return true;
            }
            i = i + 1;
        }
        false
    }

    /// The name of the agent's durable consumer.
    pub fn consumer_name(&self) -> (name: String)
        ensures
            name@ == "agent-"@ + self@.agent,
    {
        let mut name = "agent-".to_owned();
        name.append(self.agent.as_str());
        name
    }

    /// The subject that the agent's consumer is filtered to: that of the first
    /// channel that the agent was granted. A message under any other subject is
    /// not delivered to the agent.
    pub fn filter_subject(&self) -> (subject: String)
        requires
            self@.channels.len() > 0,
        ensures
            subject@ == channel::channel_subject(self@.channels[0]),
    {
        subject_for(self.channels[0].as_str())
    }
}

/// The channel on which the agents coordinate.
pub open spec fn coordination_channel() -> Seq<char> {
    "build-coord"@
}

/// The grants of the two agents: each may use the coordination channel, and no
/// other.
pub open spec fn standard_grants() -> Seq<GrantView> {
    seq![
        GrantView { agent: "synth-agent"@, channels: seq![coordination_channel()] },
        GrantView { agent: "relay-agent"@, channels: seq![coordination_channel()] },
    ]
}

/// A grant of the coordination channel alone.
fn coordination_grant(agent: &str) -> (grant: Grant)
    ensures
        grant@ == (GrantView { agent: agent@, channels: seq![coordination_channel()] }),
{
    let mut channels: Vec<String> = Vec::new();
    channels.push("build-coord".to_owned());
    let grant = Grant { agent: agent.to_owned(), channels };
    assert(grant@.channels =~= seq![coordination_channel()]);
    grant
}

/// The capability table of the two agents.
pub fn standard_table() -> (table: Vec<Grant>)
    ensures
        grants_view(table@) == standard_grants(),
{
    let mut table: Vec<Grant> = Vec::new();
    table.push(coordination_grant("synth-agent"));
    table.push(coordination_grant("relay-agent"));
    assert(grants_view(table@) =~= standard_grants());
    table
}

/// A grant allows the channels that it lists, and no other.
pub proof fn law_only_listed_channels_are_granted(grant: Grant, channel: Seq<char>)
    ensures
        grant@.agent == grant.agent@,
        grant@.channels.len() == grant.channels@.len(),
        forall|i: int|
            0 <= i < grant.channels@.len() ==> #[trigger] grant@.channels[i]
                == grant.channels@[i]@,
        grant@.allows(channel) <==> exists|i: int|
            0 <= i < grant.channels@.len() && #[trigger] grant.channels@[i]@ == channel,
{
    let listed = grant@.channels;
    if grant@.allows(channel) {
        let i = choose|i: int| 0 <= i < listed.len() && listed[i] == channel;
        assert(grant.channels@[i]@ == channel);
    }
    if exists|i: int| 0 <= i < grant.channels@.len() && #[trigger] grant.channels@[i]@ == channel {
        let i = choose|i: int|
            0 <= i < grant.channels@.len() && #[trigger] grant.channels@[i]@ == channel;
        assert(listed[i] == channel);
    }
}

/// A table says what its grants say, one by one and in order.
pub proof fn law_tables_keep_order(grants: Seq<Grant>, i: int)
    ensures
        grants_view(grants).len() == grants.len(),
        0 <= i < grants.len() ==> grants_view(grants)[i] == grants[i]@,
{
}

/// Two agents take part, in that order, and each may use the coordination channel
/// and no other.
pub proof fn law_two_agents_share_one_channel(channel: Seq<char>)
    ensures
        standard_grants().len() == 2,
        standard_grants()[0].agent == "synth-agent"@,
        standard_grants()[1].agent == "relay-agent"@,
        standard_grants()[0].channels == seq!["build-coord"@],
        standard_grants()[1].channels == seq!["build-coord"@],
        standard_grants()[0].allows(channel) <==> channel == "build-coord"@,
        standard_grants()[1].allows(channel) <==> channel == "build-coord"@,
{
    assert(standard_grants()[0].channels[0] == "build-coord"@);
    assert(standard_grants()[1].channels[0] == "build-coord"@);
}

} // verus!
