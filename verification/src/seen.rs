//! The record of what has been delivered: which agent has seen which message.

use vstd::prelude::*;

use crate::text::same_text;

verus! {

/// A set of pairs of an agent's name and a message identifier.
pub struct SeenSet {
    entries: Vec<(String, u64)>,
}

impl View for SeenSet {
    type V = Set<(Seq<char>, u64)>;

    closed spec fn view(&self) -> Set<(Seq<char>, u64)> {
        pairs(self.entries@).to_set()
    }
}

/// What a list of pairs says.
pub open spec fn pairs(entries: Seq<(String, u64)>) -> Seq<(Seq<char>, u64)> {
    entries.map_values(|e: (String, u64)| (e.0@, e.1))
}

impl SeenSet {
    /// No pair is recorded twice.
    pub closed spec fn wf(&self) -> bool {
        pairs(self.entries@).no_duplicates()
    }

    /// The empty record.
    pub fn new() -> (set: SeenSet)
        ensures
            set.wf(),
            set@ == Set::<(Seq<char>, u64)>::empty(),
    {
        let set = SeenSet { entries: Vec::new() };
        assert(set@ =~= Set::<(Seq<char>, u64)>::empty());
        set
    }

    /// Records that `agent` has seen message `id`, and says whether that is new.
    pub fn insert(&mut self, agent: &str, id: u64) -> (new: bool)
        requires
            old(self).wf(),
        ensures
            final(self).wf(),
            final(self)@ == old(self)@.insert((agent@, id)),
            new == !old(self)@.contains((agent@, id)),
    {
        let ghost earlier = pairs(self.entries@);
        let mut i: usize = 0;
        while i < self.entries.len()
            invariant
                *self == *old(self),
                self.wf(),
                i <= self.entries@.len(),
                earlier == pairs(self.entries@),
                forall|j: int| 0 <= j < i ==> earlier[j] != (agent@, id),
            decreases self.entries@.len() - i,
        {
            let entry = &self.entries[i];
            if entry.1 == id && same_text(entry.0.as_str(), agent) {
                assert(earlier[i as int] == (agent@, id));
                assert(self@ =~= old(self)@.insert((agent@, id)));
                return false;
            }
            i = i + 1;
        }
        self.entries.push((agent.to_owned(), id));
        proof {
            let later = pairs(self.entries@);
            assert(later =~= earlier.push((agent@, id)));
            earlier.lemma_push_to_set_commute((agent@, id));
            assert(!earlier.contains((agent@, id)));
        }
        true
    }
}

} // verus!
