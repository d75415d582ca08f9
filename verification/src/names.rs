//! Sets of names, kept in dictionary order, and the log of handled tasks.

use vstd::prelude::*;

use crate::text;
use crate::text::{comes_before, same_text};

verus! {

/// Whether a list of texts is in strict dictionary order.
pub open spec fn strictly_ordered(list: Seq<Seq<char>>) -> bool {
    forall|i: int, j: int| 0 <= i < j < list.len() ==> text::before(list[i], list[j])
}

/// Whether a list of texts is in dictionary order, repetitions allowed.
pub open spec fn ordered(list: Seq<Seq<char>>) -> bool {
    forall|i: int, j: int|
        0 <= i < j < list.len() ==> list[i] == list[j] || text::before(list[i], list[j])
}

/// The place of `name` in a list in dictionary order: all that stands before it
/// in that order is to the left, and nothing else.
fn place_of(list: &Vec<String>, name: &str) -> (place: usize)
    requires
        ordered(text::texts(list@)),
    ensures
        place <= list@.len(),
        forall|i: int| 0 <= i < place ==> text::before(#[trigger] list@[i]@, name@),
        forall|i: int|
            place <= i < list@.len() ==> #[trigger] list@[i]@ == name@ || text::before(
                name@,
                list@[i]@,
            ),
{
    let mut place: usize = 0;
    while place < list.len() && comes_before(list[place].as_str(), name)
        invariant
            place <= list@.len(),
            forall|i: int| 0 <= i < place ==> text::before(#[trigger] list@[i]@, name@),
        decreases list@.len() - place,
    {
        place = place + 1;
    }
    proof {
        assert forall|i: int| place <= i < list@.len() implies #[trigger] list@[i]@ == name@
            || text::before(name@, list@[i]@) by {
            let here = list@[place as int]@;
            if here != name@ {
                text::lemma_before_total(here, name@);
            }
            if i > place {
                assert(text::texts(list@)[place as int] == here);
                assert(text::texts(list@)[i] == list@[i]@);
                if here != name@ && here != list@[i]@ {
                    text::lemma_before_transitive(name@, here, list@[i]@);
                }
            }
        }
    }
    place
}

/// A set of names.
pub struct NameSet {
    names: Vec<String>,
}

impl View for NameSet {
    type V = Set<Seq<char>>;

    closed spec fn view(&self) -> Set<Seq<char>> {
        text::texts(self.names@).to_set()
    }
}

impl NameSet {
    /// The names are in strict dictionary order, so none occurs twice.
    pub closed spec fn wf(&self) -> bool {
        strictly_ordered(text::texts(self.names@))
    }

    /// The empty set.
    pub fn new() -> (set: NameSet)
        ensures
            set.wf(),
            set@ == Set::<Seq<char>>::empty(),
    {
        let set = NameSet { names: Vec::new() };
        assert(set@ =~= Set::<Seq<char>>::empty());
        set
    }

    /// Whether `name` is in the set.
    pub fn contains(&self, name: &str) -> (found: bool)
        requires
            self.wf(),
        ensures
            found == self@.contains(name@),
    {
        let place = place_of(&self.names, name);
        let found = place < self.names.len() && same_text(self.names[place].as_str(), name);
        proof {
            self.lemma_found_at_place(place as int, name@);
        }
        found
    }

    /// Puts `name` into the set.
    pub fn insert(&mut self, name: &str)
        requires
            old(self).wf(),
        ensures
            final(self).wf(),
            final(self)@ == old(self)@.insert(name@),
    {
        let place = place_of(&self.names, name);
        let found = place < self.names.len() && same_text(self.names[place].as_str(), name);
        proof {
            self.lemma_found_at_place(place as int, name@);
        }
        if !found {
            let ghost earlier = text::texts(self.names@);
            self.names.insert(place, name.to_owned());
            proof {
                let later = text::texts(self.names@);
                assert(later =~= earlier.insert(place as int, name@));
                assert(self@ =~= old(self)@.insert(name@)) by {
                    assert forall|n: Seq<char>| later.contains(n) == (earlier.contains(n) || n
                        == name@) by {
                        if earlier.contains(n) {
                            let i = choose|i: int| 0 <= i < earlier.len() && earlier[i] == n;
                            if i < place {
                                assert(later[i] == n);
                            } else {
                                assert(later[i + 1] == n);
                            }
                        }
                        assert(later[place as int] == name@);
                        if later.contains(n) && n != name@ {
                            let i = choose|i: int| 0 <= i < later.len() && later[i] == n;
                            if i < place {
                                assert(earlier[i] == n);
                            } else {
                                assert(earlier[i - 1] == n);
                            }
                        }
                    }
                }
                assert(strictly_ordered(later)) by {
                    assert forall|i: int, j: int| 0 <= i < j < later.len() implies text::before(
                        later[i],
                        later[j],
                    ) by {
                        let i0 = if i < place { i } else { i - 1 };
                        let j0 = if j < place { j } else { j - 1 };
                        if i != place && j != place {
                            assert(text::before(earlier[i0], earlier[j0]));
                        } else if j == place {
                            assert(old(self).names@[i]@ == later[i]);
                        } else {
                            assert(old(self).names@[j0]@ == later[j]);
                            assert(old(self)@.contains(old(self).names@[j0]@)) by {
                                assert(earlier[j0] == old(self).names@[j0]@);
                            }
                        }
                    }
                }
            }
        } else {
            assert(self@ =~= old(self)@.insert(name@));
        }
    }

    /// The names, in dictionary order, each once.
    pub fn sorted(&self) -> (names: &Vec<String>)
        requires
            self.wf(),
        ensures
            strictly_ordered(text::texts(names@)),
            text::texts(names@).to_set() == self@,
    {
        &self.names
    }

    /// A name is in the set exactly if it stands at its place in the order.
    proof fn lemma_found_at_place(&self, place: int, name: Seq<char>)
        requires
            self.wf(),
            0 <= place <= self.names@.len(),
            forall|i: int| 0 <= i < place ==> text::before(#[trigger] self.names@[i]@, name),
            forall|i: int|
                place <= i < self.names@.len() ==> #[trigger] self.names@[i]@ == name
                    || text::before(name, self.names@[i]@),
        ensures
            self@.contains(name) <==> place < self.names@.len() && self.names@[place]@ == name,
    {
        let list = text::texts(self.names@);
        text::lemma_before_irreflexive(name);
        if place < list.len() && self.names@[place]@ == name {
            assert(list[place] == name);
        }
        if self@.contains(name) {
            let i = choose|i: int| 0 <= i < list.len() && list[i] == name;
            assert(self.names@[i]@ == name);
            if i > place {
                assert(text::before(list[place], list[i]));
                assert(self.names@[place]@ == list[place]);
                if list[place] != name {
                    text::lemma_before_transitive(name, list[place], name);
                }
            }
        }
    }
}

/// How the record that `agent` handled `task` reads.
pub open spec fn handled_line(task: Seq<char>, agent: Seq<char>) -> Seq<char> {
    task + "→"@ + agent
}

/// Whether `tasks` lists the keys of `log`, each once.
pub open spec fn lists_keys(tasks: Seq<Seq<char>>, log: Map<Seq<char>, Seq<char>>) -> bool {
    &&& tasks.no_duplicates()
    &&& forall|t: Seq<char>| #[trigger] tasks.contains(t) <==> log.dom().contains(t)
}

/// Which agent handled which task.
pub struct TaskLog {
    tasks: Vec<String>,
    agents: Vec<String>,
}

impl View for TaskLog {
    type V = Map<Seq<char>, Seq<char>>;

    closed spec fn view(&self) -> Map<Seq<char>, Seq<char>> {
        Map::new(
            |t: Seq<char>| text::texts(self.tasks@).contains(t),
            |t: Seq<char>| self.agents@[text::texts(self.tasks@).index_of(t)]@,
        )
    }
}

impl TaskLog {
    /// Every task is listed once, with its agent.
    pub closed spec fn wf(&self) -> bool {
        &&& self.tasks@.len() == self.agents@.len()
        &&& text::texts(self.tasks@).no_duplicates()
    }

    /// The empty log.
    pub fn new() -> (log: TaskLog)
        ensures
            log.wf(),
            log@ == Map::<Seq<char>, Seq<char>>::empty(),
    {
        let log = TaskLog { tasks: Vec::new(), agents: Vec::new() };
        assert(log@ =~= Map::<Seq<char>, Seq<char>>::empty());
        log
    }

    /// What the log says of the task at a place in the list.
    proof fn lemma_entry(&self, i: int)
        requires
            self.wf(),
            0 <= i < self.tasks@.len(),
        ensures
            self@.dom().contains(self.tasks@[i]@),
            self@[self.tasks@[i]@] == self.agents@[i]@,
    {
        let tasks = text::texts(self.tasks@);
        assert(tasks[i] == self.tasks@[i]@);
        assert(tasks.contains(tasks[i]));
        assert(tasks[tasks.index_of(tasks[i])] == tasks[i]);
    }

    /// Records that `agent` handled `task`, in place of what the log said of
    /// that task.
    pub fn insert(&mut self, task: &str, agent: &str)
        requires
            old(self).wf(),
        ensures
            final(self).wf(),
            final(self)@ == old(self)@.insert(task@, agent@),
    {
        let ghost earlier = text::texts(self.tasks@);
        let mut i: usize = 0;
        while i < self.tasks.len() && !same_text(self.tasks[i].as_str(), task)
            invariant
                *self == *old(self),
                i <= self.tasks@.len(),
                earlier == text::texts(self.tasks@),
                forall|j: int| 0 <= j < i ==> earlier[j] != task@,
            decreases self.tasks@.len() - i,
        {
            i = i + 1;
        }
        if i < self.tasks.len() {
            self.agents.set(i, agent.to_owned());
            assert(earlier[i as int] == task@);
        } else {
            self.tasks.push(task.to_owned());
            self.agents.push(agent.to_owned());
            assert(text::texts(self.tasks@) =~= earlier.push(task@));
            assert(!earlier.contains(task@));
        }
        proof {
            let later = text::texts(self.tasks@);
            assert(self.wf());
            assert forall|t: Seq<char>| later.contains(t) == (earlier.contains(t) || t
                == task@) by {
                if earlier.contains(t) {
                    let j = earlier.index_of(t);
                    assert(earlier[j] == t);
                    assert(later[j] == t);
                }
                assert(later[i as int] == task@);
                if later.contains(t) && t != task@ {
                    let j = later.index_of(t);
                    assert(later[j] == t);
                    assert(earlier[j] == t);
                }
            }
            assert forall|t: Seq<char>| later.contains(t) implies #[trigger] self@[t] == old(
                self,
            )@.insert(task@, agent@)[t] by {
                let j = later.index_of(t);
                assert(later[j] == t);
                self.lemma_entry(j);
                if t == task@ {
                    self.lemma_entry(i as int);
                } else {
                    assert(earlier[j] == t);
                    old(self).lemma_entry(j);
                }
            }
            assert(self@ =~= old(self)@.insert(task@, agent@));
        }
    }

    /// The log as lines of text, in dictionary order.
    pub fn lines(&self) -> (lines: Vec<String>)
        requires
            self.wf(),
        ensures
            ordered(text::texts(lines@)),
            exists|tasks: Seq<Seq<char>>|
                #[trigger] lists_keys(tasks, self@) && text::texts(lines@).to_multiset()
                    == tasks.map_values(
                    |t: Seq<char>| handled_line(t, self@[t]),
                ).to_multiset(),
    {
        let ghost tasks = text::texts(self.tasks@);
        let ghost line = |t: Seq<char>| handled_line(t, self@[t]);
        let mut lines: Vec<String> = Vec::new();
        let mut i: usize = 0;
        assert(text::texts(lines@) =~= tasks.take(0).map_values(line));
        while i < self.tasks.len()
            invariant
                self.wf(),
                i <= self.tasks@.len(),
                tasks == text::texts(self.tasks@),
                line == |t: Seq<char>| handled_line(t, self@[t]),
                ordered(text::texts(lines@)),
                text::texts(lines@).to_multiset() == tasks.take(i as int).map_values(
                    line,
                ).to_multiset(),
            decreases self.tasks@.len() - i,
        {
            let mut next = self.tasks[i].clone();
            next.append("→");
            next.append(self.agents[i].as_str());
            proof {
                self.lemma_entry(i as int);
                assert(next@ == line(tasks[i as int]));
                assert(tasks.take(i + 1).map_values(line) =~= tasks.take(i as int).map_values(
                    line,
                ).push(next@));
                vstd::seq_lib::to_multiset_build(tasks.take(i as int).map_values(line), next@);
            }
            let ghost earlier = text::texts(lines@);
            let place = place_of(&lines, next.as_str());
            let ghost said = next@;
            let ghost old_lines = lines@;
            lines.insert(place, next);
            proof {
                let later = text::texts(lines@);
                assert(later =~= earlier.insert(place as int, said));
                vstd::seq_lib::to_multiset_insert(earlier, place as int, said);
                assert forall|a: int, b: int| 0 <= a < b < later.len() implies later[a] == later[b]
                    || text::before(later[a], later[b]) by {
                    let a0 = if a < place { a } else { a - 1 };
                    let b0 = if b < place { b } else { b - 1 };
                    if a != place && b != place {
                        assert(earlier[a0] == earlier[b0] || text::before(
                            earlier[a0],
                            earlier[b0],
                        ));
                    } else if b == place {
                        assert(old_lines[a]@ == later[a]);
                    } else {
                        assert(old_lines[b0]@ == later[b]);
                    }
                }
            }
            i = i + 1;
        }
        assert(tasks.take(i as int) =~= tasks);
        assert(lists_keys(tasks, self@));
        lines
    }
}

/// To be in dictionary order is to have the earlier text first, pair by pair: in
/// strict order none occurs twice.
pub proof fn law_order_is_pairwise(list: Seq<Seq<char>>)
    ensures
        strictly_ordered(list) <==> forall|i: int, j: int|
            0 <= i < j < list.len() ==> text::before(#[trigger] list[i], #[trigger] list[j]),
        ordered(list) <==> forall|i: int, j: int|
            0 <= i < j < list.len() ==> #[trigger] list[i] == #[trigger] list[j] || text::before(
                list[i],
                list[j],
            ),
{
}

/// The record of a handled task names the task, an arrow and the agent; and a list
/// of the tasks in a log has each of them, once, and no other.
pub proof fn law_log_names_task_and_agent(
    task: Seq<char>,
    agent: Seq<char>,
    tasks: Seq<Seq<char>>,
    log: Map<Seq<char>, Seq<char>>,
)
    ensures
        handled_line(task, agent) == task + "→"@ + agent,
        lists_keys(tasks, log) ==> tasks.no_duplicates(),
        lists_keys(tasks, log) ==> (tasks.contains(task) <==> log.dom().contains(task)),
{
}

} // verus!
