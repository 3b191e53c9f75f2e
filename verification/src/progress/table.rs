//! What is known of the bars on the screen, by their names.

use crate::names;
use crate::names::NameIndex;
use crate::order;
use crate::progress::{Bar, BarState};
use crate::text;
use vstd::prelude::*;

verus! {

/// Bars by name.
pub struct BarTable {
    pub slots: Vec<(String, BarState)>,
    pub index: NameIndex,
}

/// The bars that an index points at.
pub open spec fn bars_in(slots: Seq<(String, BarState)>, index: Map<Seq<char>, usize>) -> Map<
    Seq<char>,
    Bar,
> {
    Map::new(|name: Seq<char>| index.contains_key(name), |name: Seq<char>|
        slots[index[name] as int].1@)
}

/// The index points at slots that bear the names.
pub open spec fn is_table(slots: Seq<(String, BarState)>, index: Map<Seq<char>, usize>) -> bool {
    forall|name: Seq<char>| #[trigger]
        index.contains_key(name) ==> index[name] < slots.len() && slots[index[name] as int].0@
            == name
}

impl View for BarTable {
    type V = Map<Seq<char>, Bar>;

    open spec fn view(&self) -> Map<Seq<char>, Bar> {
        bars_in(self.slots@, names::index_contents(self.index))
    }
}

/// The names of the bars in order.
pub open spec fn is_names_of(list: Seq<Seq<char>>, bars: Map<Seq<char>, Bar>) -> bool {
    &&& order::ascending::<String>(list)
    &&& forall|name: Seq<char>| #[trigger] list.contains(name) <==> bars.contains_key(name)
}

/// The names of the bars in order.
pub open spec fn names_of(bars: Map<Seq<char>, Bar>) -> Seq<Seq<char>> {
    choose|list: Seq<Seq<char>>| is_names_of(list, bars)
}

proof fn lemma_names_of(list: Seq<Seq<char>>, bars: Map<Seq<char>, Bar>)
    requires
        is_names_of(list, bars),
    ensures
        names_of(bars) == list,
{
    let chosen = names_of(bars);
    assert(is_names_of(chosen, bars));
    assert forall|name: Seq<char>| #[trigger] list.contains(name) <==> chosen.contains(name) by {
        assert(list.contains(name) <==> bars.contains_key(name));
        assert(chosen.contains(name) <==> bars.contains_key(name));
    }
    order::lemma_ascending_unique::<String>(list, chosen);
}

impl BarTable {
    pub open spec fn wf(&self) -> bool {
        is_table(self.slots@, names::index_contents(self.index))
    }

    /// A table without bars.
    pub fn new() -> (table: BarTable)
        ensures
            table.wf(),
            table@ == Map::<Seq<char>, Bar>::empty(),
    {
        let table = BarTable { slots: Vec::new(), index: NameIndex::new() };
        assert(table@ =~= Map::<Seq<char>, Bar>::empty());
        table
    }

    /// Whether there is a bar of the name.
    pub fn contains_key(&self, name: &str) -> (found: bool)
        requires
            self.wf(),
        ensures
            found == self@.contains_key(name@),
    {
        self.index.get(name).is_some()
    }

    /// The bar of the name.
    pub fn get(&self, name: &str) -> (found: Option<&BarState>)
        requires
            self.wf(),
        ensures
            match found {
                Some(bar) => self@.contains_key(name@) && self@[name@] == bar@,
                None => !self@.contains_key(name@),
            },
    {
        match self.index.get(name) {
            Some(i) => {
                assert(names::index_contents(self.index).contains_key(name@));
                Some(&self.slots[i].1)
            },
            None => None,
        }
    }

    /// Gives the name a bar.
    pub fn insert(&mut self, name: &str, bar: BarState)
        requires
            old(self).wf(),
        ensures
            final(self).wf(),
            final(self)@ == old(self)@.insert(name@, bar@),
    {
        let ghost before = self@;
        let ghost slots = self.slots@;
        let ghost index = names::index_contents(self.index);
        match self.index.get(name) {
            Some(i) => {
                assert(index.contains_key(name@));
                self.slots.set(i, (name.to_owned(), bar));
                proof {
                    assert forall|n: Seq<char>| #[trigger] index.contains_key(n) implies index[n]
                        < self.slots@.len() && self.slots@[index[n] as int].0@ == n && (n != name@
                        ==> self.slots@[index[n] as int] == slots[index[n] as int]) by {
                        assert(slots[index[n] as int].0@ == n);
                        assert(slots[i as int].0@ == name@);
                    }
                    assert(self@ =~= before.insert(name@, bar@));
                }
            },
            None => {
                let n: usize = self.slots.len();
                self.slots.push((name.to_owned(), bar));
                let _ = self.index.insert(name, n);
                proof {
                    let index1 = names::index_contents(self.index);
                    assert forall|m: Seq<char>| #[trigger] index1.contains_key(m) implies index1[m]
                        < self.slots@.len() && self.slots@[index1[m] as int].0@ == m by {
                        if m != name@ {
                            assert(index.contains_key(m));
                        }
                    }
                    assert forall|m: Seq<char>| #[trigger] index.contains_key(m) implies index1[m]
                        == index[m] && self.slots@[index[m] as int] == slots[index[m] as int] by {
                        assert(m != name@);
                    }
                    assert(self@ =~= before.insert(name@, bar@));
                }
            },
        }
    }

    /// Takes the bar of the name out; whether there was one.
    pub fn remove(&mut self, name: &str) -> (found: bool)
        requires
            old(self).wf(),
        ensures
            final(self).wf(),
            final(self)@ == old(self)@.remove(name@),
            found == old(self)@.contains_key(name@),
    {
        let ghost before = self@;
        let ghost index = names::index_contents(self.index);
        let found = self.index.remove(name).is_some();
        proof {
            let index1 = names::index_contents(self.index);
            assert forall|m: Seq<char>| #[trigger] index1.contains_key(m) implies index1[m]
                < self.slots@.len() && self.slots@[index1[m] as int].0@ == m by {
                assert(index.contains_key(m));
            }
            assert(self@ =~= before.remove(name@));
        }
        found
    }

    /// The names of the bars in order.
    pub fn names(&self) -> (list: Vec<String>)
        requires
            self.wf(),
        ensures
            text::strings(list@) == names_of(self@),
            is_names_of(text::strings(list@), self@),
    {
        let ghost index = names::index_contents(self.index);
        let mut set: order::SortedSet<String> = order::SortedSet::new();
        let mut i: usize = 0;
        while i < self.slots.len()
            invariant
                i <= self.slots@.len(),
                index == names::index_contents(self.index),
                self.wf(),
                set.wf(),
                forall|name: Seq<char>| #[trigger]
                    set.has(name) <==> index.contains_key(name) && index[name] < i,
            decreases self.slots@.len() - i,
        {
            let name = &self.slots[i].0;
            let ghost before = set;
            if let Some(at) = self.index.get(name.as_str()) {
                if at == i {
                    let _ = set.insert(name.clone());
                }
            }
            proof {
                assert forall|n: Seq<char>| #[trigger] set.has(n) <==> index.contains_key(n)
                    && index[n] < i + 1 by {
                    assert(before.has(n) <==> index.contains_key(n) && index[n] < i);
                    if index.contains_key(n) && index[n] == i {
                        assert(self.slots@[i as int].0@ == n);
                    }
                }
            }
            i = i + 1;
        }
        let mut list: Vec<String> = Vec::new();
        let mut k: usize = 0;
        let ghost members = set.members();
        while k < set.len()
            invariant
                k <= members.len(),
                set.members() == members,
                text::strings(list@) == members.take(k as int),
            decreases members.len() - k,
        {
            let ghost before = list@;
            list.push(set.at(k).clone());
            proof {
                assert(text::strings(list@) =~= text::strings(before).push(members[k as int]));
                assert(members.take(k as int + 1) =~= members.take(k as int).push(
                    members[k as int],
                ));
            }
            k = k + 1;
        }
        proof {
            assert(members.take(k as int) =~= members);
            assert forall|name: Seq<char>| #[trigger] members.contains(name)
                <==> self@.contains_key(name) by {
                assert(set.has(name) == members.contains(name));
                if index.contains_key(name) {
                    assert(index[name] < self.slots@.len());
                }
            }
            lemma_names_of(members, self@);
        }
        list
    }
}

/// The numbers of objects by name.
pub open spec fn counts_in(
    counts: Seq<(usize, usize)>,
    index: Map<Seq<char>, usize>,
) -> Map<Seq<char>, (usize, usize)> {
    Map::new(|name: Seq<char>| index.contains_key(name), |name: Seq<char>|
        counts[index[name] as int])
}

/// How many objects there are of each repository, and how many of them are here.
pub struct ObjectTable {
    pub counts: Vec<(usize, usize)>,
    pub index: NameIndex,
}

impl View for ObjectTable {
    type V = Map<Seq<char>, (usize, usize)>;

    open spec fn view(&self) -> Map<Seq<char>, (usize, usize)> {
        counts_in(self.counts@, names::index_contents(self.index))
    }
}

impl ObjectTable {
    /// Every name has a place of its own.
    pub open spec fn wf(&self) -> bool {
        let index = names::index_contents(self.index);
        &&& forall|name: Seq<char>| #[trigger]
            index.contains_key(name) ==> index[name] < self.counts@.len()
        &&& forall|a: Seq<char>, b: Seq<char>|
            #![trigger index.contains_key(a), index.contains_key(b)]
            index.contains_key(a) && index.contains_key(b) && index[a] == index[b] ==> a == b
    }

    /// A table without repositories.
    pub fn new() -> (table: ObjectTable)
        ensures
            table.wf(),
            table@ == Map::<Seq<char>, (usize, usize)>::empty(),
    {
        let table = ObjectTable { counts: Vec::new(), index: NameIndex::new() };
        assert(table@ =~= Map::<Seq<char>, (usize, usize)>::empty());
        table
    }

    /// The numbers of a repository; none before they are known.
    pub fn get(&self, name: &str) -> (counts: (usize, usize))
        requires
            self.wf(),
        ensures
            counts == (if self@.contains_key(name@) {
                self@[name@]
            } else {
                (0usize, 0usize)
            }),
    {
        match self.index.get(name) {
            Some(i) => {
                assert(names::index_contents(self.index).contains_key(name@));
                self.counts[i]
            },
            None => (0, 0),
        }
    }

    /// Sets the numbers of a repository.
    pub fn insert(&mut self, name: &str, counts: (usize, usize))
        requires
            old(self).wf(),
        ensures
            final(self).wf(),
            final(self)@ == old(self)@.insert(name@, counts),
    {
        let ghost before = self@;
        let ghost old_counts = self.counts@;
        let ghost index = names::index_contents(self.index);
        match self.index.get(name) {
            Some(i) => {
                assert(index.contains_key(name@));
                self.counts.set(i, counts);
                proof {
                    assert forall|n: Seq<char>| #[trigger] index.contains_key(n) && n
                        != name@ implies self.counts@[index[n] as int] == old_counts[index[n] as int] by {
                        assert(index.contains_key(name@));
                    }
                    assert(self@ =~= before.insert(name@, counts));
                }
            },
            None => {
                let n: usize = self.counts.len();
                self.counts.push(counts);
                let _ = self.index.insert(name, n);
                proof {
                    let index1 = names::index_contents(self.index);
                    assert forall|m: Seq<char>| #[trigger] index1.contains_key(m) implies index1[m]
                        < self.counts@.len() && (m != name@ ==> index.contains_key(m) && index[m]
                        == index1[m] && index[m] < n) by {
                        if m != name@ {
                            assert(index.contains_key(m));
                        }
                    }
                    assert(self@ =~= before.insert(name@, counts));
                }
            },
        }
    }
}

} // verus!
