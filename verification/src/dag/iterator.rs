//! Iteration over a resolved dependency graph.

use crate::dag::topo;
use crate::dag::tree;
use crate::dag::tree::{DagItem, DagTree};
use crate::dag::{DagNode, Placed};
use vstd::prelude::*;

verus! {

/// The entries of `indexes` that are not marked in `seen` when they are reached, with the marks
/// afterwards; reaching an entry marks it.
pub open spec fn take_unseen(seen: Seq<bool>, indexes: Seq<int>) -> (Seq<bool>, Seq<int>)
    decreases indexes.len(),
{
    if indexes.len() == 0 {
        (seen, Seq::empty())
    } else {
        let (marks, taken) = take_unseen(seen, indexes.drop_last());
        let last = indexes.last();
        if marks[last] {
            (marks, taken)
        } else {
            (marks.update(last, true), taken.push(last))
        }
    }
}

/// The unseen dependents of the nodes at `level`, with the marks afterwards.
pub open spec fn next_level<D>(items: Seq<Placed<D>>, seen: Seq<bool>, level: Seq<int>) -> (
    Seq<bool>,
    Seq<int>,
)
    decreases level.len(),
{
    if level.len() == 0 {
        (seen, Seq::empty())
    } else {
        let (marks, taken) = next_level(items, seen, level.drop_last());
        let (marks1, more) = take_unseen(marks, items[level.last()].dependents);
        (marks1, taken + more)
    }
}

/// Every dependent stands before the node it depends on.
pub open spec fn dependents_first<D>(items: Seq<Placed<D>>) -> bool {
    forall|p: int, l: int|
        0 <= p < items.len() && 0 <= l < items[p].dependents.len() ==> 0
            <= #[trigger] items[p].dependents[l] < p
}

/// The dependents of a node, level by level: first the nodes that depend on it directly, then
/// those that depend on these, and so on.  Past the first level a node appears once.
pub struct DagDependentsIterator<'a, D: DagNode> {
    pub(crate) inner: &'a Vec<DagItem<D>>,
    pub(crate) seen: Vec<bool>,
    pub(crate) idxes: Vec<usize>,
}

impl<'a, D: DagNode> DagDependentsIterator<'a, D> {
    /// The nodes among which dependents are looked up.
    pub closed spec fn items(&self) -> Seq<Placed<D>> {
        tree::all_placed(self.inner@)
    }

    /// The nodes that appeared past the first level.
    pub closed spec fn marks(&self) -> Seq<bool> {
        self.seen@
    }

    /// The positions of the level that comes next.
    pub closed spec fn level(&self) -> Seq<int> {
        topo::as_ints(self.idxes@)
    }

    /// All positions lie among the nodes.
    pub open spec fn well_formed(&self) -> bool {
        &&& dependents_first(self.items())
        &&& self.marks().len() == self.items().len()
        &&& forall|l: int|
            0 <= l < self.level().len() ==> 0 <= #[trigger] self.level()[l] < self.items().len()
    }

    /// The next level, if there is one.
    pub fn next(&mut self) -> (found: Option<Vec<&'a D>>)
        requires
            old(self).well_formed(),
        ensures
            final(self).well_formed(),
            final(self).items() == old(self).items(),
            (final(self).marks(), final(self).level()) == next_level(
                old(self).items(),
                old(self).marks(),
                old(self).level(),
            ),
            match found {
                None => old(self).level().len() == 0,
                Some(nodes) => {
                    &&& old(self).level().len() > 0
                    &&& nodes@.len() == old(self).level().len()
                    &&& forall|l: int|
                        0 <= l < nodes@.len() ==> *(#[trigger] nodes@[l]) == old(self).items()[old(
                            self,
                        ).level()[l]].node
                },
            },
    {
        let ghost items = self.items();
        let ghost seen0 = self.marks();
        let ghost level0 = self.level();
        let mut nodes: Vec<&'a D> = Vec::new();
        let mut next: Vec<usize> = Vec::new();
        let mut seen: Vec<bool> = Vec::new();
        let mut m: usize = 0;
        while m < self.seen.len()
            invariant
                m <= self.seen@.len(),
                seen@ == self.seen@.take(m as int),
            decreases self.seen@.len() - m,
        {
            seen.push(self.seen[m]);
            m = m + 1;
            assert(self.seen@.take(m as int) =~= self.seen@.take(m as int - 1).push(self.seen@[m as int - 1]));
        }
        assert(seen@ =~= seen0);
        let mut i: usize = 0;
        assert(level0.take(0) =~= Seq::<int>::empty());
        assert(topo::as_ints(next@) =~= Seq::<int>::empty());
        while i < self.idxes.len()
            invariant
                i <= self.idxes@.len(),
                items == self.items(),
                seen0 == self.marks(),
                level0 == self.level(),
                self.well_formed(),
                seen@.len() == items.len(),
                nodes@.len() == i,
                forall|l: int| 0 <= l < i ==> *(#[trigger] nodes@[l]) == items[level0[l]].node,
                (seen@, topo::as_ints(next@)) == next_level(items, seen0, level0.take(i as int)),
                forall|l: int| 0 <= l < next@.len() ==> #[trigger] next@[l] < items.len(),
            decreases self.idxes@.len() - i,
        {
            let at: usize = self.idxes[i];
            assert(level0[i as int] == at as int);
            assert(items.len() == self.inner@.len());
            assert(items[at as int] == tree::placed(self.inner@[at as int]));
            let item: &'a DagItem<D> = &self.inner[at];
            nodes.push(&item.inner);
            let ghost row = items[at as int].dependents;
            let ghost marks1 = seen@;
            let ghost taken1 = topo::as_ints(next@);
            let mut l: usize = 0;
            assert(row.take(0) =~= Seq::<int>::empty());
            assert(taken1 + Seq::<int>::empty() =~= taken1);
            while l < item.dependents_indexes.len()
                invariant
                    l <= item.dependents_indexes@.len(),
                    row == topo::as_ints(item.dependents_indexes@),
                    forall|q: int| 0 <= q < row.len() ==> 0 <= #[trigger] row[q] < items.len(),
                    seen@.len() == items.len(),
                    marks1.len() == items.len(),
                    seen@ == take_unseen(marks1, row.take(l as int)).0,
                    topo::as_ints(next@) == taken1 + take_unseen(marks1, row.take(l as int)).1,
                    forall|q: int| 0 <= q < next@.len() ==> #[trigger] next@[q] < items.len(),
                decreases item.dependents_indexes@.len() - l,
            {
                let dependent: usize = item.dependents_indexes[l];
                assert(row[l as int] == dependent as int);
                assert(row.take(l as int + 1).drop_last() =~= row.take(l as int));
                let ghost before = topo::as_ints(next@);
                if !seen[dependent] {
                    seen.set(dependent, true);
                    next.push(dependent);
                    assert(topo::as_ints(next@) =~= before.push(dependent as int));
                    assert(topo::as_ints(next@) =~= taken1 + take_unseen(
                        marks1,
                        row.take(l as int + 1),
                    ).1);
                }
                l = l + 1;
            }
            assert(row.take(row.len() as int) =~= row);
            assert(level0.take(i as int + 1).drop_last() =~= level0.take(i as int));
            i = i + 1;
        }
        assert(level0.take(level0.len() as int) =~= level0);
        let none = self.idxes.len() == 0;
        self.seen = seen;
        self.idxes = next;
        if none {
            None
        } else {
            Some(nodes)
        }
    }
}

/// What the mapping function of an iteration receives for a node.
pub struct DagIteratorMapFuncArgs<'a, D: DagNode> {
    /// The node itself.
    pub inner: D,
    /// Its position in the input.
    pub index: usize,
    /// Its longest chain of dependencies; zero without any.
    pub depth: usize,
    /// The nodes that depend on it.
    pub dependents_iter: DagDependentsIterator<'a, D>,
}

/// `args` describes the last of `items`.
pub open spec fn describes_last<D: DagNode>(
    args: DagIteratorMapFuncArgs<D>,
    items: Seq<Placed<D>>,
) -> bool {
    &&& args.inner == items.last().node
    &&& args.index == items.last().index
    &&& args.depth == items.last().depth
    &&& args.dependents_iter.well_formed()
    &&& args.dependents_iter.items() == items.drop_last()
    &&& args.dependents_iter.level() == items.last().dependents
    &&& args.dependents_iter.marks() == Seq::new((items.len() - 1) as nat, |i: int| false)
}

/// Iteration that maps each node, dependencies before dependents.
#[verifier::reject_recursive_types(T)]
#[verifier::reject_recursive_types(D)]
pub struct DagIterator<T, D: DagNode, F: Fn(DagIteratorMapFuncArgs<D>) -> T> {
    pub(crate) inner: Vec<DagItem<D>>,
    pub(crate) map_func: F,
}

impl<T, D: DagNode, F: Fn(DagIteratorMapFuncArgs<D>) -> T> DagIterator<T, D, F> {
    /// The nodes that are left; the last comes next.
    pub closed spec fn rest(&self) -> Seq<Placed<D>> {
        tree::all_placed(self.inner@)
    }

    /// The mapping function.
    pub closed spec fn function(&self) -> F {
        self.map_func
    }

    /// The next mapped node, if any is left.
    pub fn next(&mut self) -> (found: Option<T>)
        requires
            dependents_first(old(self).rest()),
            forall|args: DagIteratorMapFuncArgs<D>|
                old(self).rest().len() > 0 && #[trigger] describes_last(args, old(self).rest())
                    ==> call_requires(old(self).function(), (args,)),
        ensures
            dependents_first(final(self).rest()),
            final(self).function() == old(self).function(),
            match found {
                None => old(self).rest().len() == 0 && final(self).rest() == old(self).rest(),
                Some(mapped) => {
                    &&& old(self).rest().len() > 0
                    &&& final(self).rest() == old(self).rest().drop_last()
                    &&& exists|args: DagIteratorMapFuncArgs<D>| #[trigger]
                        describes_last(args, old(self).rest()) && call_ensures(
                            old(self).function(),
                            (args,),
                            mapped,
                        )
                },
            },
    {
        let ghost rest = self.rest();
        let ghost raw = self.inner@;
        match self.inner.pop() {
            None => None,
            Some(item) => {
                proof {
                    assert(rest.last() == tree::placed(item));
                    assert(self.rest() =~= rest.drop_last());
                    assert forall|p: int, l: int|
                        0 <= p < rest.drop_last().len() && 0 <= l < rest.drop_last()[p].dependents.len() implies 0
                        <= #[trigger] rest.drop_last()[p].dependents[l] < p by {
                        assert(rest.drop_last()[p] == rest[p]);
                        assert(0 <= rest[p].dependents[l] < p);
                    }
                }
                let mut seen: Vec<bool> = Vec::new();
                let mut i: usize = 0;
                while i < self.inner.len()
                    invariant
                        i <= self.inner@.len(),
                        seen@ == Seq::new(i as nat, |i: int| false),
                    decreases self.inner@.len() - i,
                {
                    seen.push(false);
                    i = i + 1;
                    assert(seen@ =~= Seq::new(i as nat, |i: int| false));
                }
                let DagItem { inner, original_index, depth, dependents_indexes } = item;
                let dependents_iter = DagDependentsIterator {
                    inner: &self.inner,
                    seen,
                    idxes: dependents_indexes,
                };
                let args = DagIteratorMapFuncArgs {
                    inner,
                    index: original_index,
                    depth,
                    dependents_iter,
                };
                proof {
                    assert(args.dependents_iter.level() == rest.last().dependents);
                    assert forall|l: int| 0 <= l < args.dependents_iter.level().len() implies 0
                        <= #[trigger] args.dependents_iter.level()[l]
                        < args.dependents_iter.items().len() by {
                        assert(rest[rest.len() - 1].dependents[l] < rest.len() - 1);
                    }
                    assert(describes_last(args, rest));
                }
                let mapped = (self.map_func)(args);
                Some(mapped)
            },
        }
    }
}

/// `mapped` is what the function gave for the nodes from the last one down: the i-th call was
/// made for the node that was last when i nodes had been taken away.
pub open spec fn mapped_in_turn<T, D: DagNode, F: Fn(DagIteratorMapFuncArgs<D>) -> T>(
    f: F,
    items: Seq<Placed<D>>,
    mapped: Seq<T>,
) -> bool {
    &&& mapped.len() <= items.len()
    &&& forall|i: int|
        0 <= i < mapped.len() ==> mapped_last(
            f,
            items.take(items.len() - i),
            #[trigger] mapped[i],
        )
}

/// `mapped` is what the function gave for the last of `items`.
pub open spec fn mapped_last<T, D: DagNode, F: Fn(DagIteratorMapFuncArgs<D>) -> T>(
    f: F,
    items: Seq<Placed<D>>,
    mapped: T,
) -> bool {
    exists|args: DagIteratorMapFuncArgs<D>| #[trigger]
        describes_last(args, items) && call_ensures(f, (args,), mapped)
}

impl<T, D: DagNode, F: Fn(DagIteratorMapFuncArgs<D>) -> T> DagIterator<T, D, F> {
    /// Maps all nodes that are left, in the order of the calls.
    pub fn collect(self) -> (mapped: Vec<T>)
        requires
            dependents_first(self.rest()),
            forall|n: int, args: DagIteratorMapFuncArgs<D>|
                0 < n <= self.rest().len() && #[trigger] describes_last(args, self.rest().take(n))
                    ==> call_requires(self.function(), (args,)),
        ensures
            mapped@.len() == self.rest().len(),
            mapped_in_turn(self.function(), self.rest(), mapped@),
    {
        let ghost all = self.rest();
        let ghost f = self.function();
        let mut iter = self;
        let mut mapped: Vec<T> = Vec::new();
        assert(all.take(all.len() as int) =~= all);
        while iter.inner.len() > 0
            invariant
                f == iter.function(),
                dependents_first(iter.rest()),
                mapped@.len() <= all.len(),
                iter.rest() == all.take(all.len() - mapped@.len()),
                iter.rest().len() == iter.inner@.len(),
                mapped_in_turn(f, all, mapped@),
                forall|n: int, args: DagIteratorMapFuncArgs<D>|
                    0 < n <= all.len() && #[trigger] describes_last(args, all.take(n))
                        ==> call_requires(f, (args,)),
            decreases iter.inner@.len(),
        {
            let ghost before = mapped@;
            let ghost rest = iter.rest();
            if let Some(one) = iter.next() {
                mapped.push(one);
                proof {
                    assert(mapped_last(f, rest, one));
                    assert(rest.drop_last() =~= all.take(all.len() - mapped@.len()));
                    assert forall|i: int| 0 <= i < mapped@.len() implies mapped_last(
                        f,
                        all.take(all.len() - i),
                        #[trigger] mapped@[i],
                    ) by {
                        if i < before.len() {
                            assert(mapped@[i] == before[i]);
                        }
                    }
                }
            }
        }
        mapped
    }
}

/// Iteration over the nodes themselves, dependencies before dependents.
pub struct DagIntoIter<D: DagNode> {
    pub(crate) inner: Vec<DagItem<D>>,
}

impl<D: DagNode> DagIntoIter<D> {
    /// The nodes that are left; the last comes next.
    pub closed spec fn rest(&self) -> Seq<Placed<D>> {
        tree::all_placed(self.inner@)
    }

    /// The next node, if any is left.
    pub fn next(&mut self) -> (found: Option<D>)
        ensures
            match found {
                None => old(self).rest().len() == 0 && final(self).rest() == old(self).rest(),
                Some(node) => {
                    &&& old(self).rest().len() > 0
                    &&& final(self).rest() == old(self).rest().drop_last()
                    &&& node == old(self).rest().last().node
                },
            },
    {
        let ghost rest = self.rest();
        match self.inner.pop() {
            None => None,
            Some(item) => {
                assert(rest.last() == tree::placed(item));
                assert(self.rest() =~= rest.drop_last());
                Some(item.inner)
            },
        }
    }
}

impl<D: DagNode> DagTree<D> {
    /// Iterates over the nodes, each mapped by `map_func`.
    pub fn into_map_iter<T, F: Fn(DagIteratorMapFuncArgs<D>) -> T>(self, map_func: F) -> (iter:
        DagIterator<T, D, F>)
        ensures
            iter.rest() == self@,
            iter.function() == map_func,
    {
        proof {
            tree::lemma_tree_view(self);
        }
        DagIterator { inner: self.inner, map_func }
    }

    /// Iterates over the nodes.
    pub fn into_iter(self) -> (iter: DagIntoIter<D>)
        ensures
            iter.rest() == self@,
    {
        proof {
            tree::lemma_tree_view(self);
        }
        DagIntoIter { inner: self.inner }
    }
}

} // verus!
