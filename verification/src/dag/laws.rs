//! What holds of whole iterations.

use crate::dag;
use crate::dag::iterator;
use crate::dag::iterator::DagIteratorMapFuncArgs;
use crate::dag::topo;
use crate::dag::{DagError, DagNode, Placed};
use crate::text;
use vstd::prelude::*;

verus! {

/// The call that gave `mapped` was for node `j`: it got the node, its position in the input and
/// the length of its longest chain of dependencies.
pub open spec fn mapped_node<T, D: DagNode, F: Fn(DagIteratorMapFuncArgs<D>) -> T>(
    f: F,
    nodes: Seq<D>,
    depth: Seq<int>,
    j: int,
    mapped: T,
) -> bool {
    exists|args: DagIteratorMapFuncArgs<D>| #[trigger]
        call_ensures(f, (args,), mapped) && args.inner == nodes[j] && args.index == j && args.depth
            == depth[j]
}

/// `order` names every node once, each after all that it depends on.
pub open spec fn is_turn_order<D: DagNode>(nodes: Seq<D>, order: Seq<int>) -> bool {
    &&& order.len() == nodes.len()
    &&& order.no_duplicates()
    &&& forall|i: int| 0 <= i < order.len() ==> 0 <= #[trigger] order[i] < nodes.len()
    &&& forall|j: int| 0 <= j < nodes.len() ==> #[trigger] order.contains(j)
    &&& topo::settled_in_turn(dag::wait_graph(nodes), order)
}

/// `depth` holds for each node zero if it depends on nothing, and one more than the deepest of
/// its dependencies otherwise.
pub open spec fn are_depths<D: DagNode>(nodes: Seq<D>, depth: Seq<int>) -> bool {
    &&& depth.len() == nodes.len()
    &&& forall|j: int|
        0 <= j < nodes.len() ==> #[trigger] topo::is_depth(dag::wait_graph(nodes), depth, j)
}

/// The i-th call of a mapped iteration was for the i-th node of the order.
pub open spec fn mapped_by<T, D: DagNode, F: Fn(DagIteratorMapFuncArgs<D>) -> T>(
    f: F,
    nodes: Seq<D>,
    depth: Seq<int>,
    order: Seq<int>,
    mapped: Seq<T>,
) -> bool {
    &&& mapped.len() == nodes.len()
    &&& forall|i: int|
        0 <= i < mapped.len() ==> mapped_node(f, nodes, depth, order[i], #[trigger] mapped[i])
}

/// A mapped iteration that runs to its end calls the function once for every node, for each
/// after all that it depends on, and gives the results in the order of the calls; each call gets
/// the node, its position in the input and its depth.
pub proof fn law_mapped_run<T, D: DagNode, F: Fn(DagIteratorMapFuncArgs<D>) -> T>(
    f: F,
    nodes: Seq<D>,
    placed: Seq<Placed<D>>,
    mapped: Seq<T>,
) -> (found: (Seq<int>, Seq<int>))
    requires
        dag::all_known(nodes),
        dag::resolves(nodes, placed),
        mapped.len() == placed.len(),
        iterator::mapped_in_turn(f, placed, mapped),
    ensures
        is_turn_order(nodes, found.0),
        are_depths(nodes, found.1),
        mapped_by(f, nodes, found.1, found.0, mapped),
{
    let graph = dag::wait_graph(nodes);
    let stored = dag::stored_order(nodes);
    let order = topo::settling(graph);
    let n = nodes.len() as int;
    dag::lemma_stored_order(nodes, placed);
    topo::lemma_settling(graph);
    let depth = choose|depth: Seq<int>|
        #![trigger depth.len()]
        {
            &&& depth.len() == nodes.len()
            &&& forall|j: int| 0 <= j < nodes.len() ==> #[trigger] topo::is_depth(graph, depth, j)
            &&& forall|p: int|
                0 <= p < placed.len() ==> (#[trigger] placed[p]).depth == depth[stored[p]]
        };
    assert forall|j: int| 0 <= j < n implies #[trigger] order.contains(j) by {
        assert(stored.contains(j));
        let p = choose|p: int| 0 <= p < stored.len() && stored[p] == j;
        assert(order[n - 1 - p] == j);
    }
    assert forall|i: int| 0 <= i < mapped.len() implies mapped_node(
        f,
        nodes,
        depth,
        order[i],
        #[trigger] mapped[i],
    ) by {
        let items = placed.take(n - i);
        assert(iterator::mapped_last(f, items, mapped[i]));
        let args = choose|args: DagIteratorMapFuncArgs<D>| #[trigger]
            iterator::describes_last(args, items) && call_ensures(f, (args,), mapped[i]);
        assert(items.last() == placed[n - i - 1]);
        assert(stored[n - i - 1] == order[i]);
        assert(call_ensures(f, (args,), mapped[i]));
    }
    (order, depth)
}

/// The marks and the level of an iteration over dependents after `k` levels, starting at
/// `first`.
pub open spec fn level_after<D>(items: Seq<Placed<D>>, first: Seq<int>, k: nat) -> (
    Seq<bool>,
    Seq<int>,
)
    decreases k,
{
    if k == 0 {
        (Seq::new(items.len(), |i: int| false), first)
    } else {
        let (marks, level) = level_after(items, first, (k - 1) as nat);
        iterator::next_level(items, marks, level)
    }
}

/// The position is in one of the levels.
pub open spec fn in_levels<D>(items: Seq<Placed<D>>, first: Seq<int>, p: int) -> bool {
    exists|k: nat| #[trigger] level_after(items, first, k).1.contains(p)
}

/// All positions of `level` lie below `bound`.
pub open spec fn below(level: Seq<int>, bound: int) -> bool {
    forall|l: int| 0 <= l < level.len() ==> 0 <= #[trigger] level[l] < bound
}

proof fn lemma_take_unseen(seen: Seq<bool>, row: Seq<int>)
    requires
        below(row, seen.len() as int),
    ensures
        ({
            let (marks, taken) = iterator::take_unseen(seen, row);
            &&& marks.len() == seen.len()
            &&& forall|i: int| 0 <= i < seen.len() && seen[i] ==> #[trigger] marks[i]
            &&& forall|i: int|
                0 <= i < seen.len() && #[trigger] marks[i] ==> seen[i] || taken.contains(i)
            &&& forall|d: int| #[trigger] row.contains(d) ==> marks[d]
            &&& forall|d: int| #[trigger] taken.contains(d) ==> row.contains(d)
        }),
    decreases row.len(),
{
    let (marks, taken) = iterator::take_unseen(seen, row);
    if row.len() > 0 {
        let front = row.drop_last();
        let last = row.last();
        assert(below(front, seen.len() as int));
        lemma_take_unseen(seen, front);
        let (marks0, taken0) = iterator::take_unseen(seen, front);
        assert(0 <= last < seen.len());
        assert forall|d: int| #[trigger] row.contains(d) implies marks[d] by {
            if d != last {
                let i = choose|i: int| 0 <= i < row.len() && row[i] == d;
                assert(front[i] == d);
                assert(front.contains(d));
            }
        }
        assert forall|d: int| #[trigger] taken.contains(d) implies row.contains(d) by {
            if taken0.contains(d) {
                assert(front.contains(d));
                let i = choose|i: int| 0 <= i < front.len() && front[i] == d;
                assert(row[i] == d);
            } else {
                let i = choose|i: int| 0 <= i < taken.len() && taken[i] == d;
                assert(i == taken0.len());
                assert(row[row.len() - 1] == d);
            }
        }
        assert forall|i: int| 0 <= i < seen.len() && #[trigger] marks[i] implies seen[i]
            || taken.contains(i) by {
            if marks0[i] {
                if taken0.contains(i) {
                    let q = choose|q: int| 0 <= q < taken0.len() && taken0[q] == i;
                    assert(taken[q] == i);
                }
            } else {
                assert(taken[taken0.len() as int] == i);
            }
        }
    }
}

/// What one level adds.
proof fn lemma_next_level<D>(items: Seq<Placed<D>>, seen: Seq<bool>, level: Seq<int>, bound: int)
    requires
        iterator::dependents_first(items),
        seen.len() == items.len(),
        bound <= items.len(),
        below(level, bound),
    ensures
        ({
            let (marks, taken) = iterator::next_level(items, seen, level);
            &&& marks.len() == seen.len()
            &&& below(taken, bound - 1)
            &&& forall|i: int| 0 <= i < seen.len() && seen[i] ==> #[trigger] marks[i]
            &&& forall|i: int|
                0 <= i < seen.len() && #[trigger] marks[i] ==> seen[i] || taken.contains(i)
            &&& forall|e: int, d: int|
                level.contains(e) && #[trigger] items[e].dependents.contains(d) ==> marks[d]
            &&& forall|d: int| #[trigger]
                taken.contains(d) ==> exists|e: int|
                    level.contains(e) && #[trigger] items[e].dependents.contains(d)
        }),
    decreases level.len(),
{
    let (marks, taken) = iterator::next_level(items, seen, level);
    if level.len() > 0 {
        let front = level.drop_last();
        let last = level.last();
        assert(level[level.len() - 1] == last);
        assert(below(front, bound));
        lemma_next_level(items, seen, front, bound);
        let (marks0, taken0) = iterator::next_level(items, seen, front);
        let row = items[last].dependents;
        assert forall|l: int| 0 <= l < row.len() implies 0 <= #[trigger] row[l] < seen.len() && row[l] < bound - 1 by {
            assert(items[last].dependents[l] < last);
        }
        lemma_take_unseen(marks0, row);
        let (marks1, more) = iterator::take_unseen(marks0, row);
        assert forall|l: int| 0 <= l < taken.len() implies 0 <= #[trigger] taken[l] < bound - 1 by {
            if l < taken0.len() {
                assert(taken[l] == taken0[l]);
            } else {
                assert(taken[l] == more[l - taken0.len()]);
                assert(more.contains(taken[l]));
                let i = choose|i: int| 0 <= i < row.len() && row[i] == taken[l];
            }
        }
        assert forall|i: int| 0 <= i < seen.len() && #[trigger] marks[i] implies seen[i]
            || taken.contains(i) by {
            if marks0[i] {
                if taken0.contains(i) {
                    let q = choose|q: int| 0 <= q < taken0.len() && taken0[q] == i;
                    assert(taken[q] == i);
                }
            } else {
                let q = choose|q: int| 0 <= q < more.len() && more[q] == i;
                assert(taken[taken0.len() + q] == i);
            }
        }
        assert forall|e: int, d: int|
            level.contains(e) && #[trigger] items[e].dependents.contains(d) implies marks[d] by {
            if e == last {
                assert(row.contains(d));
            } else {
                let i = choose|i: int| 0 <= i < level.len() && level[i] == e;
                assert(front[i] == e);
                assert(front.contains(e));
                assert(marks0[d]);
                let i = choose|i: int| 0 <= i < items[e].dependents.len() && items[e].dependents[i] == d;
                assert(0 <= items[e].dependents[i] < e);
            }
        }
        assert forall|d: int| #[trigger] taken.contains(d) implies exists|e: int|
            level.contains(e) && #[trigger] items[e].dependents.contains(d) by {
            let q = choose|q: int| 0 <= q < taken.len() && taken[q] == d;
            if q < taken0.len() {
                assert(taken0[q] == d);
                assert(taken0.contains(d));
                let e = choose|e: int|
                    front.contains(e) && #[trigger] items[e].dependents.contains(d);
                let i = choose|i: int| 0 <= i < front.len() && front[i] == e;
                assert(level[i] == e);
                assert(level.contains(e) && items[e].dependents.contains(d));
            } else {
                assert(more[q - taken0.len()] == d);
                assert(more.contains(d));
                assert(level.contains(last) && items[last].dependents.contains(d));
            }
        }
    }
}

proof fn lemma_level_after<D>(items: Seq<Placed<D>>, first: Seq<int>, k: nat)
    requires
        iterator::dependents_first(items),
        below(first, items.len() as int),
    ensures
        level_after(items, first, k).0.len() == items.len(),
        below(level_after(items, first, k).1, items.len() - k),
        forall|i: int|
            0 <= i < items.len() && #[trigger] level_after(items, first, k).0[i] ==> in_levels(
                items,
                first,
                i,
            ),
    decreases k,
{
    if k > 0 {
        let before = (k - 1) as nat;
        lemma_level_after(items, first, before);
        let (marks, level) = level_after(items, first, before);
        lemma_next_level(items, marks, level, items.len() - before);
        let (marks1, taken) = level_after(items, first, k);
        assert forall|i: int| 0 <= i < items.len() && #[trigger] marks1[i] implies in_levels(
            items,
            first,
            i,
        ) by {
            if !marks[i] {
                assert(level_after(items, first, k).1.contains(i));
            }
        }
    }
}

/// The dependents of what is in the levels are in the levels.
proof fn lemma_levels_closed<D>(items: Seq<Placed<D>>, first: Seq<int>, e: int, d: int)
    requires
        iterator::dependents_first(items),
        below(first, items.len() as int),
        in_levels(items, first, e),
        items[e].dependents.contains(d),
    ensures
        in_levels(items, first, d),
{
    let k = choose|k: nat| #[trigger] level_after(items, first, k).1.contains(e);
    lemma_level_after(items, first, k);
    lemma_level_after(items, first, k + 1);
    let (marks, level) = level_after(items, first, k);
    let i = choose|i: int| 0 <= i < level.len() && level[i] == e;
    let l = choose|l: int| 0 <= l < items[e].dependents.len() && items[e].dependents[l] == d;
    assert(0 <= items[e].dependents[l] < e);
    lemma_next_level(items, marks, level, items.len() - k);
    assert(level_after(items, first, k + 1).0[d]);
}

/// Node `j` depends on node `i` through `n` steps: it names it, or it names a node that depends
/// on it through one step less.
pub open spec fn depends_in<D: DagNode>(nodes: Seq<D>, j: int, i: int, n: nat) -> bool
    decreases n,
{
    if n == 0 {
        false
    } else if n == 1 {
        dag::wait_graph(nodes)[j].contains(i)
    } else {
        exists|m: int|
            0 <= m < nodes.len() && #[trigger] dag::wait_graph(nodes)[j].contains(m) && depends_in(
                nodes,
                m,
                i,
                (n - 1) as nat,
            )
    }
}

/// Node `j` depends on node `i`, directly or through others.
pub open spec fn depends_on<D: DagNode>(nodes: Seq<D>, j: int, i: int) -> bool {
    0 <= j < nodes.len() && exists|n: nat| #[trigger] depends_in(nodes, j, i, n)
}

/// Position `q` of a resolution is among the dependents of position `p` exactly if the node there
/// names the node at `p`.
pub proof fn law_direct_dependents<D: DagNode>(nodes: Seq<D>, placed: Seq<Placed<D>>, p: int, q: int)
    requires
        dag::all_known(nodes),
        dag::resolves(nodes, placed),
        0 <= p < placed.len(),
        0 <= q < placed.len(),
    ensures
        placed[p].dependents.contains(q) <==> dag::wait_graph(nodes)[placed[q].index].contains(
            placed[p].index,
        ),
{
    dag::lemma_stored_order(nodes, placed);
    let graph = dag::wait_graph(nodes);
    let order = dag::stored_order(nodes);
    let t = order[p];
    let j = order[q];
    let row = topo::references(graph)[t];
    assert(placed[p].index == t);
    assert(placed[q].index == j);
    assert(0 <= t < nodes.len() && 0 <= j < nodes.len());
    topo::lemma_references(graph, t, j);
    assert(order.contains(j));
    assert(order[order.index_of(j)] == j);
    assert(order.index_of(j) == q);
    if row.contains(j) {
        let l = choose|l: int| 0 <= l < row.len() && row[l] == j;
        assert(placed[p].dependents[l] == q);
    }
    if placed[p].dependents.contains(q) {
        let l = choose|l: int| 0 <= l < placed[p].dependents.len() && placed[p].dependents[l] == q;
        assert(0 <= row[l] < nodes.len());
        assert(order.contains(row[l]));
        assert(order[order.index_of(row[l])] == row[l]);
        assert(row[l] == j);
    }
}

/// The levels of the dependents of the node at `p` end; the first one is of the nodes that name
/// it, and there is none exactly if no node does; all levels together hold exactly the nodes that
/// depend on it, directly or through others; and the node itself is not among them.
pub proof fn law_levels_are_the_dependents<D: DagNode>(
    nodes: Seq<D>,
    placed: Seq<Placed<D>>,
    p: int,
)
    requires
        dag::all_known(nodes),
        dag::resolves(nodes, placed),
        0 <= p < placed.len(),
    ensures
        level_after(placed.take(p), placed[p].dependents, p as nat).1.len() == 0,
        level_after(placed.take(p), placed[p].dependents, 0).1 == placed[p].dependents,
        placed[p].dependents.len() == 0 <==> forall|j: int|
            0 <= j < nodes.len() ==> !(#[trigger] dag::wait_graph(nodes)[j]).contains(
                placed[p].index,
            ),
        forall|q: int|
            0 <= q < placed.len() ==> (#[trigger] in_levels(
                placed.take(p),
                placed[p].dependents,
                q,
            ) <==> depends_on(nodes, placed[q].index, placed[p].index)),
        forall|q: int| #[trigger]
            in_levels(placed.take(p), placed[p].dependents, q) ==> 0 <= q < p,
{
    dag::law_dependents_first(nodes, placed);
    let items = placed.take(p);
    let first = placed[p].dependents;
    let i = placed[p].index;
    lemma_prefix_first(placed, p);
    lemma_level_after(items, first, p as nat);
    let end = level_after(items, first, p as nat).1;
    assert(below(end, items.len() - (p as nat)));
    if end.len() > 0 {
        assert(0 <= end[0] && end[0] < items.len() - (p as nat));
    }
    assert forall|q: int| #[trigger] in_levels(items, first, q) implies 0 <= q < p by {
        let k = choose|k: nat| #[trigger] level_after(items, first, k).1.contains(q);
        lemma_level_after(items, first, k);
        let level = level_after(items, first, k).1;
        let l = choose|l: int| 0 <= l < level.len() && level[l] == q;
        assert(0 <= level[l] < p - k);
    }
    if first.len() > 0 {
        let q = first[0];
        assert(first.contains(q));
        law_direct_dependents(nodes, placed, p, q);
        dag::lemma_stored_order(nodes, placed);
        assert(placed[q].index == dag::stored_order(nodes)[q]);
        assert(dag::wait_graph(nodes)[placed[q].index].contains(i));
    } else {
        assert forall|j: int| 0 <= j < nodes.len() implies !(#[trigger] dag::wait_graph(
            nodes,
        )[j]).contains(i) by {
            let q = lemma_position_of(nodes, placed, j);
            law_direct_dependents(nodes, placed, p, q);
        }
    }
    assert forall|q: int| 0 <= q < placed.len() implies (#[trigger] in_levels(items, first, q)
        <==> depends_on(nodes, placed[q].index, i)) by {
        dag::lemma_stored_order(nodes, placed);
        let j = placed[q].index;
        assert(j == dag::stored_order(nodes)[q]);
        if in_levels(items, first, q) {
            let k = choose|k: nat| #[trigger] level_after(items, first, k).1.contains(q);
            lemma_in_level_depends(nodes, placed, p, k, q);
            assert(depends_in(nodes, j, i, k + 1));
        }
        if depends_on(nodes, j, i) {
            let n = choose|n: nat| #[trigger] depends_in(nodes, j, i, n);
            lemma_depends_in_level(nodes, placed, p, n, q);
        }
    }
}

proof fn lemma_position_of<D: DagNode>(nodes: Seq<D>, placed: Seq<Placed<D>>, j: int) -> (q: int)
    requires
        dag::all_known(nodes),
        dag::resolves(nodes, placed),
        0 <= j < nodes.len(),
    ensures
        0 <= q < placed.len(),
        placed[q].index == j,
{
    dag::law_every_node_once(nodes, placed, j);
    choose|q: int|
        0 <= q < placed.len() && (#[trigger] placed[q]).index == j && placed[q].node == nodes[j]
}

proof fn lemma_prefix_first<D: DagNode>(placed: Seq<Placed<D>>, p: int)
    requires
        iterator::dependents_first(placed),
        0 <= p < placed.len(),
    ensures
        iterator::dependents_first(placed.take(p)),
        below(placed[p].dependents, p),
{
    let items = placed.take(p);
    assert forall|q: int, l: int|
        0 <= q < items.len() && 0 <= l < items[q].dependents.len() implies 0
        <= #[trigger] items[q].dependents[l] < q by {
        assert(items[q] == placed[q]);
        assert(0 <= placed[q].dependents[l] < q);
    }
}

/// What is in a level depends on the node.
proof fn lemma_in_level_depends<D: DagNode>(
    nodes: Seq<D>,
    placed: Seq<Placed<D>>,
    p: int,
    k: nat,
    q: int,
)
    requires
        dag::all_known(nodes),
        dag::resolves(nodes, placed),
        0 <= p < placed.len(),
        level_after(placed.take(p), placed[p].dependents, k).1.contains(q),
    ensures
        0 <= q < p,
        depends_in(nodes, placed[q].index, placed[p].index, k + 1),
    decreases k,
{
    dag::law_dependents_first(nodes, placed);
    lemma_prefix_first(placed, p);
    let items = placed.take(p);
    let first = placed[p].dependents;
    lemma_level_after(items, first, k);
    let level = level_after(items, first, k).1;
    let l = choose|l: int| 0 <= l < level.len() && level[l] == q;
    assert(0 <= level[l] < p - k);
    if k == 0 {
        law_direct_dependents(nodes, placed, p, q);
    } else {
        let before = (k - 1) as nat;
        lemma_level_after(items, first, before);
        let (marks, level0) = level_after(items, first, before);
        lemma_next_level(items, marks, level0, p - before);
        let e = choose|e: int|
            level0.contains(e) && #[trigger] items[e].dependents.contains(q);
        lemma_in_level_depends(nodes, placed, p, before, e);
        assert(items[e] == placed[e]);
        law_direct_dependents(nodes, placed, e, q);
        dag::lemma_stored_order(nodes, placed);
        let m = placed[e].index;
        assert(m == dag::stored_order(nodes)[e]);
        assert(dag::wait_graph(nodes)[placed[q].index].contains(m));
        assert(depends_in(nodes, m, placed[p].index, k));
    }
}

/// What depends on the node is in a level.
proof fn lemma_depends_in_level<D: DagNode>(
    nodes: Seq<D>,
    placed: Seq<Placed<D>>,
    p: int,
    n: nat,
    q: int,
)
    requires
        dag::all_known(nodes),
        dag::resolves(nodes, placed),
        0 <= p < placed.len(),
        0 <= q < placed.len(),
        depends_in(nodes, placed[q].index, placed[p].index, n),
    ensures
        in_levels(placed.take(p), placed[p].dependents, q),
    decreases n,
{
    dag::law_dependents_first(nodes, placed);
    lemma_prefix_first(placed, p);
    let items = placed.take(p);
    let first = placed[p].dependents;
    let j = placed[q].index;
    if n == 1 {
        law_direct_dependents(nodes, placed, p, q);
        assert(level_after(items, first, 0).1.contains(q));
    } else {
        let m = choose|m: int|
            0 <= m < nodes.len() && #[trigger] dag::wait_graph(nodes)[j].contains(m) && depends_in(
                nodes,
                m,
                placed[p].index,
                (n - 1) as nat,
            );
        let e = lemma_position_of(nodes, placed, m);
        lemma_depends_in_level(nodes, placed, p, (n - 1) as nat, e);
        law_direct_dependents(nodes, placed, e, q);
        let k = choose|k: nat| #[trigger] level_after(items, first, k).1.contains(e);
        lemma_in_level_depends(nodes, placed, p, k, e);
        assert(items[e] == placed[e]);
        lemma_levels_closed(items, first, e, q);
    }
}

/// An error names what it is about: the name that two nodes have; the missing dependency first, and
/// then the node that refers to it, if that has a name; and all that a cycle holds up.
pub proof fn law_errors_name(name: String, by: String, names: Vec<String>)
    ensures
        DagError::DuplicateName(name).message_text() == "duplicate node: "@ + name@,
        (DagError::UnknownDependency { dep: name, by: Some(by) }).message_text()
            == "unknown dependency: "@ + name@ + " (referred by "@ + by@ + ")"@,
        (DagError::UnknownDependency { dep: name, by: None }).message_text()
            == "unknown dependency: "@ + name@ + " (referred by "@ + "<unnamed>"@ + ")"@,
        DagError::CycleDetected(names).message_text() == "cycle detected; remaining: "@
            + text::quoted_list_text(text::strings(names@)),
{
}

} // verus!
