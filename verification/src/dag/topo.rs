//! Topological settling of an index graph.
//!
//! A graph is given by `targets`: `targets[j]` lists the nodes that `j` waits for, with
//! repetitions.  Settling takes nodes off a stack once everything they wait for is settled.

use vstd::prelude::*;

verus! {

/// The positions of `s` as mathematical integers.
pub open spec fn as_ints(s: Seq<usize>) -> Seq<int> {
    s.map_values(|x: usize| x as int)
}

/// A graph of machine integers as a graph of mathematical integers.
pub open spec fn as_graph(g: Seq<Vec<usize>>) -> Seq<Seq<int>> {
    g.map_values(|row: Vec<usize>| as_ints(row@))
}

/// Every target names a node.
pub open spec fn closed_graph(targets: Seq<Seq<int>>) -> bool {
    forall|j: int, k: int|
        0 <= j < targets.len() && 0 <= k < targets[j].len() ==> 0 <= #[trigger] targets[j][k]
            < targets.len()
}

/// How often `x` occurs in `s`.
pub open spec fn occurrences(s: Seq<int>, x: int) -> nat
    decreases s.len(),
{
    if s.len() == 0 {
        0
    } else {
        occurrences(s.drop_last(), x) + (if s.last() == x {
            1nat
        } else {
            0nat
        })
    }
}

/// The nodes below `upto` that wait for `t`, ascending, once per time they name it.
pub open spec fn dependents(targets: Seq<Seq<int>>, t: int, upto: nat) -> Seq<int>
    decreases upto,
{
    if upto == 0 {
        Seq::empty()
    } else {
        let last = (upto - 1) as nat;
        dependents(targets, t, last) + Seq::new(
            occurrences(targets[last as int], t),
            |i: int| last as int,
        )
    }
}

/// For each node the nodes that wait for it.
pub open spec fn references(targets: Seq<Seq<int>>) -> Seq<Seq<int>> {
    Seq::new(targets.len(), |t: int| dependents(targets, t, targets.len()))
}

/// How many entries of `s` do not occur in `done`.
pub open spec fn pending(s: Seq<int>, done: Seq<int>) -> nat
    decreases s.len(),
{
    if s.len() == 0 {
        0
    } else {
        pending(s.drop_last(), done) + (if done.contains(s.last()) {
            0nat
        } else {
            1nat
        })
    }
}

/// Counts one settled wait for each entry of `freed`, and stacks the nodes that wait for
/// nothing more.
pub open spec fn relax(waiting: Seq<int>, stack: Seq<int>, freed: Seq<int>) -> (Seq<int>, Seq<int>)
    decreases freed.len(),
{
    if freed.len() == 0 {
        (waiting, stack)
    } else {
        let (w, s) = relax(waiting, stack, freed.drop_last());
        let to = freed.last();
        let w1 = w.update(to, w[to] - 1);
        (w1, if w1[to] == 0 {
            s.push(to)
        } else {
            s
        })
    }
}

/// The order in which at most `fuel` nodes are settled, starting from `stack`.
pub open spec fn settle_order(
    refs: Seq<Seq<int>>,
    waiting: Seq<int>,
    stack: Seq<int>,
    fuel: nat,
) -> Seq<int>
    decreases fuel,
{
    if fuel == 0 || stack.len() == 0 {
        Seq::empty()
    } else {
        let i = stack.last();
        let (w, s) = relax(waiting, stack.drop_last(), refs[i]);
        seq![i] + settle_order(refs, w, s, (fuel - 1) as nat)
    }
}

/// The number of waits of each node.
pub open spec fn degrees(targets: Seq<Seq<int>>) -> Seq<int> {
    targets.map_values(|row: Seq<int>| row.len() as int)
}

/// The nodes below `upto` that wait for nothing, ascending.
pub open spec fn roots(targets: Seq<Seq<int>>, upto: nat) -> Seq<int>
    decreases upto,
{
    if upto == 0 {
        Seq::empty()
    } else {
        let last = (upto - 1) as nat;
        if targets[last as int].len() == 0 {
            roots(targets, last).push(last as int)
        } else {
            roots(targets, last)
        }
    }
}

/// The order in which the nodes of a graph are settled.
pub open spec fn settling(targets: Seq<Seq<int>>) -> Seq<int> {
    settle_order(
        references(targets),
        degrees(targets),
        roots(targets, targets.len()),
        targets.len(),
    )
}

/// A set of nodes each of which waits for a member of the set.
pub open spec fn waits_within(targets: Seq<Seq<int>>, nodes: Set<int>) -> bool {
    forall|j: int| #[trigger]
        nodes.contains(j) ==> 0 <= j < targets.len() && exists|k: int|
            0 <= k < targets[j].len() && nodes.contains(#[trigger] targets[j][k])
}

/// The node lies on a cycle or waits, directly or not, for one that does.
pub open spec fn stuck(targets: Seq<Seq<int>>, j: int) -> bool {
    exists|nodes: Set<int>| #[trigger] nodes.contains(j) && waits_within(targets, nodes)
}

/// `depth[j]` is the length of the longest chain of waits that starts at `j`: zero without
/// waits, and one more than the deepest target otherwise.
pub open spec fn is_depth(targets: Seq<Seq<int>>, depth: Seq<int>, j: int) -> bool {
    &&& 0 <= depth[j]
    &&& forall|k: int| 0 <= k < targets[j].len() ==> depth[#[trigger] targets[j][k]] < depth[j]
    &&& depth[j] == 0 || exists|k: int|
        0 <= k < targets[j].len() && depth[#[trigger] targets[j][k]] + 1 == depth[j]
}

/// Each node of `order` comes after everything it waits for.
pub open spec fn settled_in_turn(targets: Seq<Seq<int>>, order: Seq<int>) -> bool {
    forall|p: int, k: int|
        0 <= p < order.len() && 0 <= k < targets[order[p]].len() ==> order.take(p).contains(
            #[trigger] targets[order[p]][k],
        )
}

proof fn lemma_occurrences_positive(s: Seq<int>, x: int)
    ensures
        occurrences(s, x) > 0 <==> s.contains(x),
    decreases s.len(),
{
    if s.len() > 0 {
        lemma_occurrences_positive(s.drop_last(), x);
        if s.drop_last().contains(x) {
            let k = choose|k: int| 0 <= k < s.drop_last().len() && s.drop_last()[k] == x;
            assert(s[k] == x);
        }
        if s.contains(x) && s.last() != x {
            let k = choose|k: int| 0 <= k < s.len() && s[k] == x;
            assert(s.drop_last()[k] == x);
        }
        assert(s.last() == s[s.len() - 1]);
    }
}

proof fn lemma_occurrences_split(a: Seq<int>, b: Seq<int>, x: int)
    ensures
        occurrences(a + b, x) == occurrences(a, x) + occurrences(b, x),
    decreases b.len(),
{
    if b.len() == 0 {
        assert(a + b =~= a);
    } else {
        assert((a + b).drop_last() =~= a + b.drop_last());
        lemma_occurrences_split(a, b.drop_last(), x);
    }
}

proof fn lemma_occurrences_repeat(n: nat, v: int, x: int)
    ensures
        occurrences(Seq::new(n, |i: int| v), x) == (if x == v {
            n
        } else {
            0
        }),
    decreases n,
{
    if n > 0 {
        let s = Seq::new(n, |i: int| v);
        assert(s.drop_last() =~= Seq::new((n - 1) as nat, |i: int| v));
        lemma_occurrences_repeat((n - 1) as nat, v, x);
    }
}

/// A node occurs among the dependents of `t` as often as it names `t`.
proof fn lemma_dependents_count(targets: Seq<Seq<int>>, t: int, upto: nat, j: int)
    requires
        upto <= targets.len(),
        0 <= j,
    ensures
        occurrences(dependents(targets, t, upto), j) == (if j < upto {
            occurrences(targets[j], t)
        } else {
            0
        }),
    decreases upto,
{
    if upto > 0 {
        let last = (upto - 1) as nat;
        lemma_dependents_count(targets, t, last, j);
        let n = occurrences(targets[last as int], t);
        let tail = Seq::new(n, |i: int| last as int);
        lemma_occurrences_split(dependents(targets, t, last), tail, j);
        lemma_occurrences_repeat(n, last as int, j);
    }
}

proof fn lemma_dependents_range(targets: Seq<Seq<int>>, t: int, upto: nat)
    ensures
        forall|p: int|
            0 <= p < dependents(targets, t, upto).len() ==> 0 <= #[trigger] dependents(
                targets,
                t,
                upto,
            )[p] < upto,
    decreases upto,
{
    if upto > 0 {
        let last = (upto - 1) as nat;
        lemma_dependents_range(targets, t, last);
        let front = dependents(targets, t, last);
        let all = dependents(targets, t, upto);
        assert forall|p: int| 0 <= p < all.len() implies 0 <= #[trigger] all[p] < upto by {
            if p < front.len() {
                assert(all[p] == front[p]);
            }
        }
    }
}

proof fn lemma_pending_step(s: Seq<int>, done: Seq<int>, i: int)
    requires
        !done.contains(i),
    ensures
        pending(s, done) == pending(s, done.push(i)) + occurrences(s, i),
    decreases s.len(),
{
    if s.len() > 0 {
        lemma_pending_step(s.drop_last(), done, i);
        lemma_push_contains(done, i, s.last());
    }
}

proof fn lemma_push_contains(done: Seq<int>, i: int, x: int)
    ensures
        done.push(i).contains(x) <==> done.contains(x) || x == i,
{
    let d = done.push(i);
    assert(d[done.len() as int] == i);
    if done.contains(x) {
        let k = choose|k: int| 0 <= k < done.len() && done[k] == x;
        assert(d[k] == x);
    }
    if d.contains(x) && x != i {
        let k = choose|k: int| 0 <= k < d.len() && d[k] == x;
        assert(done[k] == x);
    }
}

proof fn lemma_pending_zero(s: Seq<int>, done: Seq<int>)
    ensures
        pending(s, done) == 0 <==> forall|k: int|
            0 <= k < s.len() ==> done.contains(#[trigger] s[k]),
    decreases s.len(),
{
    if s.len() > 0 {
        let front = s.drop_last();
        lemma_pending_zero(front, done);
        assert(s.last() == s[s.len() - 1]);
        if pending(s, done) == 0 {
            assert forall|k: int| 0 <= k < s.len() implies done.contains(#[trigger] s[k]) by {
                if k < s.len() - 1 {
                    assert(front[k] == s[k]);
                }
            }
        }
        if forall|k: int| 0 <= k < s.len() ==> done.contains(#[trigger] s[k]) {
            assert forall|k: int| 0 <= k < front.len() implies done.contains(
                #[trigger] front[k],
            ) by {
                assert(front[k] == s[k]);
            }
        }
    }
}

proof fn lemma_pending_none(s: Seq<int>)
    ensures
        pending(s, Seq::empty()) == s.len(),
    decreases s.len(),
{
    if s.len() > 0 {
        lemma_pending_none(s.drop_last());
    }
}

/// What `relax` does to the counts and to the stack.
proof fn lemma_relax(w: Seq<int>, s: Seq<int>, freed: Seq<int>)
    requires
        forall|p: int| 0 <= p < freed.len() ==> 0 <= #[trigger] freed[p] < w.len(),
        forall|j: int| 0 <= j < w.len() ==> occurrences(freed, j) <= #[trigger] w[j],
    ensures
        ({
            let (w1, s1) = relax(w, s, freed);
            &&& w1.len() == w.len()
            &&& forall|j: int|
                0 <= j < w.len() ==> #[trigger] w1[j] == w[j] - occurrences(freed, j)
            &&& s1.len() >= s.len()
            &&& forall|p: int| 0 <= p < s.len() ==> #[trigger] s1[p] == s[p]
            &&& forall|p: int|
                s.len() <= p < s1.len() ==> 0 <= #[trigger] s1[p] < w.len() && w[s1[p]] > 0
                    && w1[s1[p]] == 0
            &&& forall|j: int|
                #![trigger w1[j]]
                0 <= j < w.len() && w[j] > 0 && w1[j] == 0 ==> exists|p: int|
                    s.len() <= p < s1.len() && #[trigger] s1[p] == j
            &&& forall|p: int, q: int|
                s.len() <= p < q < s1.len() ==> #[trigger] s1[p] != #[trigger] s1[q]
        }),
    decreases freed.len(),
{
    if freed.len() > 0 {
        let front = freed.drop_last();
        let to = freed.last();
        assert(to == freed[freed.len() - 1]);
        assert forall|p: int| 0 <= p < front.len() implies 0 <= #[trigger] front[p] < w.len() by {
            assert(front[p] == freed[p]);
        }
        lemma_relax(w, s, front);
        let (wf, sf) = relax(w, s, front);
        let (w1, s1) = relax(w, s, freed);
        assert(w1 == wf.update(to, wf[to] - 1));
        assert(occurrences(freed, to) <= w[to]);
        assert(wf[to] >= 1);
        assert forall|j: int| 0 <= j < w.len() implies #[trigger] w1[j] == w[j] - occurrences(
            freed,
            j,
        ) by {}
        assert forall|j: int|
            #![trigger w1[j]]
            0 <= j < w.len() && w[j] > 0 && w1[j] == 0 implies exists|p: int|
            s.len() <= p < s1.len() && #[trigger] s1[p] == j by {
            if j == to {
                assert(s1[s1.len() - 1] == to);
            } else {
                assert(wf[j] == 0);
                let p = choose|p: int| s.len() <= p < sf.len() && #[trigger] sf[p] == j;
                assert(s1[p] == j);
            }
        }
    }
}

/// What holds between two steps of the settling loop.
spec fn settling_state(
    targets: Seq<Seq<int>>,
    done: Seq<int>,
    stack: Seq<int>,
    waiting: Seq<int>,
) -> bool {
    &&& waiting.len() == targets.len()
    &&& forall|p: int| 0 <= p < done.len() ==> 0 <= #[trigger] done[p] < targets.len()
    &&& forall|p: int| 0 <= p < stack.len() ==> 0 <= #[trigger] stack[p] < targets.len()
    &&& done.no_duplicates()
    &&& stack.no_duplicates()
    &&& forall|p: int| 0 <= p < stack.len() ==> !done.contains(#[trigger] stack[p])
    &&& forall|j: int|
        0 <= j < targets.len() ==> #[trigger] waiting[j] == pending(targets[j], done)
    &&& forall|j: int|
        #![trigger waiting[j]]
        0 <= j < targets.len() ==> (waiting[j] == 0 <==> done.contains(j) || stack.contains(j))
    &&& settled_in_turn(targets, done)
}

proof fn lemma_settled_once(targets: Seq<Seq<int>>, done: Seq<int>, stack: Seq<int>, waiting: Seq<int>, j: int)
    requires
        settling_state(targets, done, stack, waiting),
        0 <= j < targets.len(),
        done.contains(j) || stack.contains(j),
    ensures
        forall|k: int| 0 <= k < targets[j].len() ==> done.contains(#[trigger] targets[j][k]),
{
    assert(waiting[j] == 0);
    lemma_pending_zero(targets[j], done);
}

proof fn lemma_settling_step(
    targets: Seq<Seq<int>>,
    done: Seq<int>,
    stack: Seq<int>,
    waiting: Seq<int>,
)
    requires
        settling_state(targets, done, stack, waiting),
        stack.len() > 0,
    ensures
        ({
            let i = stack.last();
            let (w1, s1) = relax(waiting, stack.drop_last(), references(targets)[i]);
            settling_state(targets, done.push(i), s1, w1)
        }),
        forall|j: int|
            0 <= j < targets.len() ==> occurrences(references(targets)[stack.last()], j)
                <= #[trigger] waiting[j],
{
    let i = stack.last();
    let n = targets.len();
    assert(i == stack[stack.len() - 1]);
    assert(stack.contains(i));
    assert(!done.contains(i));
    let rest = stack.drop_last();
    let freed = references(targets)[i];
    assert(freed == dependents(targets, i, n));
    let (w1, s1) = relax(waiting, rest, freed);
    let done1 = done.push(i);
    lemma_dependents_range(targets, i, n);
    assert forall|j: int| 0 <= j < waiting.len() implies occurrences(freed, j) <= #[trigger] waiting[j] by {
        lemma_dependents_count(targets, i, n, j);
        lemma_pending_step(targets[j], done, i);
    }
    lemma_relax(waiting, rest, freed);
    assert forall|j: int| 0 <= j < n implies #[trigger] w1[j] == pending(targets[j], done1) by {
        lemma_dependents_count(targets, i, n, j);
        lemma_pending_step(targets[j], done, i);
        assert(w1[j] == waiting[j] - occurrences(freed, j));
    }
    assert forall|x: int| done1.contains(x) <==> done.contains(x) || x == i by {
        lemma_push_contains(done, i, x);
    }
    assert forall|p: int| 0 <= p < s1.len() implies 0 <= #[trigger] s1[p] < n && !done1.contains(s1[p]) by {
        if p < rest.len() {
            assert(s1[p] == stack[p]);
            assert(stack[p] != stack[stack.len() - 1]);
        } else {
            assert(waiting[s1[p]] > 0);
        }
    }
    assert forall|p: int, q: int| 0 <= p < q < s1.len() implies s1[p] != s1[q] by {
        if q < rest.len() {
            assert(s1[p] == stack[p] && s1[q] == stack[q]);
        } else if p < rest.len() {
            assert(s1[p] == stack[p]);
            assert(stack.contains(stack[p]));
            assert(waiting[s1[p]] == 0);
            assert(waiting[s1[q]] > 0);
        }
    }
    assert forall|j: int|
        #![trigger w1[j]]
        0 <= j < n implies (w1[j] == 0 <==> done1.contains(j) || s1.contains(j)) by {
        assert(w1[j] == waiting[j] - occurrences(freed, j));
        if w1[j] == 0 {
            if waiting[j] == 0 {
                if stack.contains(j) && j != i {
                    let q = choose|q: int| 0 <= q < stack.len() && stack[q] == j;
                    assert(s1[q] == j);
                }
            } else {
                let q = choose|q: int| rest.len() <= q < s1.len() && #[trigger] s1[q] == j;
                assert(s1.contains(j));
            }
        }
        if s1.contains(j) {
            let q = choose|q: int| 0 <= q < s1.len() && s1[q] == j;
            if q < rest.len() {
                assert(stack[q] == j);
                assert(stack.contains(j));
            }
        }
    }
    lemma_settled_once(targets, done, stack, waiting, i);
    assert forall|p: int, k: int|
        0 <= p < done1.len() && 0 <= k < targets[done1[p]].len() implies done1.take(p).contains(
        #[trigger] targets[done1[p]][k],
    ) by {
        if p < done.len() {
            assert(done1[p] == done[p]);
            assert(done1.take(p) =~= done.take(p));
        } else {
            assert(done1.take(p) =~= done);
        }
    }
}

/// Each depth bounds the settled targets of its node tightly, and no depth exceeds the number
/// of settled nodes.
spec fn depth_state(targets: Seq<Seq<int>>, done: Seq<int>, depth: Seq<int>) -> bool {
    &&& depth.len() == targets.len()
    &&& forall|j: int|
        #![trigger depth[j]]
        0 <= j < targets.len() ==> 0 <= depth[j] <= done.len() && depth_so_far(
            targets[j],
            done,
            depth,
            depth[j],
        )
}

spec fn depth_so_far(row: Seq<int>, done: Seq<int>, depth: Seq<int>, d: int) -> bool {
    &&& forall|k: int|
        0 <= k < row.len() && done.contains(#[trigger] row[k]) ==> depth[row[k]] + 1 <= d
    &&& d == 0 || exists|k: int|
        0 <= k < row.len() && done.contains(#[trigger] row[k]) && depth[row[k]] + 1 == d
}

spec fn deepened(depth: Seq<int>, freed: Seq<int>, next: int) -> Seq<int> {
    Seq::new(
        depth.len(),
        |j: int|
            if occurrences(freed, j) > 0 && depth[j] < next {
                next
            } else {
                depth[j]
            },
    )
}

proof fn lemma_depth_step(
    targets: Seq<Seq<int>>,
    done: Seq<int>,
    stack: Seq<int>,
    waiting: Seq<int>,
    depth: Seq<int>,
)
    requires
        settling_state(targets, done, stack, waiting),
        stack.len() > 0,
        depth_state(targets, done, depth),
    ensures
        ({
            let i = stack.last();
            let depth1 = deepened(depth, references(targets)[i], depth[i] + 1);
            &&& depth_state(targets, done.push(i), depth1)
            &&& depth1[i] == depth[i]
        }),
{
    let i = stack.last();
    let n = targets.len();
    let freed = references(targets)[i];
    let depth1 = deepened(depth, freed, depth[i] + 1);
    let done1 = done.push(i);
    assert(stack.contains(i));
    assert(!done.contains(i));
    // Settled nodes and `i` itself wait for settled nodes only, hence not for `i`.
    assert forall|x: int| 0 <= x < n && done1.contains(x) implies #[trigger] depth1[x]
        == depth[x] by {
        lemma_push_contains(done, i, x);
        lemma_settled_once(targets, done, stack, waiting, x);
        lemma_dependents_count(targets, i, n, x);
        lemma_occurrences_positive(targets[x], i);
    }
    lemma_push_contains(done, i, i);
    assert(depth[i] <= done.len());
    assert forall|j: int|
        #![trigger depth1[j]]
        0 <= j < n implies 0 <= depth1[j] <= done1.len() && depth_so_far(
        targets[j],
        done1,
        depth1,
        depth1[j],
    ) by {
        let row = targets[j];
        lemma_dependents_count(targets, i, n, j);
        lemma_occurrences_positive(row, i);
        assert(depth_so_far(row, done, depth, depth[j]));
        assert forall|k: int| 0 <= k < row.len() && done1.contains(#[trigger] row[k]) implies depth1[row[k]]
            + 1 <= depth1[j] by {
            lemma_push_contains(done, i, row[k]);
            settled_in_range(targets, done, stack, waiting, row[k]);
            assert(depth1[row[k]] == depth[row[k]]);
            if row[k] == i {
                assert(row.contains(i));
            }
        }
        if depth1[j] != 0 {
            if depth1[j] == depth[j] {
                let k = choose|k: int|
                    0 <= k < row.len() && done.contains(#[trigger] row[k]) && depth[row[k]] + 1
                        == depth[j];
                lemma_push_contains(done, i, row[k]);
                settled_in_range(targets, done, stack, waiting, row[k]);
                assert(done1.contains(row[k]) && depth1[row[k]] + 1 == depth1[j]);
            } else {
                let k = choose|k: int| 0 <= k < row.len() && row[k] == i;
                assert(done1.contains(row[k]) && depth1[row[k]] + 1 == depth1[j]);
            }
        }
    }
}

proof fn settled_in_range(
    targets: Seq<Seq<int>>,
    done: Seq<int>,
    stack: Seq<int>,
    waiting: Seq<int>,
    x: int,
)
    requires
        settling_state(targets, done, stack, waiting),
        stack.len() > 0,
        done.contains(x) || x == stack.last(),
    ensures
        0 <= x < targets.len(),
{
    if done.contains(x) {
        let p = choose|p: int| 0 <= p < done.len() && done[p] == x;
        assert(0 <= done[p] < targets.len());
    } else {
        assert(x == stack[stack.len() - 1]);
    }
}

proof fn lemma_distinct_bounded(s: Seq<int>, n: nat)
    requires
        s.no_duplicates(),
        forall|p: int| 0 <= p < s.len() ==> 0 <= #[trigger] s[p] < n,
    ensures
        s.len() <= n,
        s.len() == n ==> forall|j: int| 0 <= j < n ==> #[trigger] s.contains(j),
{
    let members = s.to_set();
    let range = vstd::set_lib::set_int_range(0, n as int);
    vstd::set_lib::lemma_int_range(0, n as int);
    s.unique_seq_to_set();
    assert forall|x: int| members.contains(x) implies range.contains(x) by {
        let p = choose|p: int| 0 <= p < s.len() && s[p] == x;
        assert(0 <= s[p] < n);
    }
    vstd::set_lib::lemma_len_subset(members, range);
    if s.len() == n {
        vstd::set_lib::lemma_subset_equality(members, range);
        assert forall|j: int| 0 <= j < n implies #[trigger] s.contains(j) by {
            assert(range.contains(j));
            assert(members.contains(j));
        }
    }
}

proof fn lemma_roots(targets: Seq<Seq<int>>, upto: nat)
    requires
        upto <= targets.len(),
    ensures
        roots(targets, upto).no_duplicates(),
        forall|p: int|
            0 <= p < roots(targets, upto).len() ==> 0 <= #[trigger] roots(targets, upto)[p] < upto,
        forall|j: int|
            #![trigger targets[j]]
            0 <= j < upto ==> (targets[j].len() == 0 <==> roots(targets, upto).contains(j)),
    decreases upto,
{
    if upto > 0 {
        let last = (upto - 1) as nat;
        lemma_roots(targets, last);
        let front = roots(targets, last);
        let all = roots(targets, upto);
        if targets[last as int].len() == 0 {
            assert forall|j: int| #![trigger targets[j]] 0 <= j < upto implies (targets[j].len() == 0
                <==> all.contains(j)) by {
                lemma_push_contains(front, last as int, j);
            }
        } else {
            assert(!front.contains(last as int));
        }
    }
}

/// Nodes settled in turn are not stuck.
proof fn lemma_settled_not_stuck(targets: Seq<Seq<int>>, order: Seq<int>, nodes: Set<int>, p: int)
    requires
        settled_in_turn(targets, order),
        waits_within(targets, nodes),
        0 <= p < order.len(),
    ensures
        !nodes.contains(order[p]),
    decreases p,
{
    if nodes.contains(order[p]) {
        let k = choose|k: int|
            0 <= k < targets[order[p]].len() && nodes.contains(#[trigger] targets[order[p]][k]);
        let t = targets[order[p]][k];
        assert(order.take(p).contains(t));
        let q = choose|q: int| 0 <= q < order.take(p).len() && order.take(p)[q] == t;
        lemma_settled_not_stuck(targets, order, nodes, q);
    }
}

/// For each node the nodes that wait for it.
pub(crate) fn collect_references(targets: &Vec<Vec<usize>>) -> (refs: Vec<Vec<usize>>)
    requires
        closed_graph(as_graph(targets@)),
    ensures
        as_graph(refs@) == references(as_graph(targets@)),
{
    let ghost graph = as_graph(targets@);
    let n: usize = targets.len();
    let mut refs: Vec<Vec<usize>> = Vec::new();
    let mut filled: usize = 0;
    while filled < n
        invariant
            filled <= n,
            refs@.len() == filled,
            forall|t: int| 0 <= t < filled ==> (#[trigger] refs@[t])@ == Seq::<usize>::empty(),
        decreases n - filled,
    {
        refs.push(Vec::new());
        filled = filled + 1;
    }
    let mut idx: usize = 0;
    assert(forall|t: int| 0 <= t < n ==> as_ints((#[trigger] refs@[t])@) =~= dependents(graph, t, 0));
    while idx < n
        invariant
            idx <= n,
            n == targets@.len(),
            graph == as_graph(targets@),
            closed_graph(graph),
            refs@.len() == n,
            forall|t: int|
                0 <= t < n ==> as_ints((#[trigger] refs@[t])@) == dependents(graph, t, idx as nat),
        decreases n - idx,
    {
        let row: &Vec<usize> = &targets[idx];
        let ghost irow = graph[idx as int];
        assert(irow =~= as_ints(row@));
        let mut k: usize = 0;
        assert forall|t: int| 0 <= t < n implies as_ints((#[trigger] refs@[t])@) =~= dependents(
            graph,
            t,
            idx as nat,
        ) + Seq::new(occurrences(irow.take(0), t), |i: int| idx as int) by {
            assert(occurrences(irow.take(0), t) == 0);
        }
        while k < row.len()
            invariant
                k <= row@.len(),
                idx < n,
                n == targets@.len(),
                graph == as_graph(targets@),
                closed_graph(graph),
                irow == graph[idx as int],
                irow == as_ints(row@),
                refs@.len() == n,
                forall|t: int|
                    0 <= t < n ==> as_ints((#[trigger] refs@[t])@) == dependents(graph, t, idx as nat)
                        + Seq::new(occurrences(irow.take(k as int), t), |i: int| idx as int),
            decreases row@.len() - k,
        {
            let target: usize = row[k];
            assert(graph[idx as int][k as int] == target as int);
            let ghost before = refs@;
            refs[target].push(idx);
            assert(irow.take(k as int + 1).drop_last() =~= irow.take(k as int));
            assert forall|t: int| 0 <= t < n implies as_ints((#[trigger] refs@[t])@) =~= dependents(
                graph,
                t,
                idx as nat,
            ) + Seq::new(occurrences(irow.take(k as int + 1), t), |i: int| idx as int) by {
                assert(as_ints(before[t]@) == dependents(graph, t, idx as nat) + Seq::new(
                    occurrences(irow.take(k as int), t),
                    |i: int| idx as int,
                ));
                let m = occurrences(irow.take(k as int), t);
                if t == target {
                    assert(refs@[t]@ == before[t]@.push(idx));
                    assert(as_ints(refs@[t]@) =~= as_ints(before[t]@).push(idx as int));
                    assert(occurrences(irow.take(k as int + 1), t) == m + 1);
                    assert(Seq::new(m + 1, |i: int| idx as int) =~= Seq::new(
                        m,
                        |i: int| idx as int,
                    ).push(idx as int));
                } else {
                    assert(refs@[t] == before[t]);
                    assert(occurrences(irow.take(k as int + 1), t) == m);
                }
            }
            k = k + 1;
        }
        assert(irow.take(row@.len() as int) =~= irow);
        idx = idx + 1;
        assert forall|t: int| 0 <= t < n implies as_ints((#[trigger] refs@[t])@) =~= dependents(
            graph,
            t,
            idx as nat,
        ) by {}
    }
    assert(as_graph(refs@) =~= references(graph));
    refs
}

/// What settling a graph leaves behind.
pub(crate) struct Settled {
    /// The settled nodes, each after everything it waits for.
    pub order: Vec<usize>,
    /// The longest chain of waits of each settled node.
    pub depth: Vec<usize>,
    /// The number of unsettled waits of each node.
    pub waiting: Vec<usize>,
}

/// Settles as many nodes of a graph as can be settled.
///
/// The nodes that are left over are exactly those that lie on a cycle or wait for one.
pub(crate) fn settle(targets: &Vec<Vec<usize>>, refs: &Vec<Vec<usize>>) -> (settled: Settled)
    requires
        closed_graph(as_graph(targets@)),
        as_graph(refs@) == references(as_graph(targets@)),
    ensures
        ({
            let graph = as_graph(targets@);
            let order = as_ints(settled.order@);
            let depth = as_ints(settled.depth@);
            &&& order == settling(graph)
            &&& order.no_duplicates()
            &&& order.len() <= graph.len()
            &&& forall|p: int| 0 <= p < order.len() ==> 0 <= #[trigger] order[p] < graph.len()
            &&& settled_in_turn(graph, order)
            &&& depth.len() == graph.len()
            &&& forall|p: int| 0 <= p < order.len() ==> is_depth(graph, depth, #[trigger] order[p])
            &&& settled.waiting@.len() == graph.len()
            &&& forall|j: int|
                #![trigger settled.waiting@[j]]
                0 <= j < graph.len() ==> (settled.waiting@[j] > 0 <==> stuck(graph, j))
            &&& forall|j: int| 0 <= j < graph.len() ==> (order.contains(j) <==> !#[trigger] stuck(graph, j))
            &&& order.len() == graph.len() <==> forall|j: int|
                0 <= j < graph.len() ==> !#[trigger] stuck(graph, j)
        }),
{
    let ghost graph = as_graph(targets@);
    let n: usize = targets.len();
    let mut waiting: Vec<usize> = Vec::new();
    let mut depth: Vec<usize> = Vec::new();
    let mut stack: Vec<usize> = Vec::new();
    let mut i: usize = 0;
    while i < n
        invariant
            i <= n,
            n == targets@.len(),
            graph == as_graph(targets@),
            waiting@.len() == i,
            depth@.len() == i,
            forall|j: int| 0 <= j < i ==> #[trigger] waiting@[j] == graph[j].len(),
            forall|j: int| 0 <= j < i ==> #[trigger] depth@[j] == 0,
            as_ints(stack@) == roots(graph, i as nat),
        decreases n - i,
    {
        let degree: usize = targets[i].len();
        assert(graph[i as int].len() == degree);
        waiting.push(degree);
        depth.push(0);
        if degree == 0 {
            let ghost before = stack@;
            stack.push(i);
            assert(as_ints(stack@) =~= as_ints(before).push(i as int));
        }
        i = i + 1;
    }
    let mut order: Vec<usize> = Vec::new();
    proof {
        lemma_roots(graph, n as nat);
        assert(as_ints(waiting@) =~= degrees(graph));
        assert(as_ints(order@) =~= Seq::<int>::empty());
        assert forall|j: int| 0 <= j < n implies #[trigger] as_ints(waiting@)[j] == pending(
            graph[j],
            Seq::empty(),
        ) by {
            lemma_pending_none(graph[j]);
        }
        assert(settling_state(graph, Seq::empty(), as_ints(stack@), as_ints(waiting@)));
        assert(depth_state(graph, Seq::empty(), as_ints(depth@)));
        assert(settling(graph) =~= as_ints(order@) + settle_order(
            references(graph),
            as_ints(waiting@),
            as_ints(stack@),
            n as nat,
        ));
    }
    while stack.len() > 0
        invariant
            n == targets@.len(),
            graph == as_graph(targets@),
            as_graph(refs@) == references(graph),
            order@.len() <= n,
            settling_state(graph, as_ints(order@), as_ints(stack@), as_ints(waiting@)),
            depth_state(graph, as_ints(order@), as_ints(depth@)),
            settling(graph) == as_ints(order@) + settle_order(
                references(graph),
                as_ints(waiting@),
                as_ints(stack@),
                (n - order@.len()) as nat,
            ),
        decreases n - order@.len(),
    {
        let ghost order0 = as_ints(order@);
        let ghost stack0 = as_ints(stack@);
        let ghost waiting0 = as_ints(waiting@);
        let ghost depth0 = as_ints(depth@);
        proof {
            lemma_settling_step(graph, order0, stack0, waiting0);
            lemma_depth_step(graph, order0, stack0, waiting0, depth0);
            let order1 = order0.push(stack0.last());
            lemma_distinct_bounded(order1, n as nat);
        }
        let node: usize = stack.pop().unwrap();
        assert(node as int == stack0.last());
        assert(stack0[stack0.len() - 1] < n);
        assert(as_graph(refs@).len() == refs@.len());
        assert(as_graph(refs@)[node as int] == as_ints(refs@[node as int]@));
        assert(as_ints(stack@) =~= stack0.drop_last());
        order.push(node);
        assert(as_ints(order@) =~= order0.push(node as int));
        let freed: &Vec<usize> = &refs[node];
        let ghost ifreed = references(graph)[node as int];
        assert(ifreed =~= as_ints(freed@));
        proof {
            lemma_dependents_range(graph, node as int, n as nat);
            assert(depth0[node as int] <= order0.len());
        }
        let next: usize = depth[node] + 1;
        let mut p: usize = 0;
        assert(ifreed.take(0) =~= Seq::<int>::empty());
        assert(as_ints(depth@) =~= deepened(depth0, ifreed.take(0), next as int));
        while p < freed.len()
            invariant
                p <= freed@.len(),
                n == graph.len(),
                waiting0.len() == n,
                depth0.len() == n,
                next == depth0[node as int] + 1,
                ifreed == as_ints(freed@),
                forall|q: int| 0 <= q < ifreed.len() ==> 0 <= #[trigger] ifreed[q] < n,
                forall|j: int| 0 <= j < n ==> occurrences(ifreed, j) <= #[trigger] waiting0[j],
                (as_ints(waiting@), as_ints(stack@)) == relax(
                    waiting0,
                    stack0.drop_last(),
                    ifreed.take(p as int),
                ),
                waiting@.len() == n,
                depth@.len() == n,
                as_ints(depth@) == deepened(depth0, ifreed.take(p as int), next as int),
            decreases freed@.len() - p,
        {
            let to: usize = freed[p];
            assert(to as int == ifreed[p as int]);
            let ghost taken = ifreed.take(p as int);
            let ghost taken1 = ifreed.take(p as int + 1);
            let ghost w = as_ints(waiting@);
            let ghost s = as_ints(stack@);
            let ghost d = as_ints(depth@);
            proof {
                assert(taken1.drop_last() =~= taken);
                assert(taken1.last() == to as int);
                lemma_prefix_counts(ifreed, p as int + 1);
                assert(occurrences(taken1, to as int) == occurrences(taken, to as int) + 1);
                assert forall|j: int| 0 <= j < n implies occurrences(taken, j) <= #[trigger] waiting0[j] by {
                    lemma_prefix_counts(ifreed, p as int);
                }
                lemma_relax(waiting0, stack0.drop_last(), taken);
                assert(w[to as int] == waiting0[to as int] - occurrences(taken, to as int));
                assert(w[to as int] == waiting@[to as int] as int);
            }
            if next > depth[to] {
                depth.set(to, next);
            }
            proof {
                let d1 = as_ints(depth@);
                assert forall|j: int| 0 <= j < n implies #[trigger] d1[j] == deepened(
                    depth0,
                    taken1,
                    next as int,
                )[j] by {
                    assert(d[j] == deepened(depth0, taken, next as int)[j]);
                    if j == to {
                        assert(d1[j] == if next > d[j] { next as int } else { d[j] });
                    } else {
                        assert(occurrences(taken1, j) == occurrences(taken, j));
                        assert(d1[j] == d[j]);
                    }
                }
                assert(d1 =~= deepened(depth0, taken1, next as int));
            }
            let left: usize = waiting[to] - 1;
            waiting.set(to, left);
            assert(as_ints(waiting@) =~= w.update(to as int, w[to as int] - 1));
            if left == 0 {
                stack.push(to);
                assert(as_ints(stack@) =~= s.push(to as int));
            }
            p = p + 1;
        }
        assert(ifreed.take(freed@.len() as int) =~= ifreed);
        proof {
            let fuel = (n - order0.len()) as nat;
            let rest = settle_order(
                references(graph),
                as_ints(waiting@),
                as_ints(stack@),
                (fuel - 1) as nat,
            );
            assert(settle_order(references(graph), waiting0, stack0, fuel) == seq![node as int]
                + rest);
            assert(as_ints(order@) + rest =~= order0 + (seq![node as int] + rest));
        }
    }
    proof {
        let o = as_ints(order@);
        let w = as_ints(waiting@);
        let d = as_ints(depth@);
        assert(settling(graph) =~= o);
        lemma_settling(graph);
        assert forall|j: int| #![trigger waiting@[j]] 0 <= j < graph.len() implies (waiting@[j] > 0
            <==> stuck(graph, j)) by {
            assert(w[j] == waiting@[j] as int);
        }
        assert forall|p: int| 0 <= p < o.len() implies is_depth(graph, d, #[trigger] o[p]) by {
            let j = o[p];
            assert(o.contains(j));
            lemma_settled_once(graph, o, as_ints(stack@), w, j);
            assert(depth_so_far(graph[j], o, d, d[j]));
        }
    }
    Settled { order, depth, waiting }
}

proof fn lemma_prefix_counts(s: Seq<int>, p: int)
    requires
        0 <= p <= s.len(),
    ensures
        forall|x: int| occurrences(s.take(p), x) <= #[trigger] occurrences(s, x),
{
    assert forall|x: int| occurrences(s.take(p), x) <= #[trigger] occurrences(s, x) by {
        assert(s =~= s.take(p) + s.skip(p));
        lemma_occurrences_split(s.take(p), s.skip(p), x);
    }
}

proof fn lemma_covering(s: Seq<int>, n: nat)
    requires
        s.no_duplicates(),
        forall|p: int| 0 <= p < s.len() ==> 0 <= #[trigger] s[p] < n,
        forall|j: int| 0 <= j < n ==> #[trigger] s.contains(j),
    ensures
        s.len() == n,
{
    lemma_distinct_bounded(s, n);
    let members = s.to_set();
    let range = vstd::set_lib::set_int_range(0, n as int);
    vstd::set_lib::lemma_int_range(0, n as int);
    s.unique_seq_to_set();
    assert forall|x: int| range.contains(x) implies members.contains(x) by {
        assert(s.contains(x));
    }
    vstd::set_lib::lemma_len_subset(range, members);
}

proof fn lemma_run(
    targets: Seq<Seq<int>>,
    done: Seq<int>,
    stack: Seq<int>,
    waiting: Seq<int>,
    fuel: nat,
)
    requires
        settling_state(targets, done, stack, waiting),
        done.len() + fuel == targets.len(),
    ensures
        exists|w: Seq<int>|
            settling_state(
                targets,
                done + settle_order(references(targets), waiting, stack, fuel),
                Seq::empty(),
                w,
            ),
    decreases fuel,
{
    let run = settle_order(references(targets), waiting, stack, fuel);
    if stack.len() == 0 {
        assert(done + run =~= done);
        assert(stack =~= Seq::<int>::empty());
        assert(settling_state(targets, done + run, Seq::empty(), waiting));
    } else if fuel == 0 {
        lemma_distinct_bounded(done, targets.len());
        assert(0 <= stack[0] < targets.len());
        assert(done.contains(stack[0]));
    } else {
        let i = stack.last();
        let (w1, s1) = relax(waiting, stack.drop_last(), references(targets)[i]);
        lemma_settling_step(targets, done, stack, waiting);
        lemma_run(targets, done.push(i), s1, w1, (fuel - 1) as nat);
        let rest = settle_order(references(targets), w1, s1, (fuel - 1) as nat);
        assert(done + run =~= done.push(i) + rest);
    }
}

/// The settling order names nodes at most once, each after everything it waits for, and leaves
/// out exactly the stuck nodes.
pub proof fn lemma_settling(targets: Seq<Seq<int>>)
    requires
        closed_graph(targets),
    ensures
        settling(targets).no_duplicates(),
        settling(targets).len() <= targets.len(),
        forall|p: int|
            0 <= p < settling(targets).len() ==> 0 <= #[trigger] settling(targets)[p]
                < targets.len(),
        settled_in_turn(targets, settling(targets)),
        forall|j: int|
            0 <= j < targets.len() ==> (settling(targets).contains(j) <==> !#[trigger] stuck(
                targets,
                j,
            )),
        settling(targets).len() == targets.len() <==> forall|j: int|
            0 <= j < targets.len() ==> !#[trigger] stuck(targets, j),
{
    let n = targets.len();
    let none = Seq::<int>::empty();
    lemma_roots(targets, n);
    let w0 = degrees(targets);
    let s0 = roots(targets, n);
    assert forall|j: int| 0 <= j < n implies #[trigger] w0[j] == pending(targets[j], none) by {
        lemma_pending_none(targets[j]);
    }
    assert(settling_state(targets, none, s0, w0));
    lemma_run(targets, none, s0, w0, n);
    let o = settling(targets);
    assert(none + o =~= o);
    let w = choose|w: Seq<int>| settling_state(targets, o, Seq::empty(), w);
    let left = Set::new(|j: int| 0 <= j < n && !o.contains(j));
    assert forall|j: int| #[trigger] left.contains(j) implies 0 <= j < n && exists|k: int|
        0 <= k < targets[j].len() && left.contains(#[trigger] targets[j][k]) by {
        assert(w[j] != 0);
        lemma_pending_zero(targets[j], o);
        let k = choose|k: int| 0 <= k < targets[j].len() && !o.contains(#[trigger] targets[j][k]);
        assert(left.contains(targets[j][k]));
    }
    assert(waits_within(targets, left));
    assert forall|j: int| 0 <= j < n implies (o.contains(j) <==> !#[trigger] stuck(targets, j)) by {
        if !o.contains(j) {
            assert(left.contains(j));
        } else if stuck(targets, j) {
            let nodes = choose|nodes: Set<int>| #[trigger]
                nodes.contains(j) && waits_within(targets, nodes);
            let p = choose|p: int| 0 <= p < o.len() && o[p] == j;
            lemma_settled_not_stuck(targets, o, nodes, p);
        }
    }
    lemma_distinct_bounded(o, n);
    if forall|j: int| 0 <= j < n ==> !#[trigger] stuck(targets, j) {
        assert forall|j: int| 0 <= j < n implies #[trigger] o.contains(j) by {
            assert(!stuck(targets, j));
        }
        lemma_covering(o, n);
    } else {
        let j = choose|j: int| 0 <= j < n && #[trigger] stuck(targets, j);
        assert(!o.contains(j));
    }
}

/// A node is among the dependents of another exactly if it names it as a target.
pub proof fn lemma_references(targets: Seq<Seq<int>>, t: int, j: int)
    requires
        0 <= t < targets.len(),
        0 <= j < targets.len(),
    ensures
        references(targets)[t].contains(j) <==> targets[j].contains(t),
        forall|p: int|
            0 <= p < references(targets)[t].len() ==> 0 <= #[trigger] references(targets)[t][p]
                < targets.len(),
{
    lemma_dependents_range(targets, t, targets.len());
    lemma_dependents_count(targets, t, targets.len(), j);
    lemma_occurrences_positive(references(targets)[t], j);
    lemma_occurrences_positive(targets[j], t);
}

} // verus!
