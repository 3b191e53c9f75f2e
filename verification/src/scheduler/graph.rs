//! The plugins that are being loaded, and which of them wait for which.
//!
//! A plugin is loaded in two phases.  The early phase, which fetches it, waits for nothing but a
//! revision.  The late phase, which builds and assembles it, waits for the early phase and for the
//! end of all plugins that it depends on.

use crate::order;
use crate::order::{Key, SortedMap, SortedSet};
use crate::text;
use vstd::prelude::*;

verus! {

/// How far a plugin is.
#[derive(Clone, Copy, Debug, PartialEq, Eq, Structural)]
pub enum Phase {
    /// It waits for a revision.
    Waiting,
    /// Its early phase goes on.
    Early,
    /// Its early phase is over.
    Ready,
    /// Its late phase goes on.
    Late,
    /// It is loaded, left out or has failed.
    Finished,
}

/// A plugin among those that are being loaded.
pub struct Node {
    pub phase: Phase,
    /// How many of the plugins it depends on are not finished.
    pub pending_deps: usize,
    /// The plugins that wait for it.
    pub dependents: Vec<usize>,
}

/// What a node is, mathematically.
pub struct NodeState {
    pub phase: Phase,
    pub pending: int,
    pub dependents: Seq<int>,
}

/// Positions as numbers.
pub open spec fn numbers(list: Seq<usize>) -> Seq<int> {
    list.map_values(|n: usize| n as int)
}

impl View for Node {
    type V = NodeState;

    open spec fn view(&self) -> NodeState {
        NodeState {
            phase: self.phase,
            pending: self.pending_deps as int,
            dependents: numbers(self.dependents@),
        }
    }
}

/// The plugins that are being loaded.
pub struct Graph {
    pub nodes: Vec<Node>,
    /// The plugins that each depends on, in order.
    pub depends: Vec<Vec<usize>>,
}

pub open spec fn node_states(list: Seq<Node>) -> Seq<NodeState> {
    list.map_values(|n: Node| n@)
}

/// What a graph is, mathematically.
pub struct Loading {
    pub nodes: Seq<NodeState>,
    pub depends: Seq<Seq<int>>,
}

impl View for Graph {
    type V = Loading;

    open spec fn view(&self) -> Loading {
        Loading {
            nodes: node_states(self.nodes@),
            depends: self.depends@.map_values(|l: Vec<usize>| numbers(l@)),
        }
    }
}

/// How many of the listed plugins are not finished.
pub open spec fn unfinished(nodes: Seq<NodeState>, list: Seq<int>) -> nat
    decreases list.len(),
{
    if list.len() == 0 {
        0
    } else {
        unfinished(nodes, list.drop_last()) + (if nodes[list.last()].phase == Phase::Finished {
            0nat
        } else {
            1nat
        })
    }
}

/// Numbers that ascend.
pub open spec fn ascends(list: Seq<int>) -> bool {
    forall|i: int, j: int| 0 <= i < j < list.len() ==> #[trigger] list[i] < #[trigger] list[j]
}

/// Plugin `i` waits for the plugins it depends on, and those know of it until they are finished.
pub open spec fn node_wf(g: Loading, i: int) -> bool {
    &&& ascends(g.depends[i])
    &&& forall|j: int| #[trigger]
        g.depends[i].contains(j) ==> 0 <= j < g.nodes.len() && j != i
    &&& g.nodes[i].pending == unfinished(g.nodes, g.depends[i])
    &&& g.nodes[i].phase == Phase::Finished ==> g.nodes[i].dependents.len() == 0
    &&& g.nodes[i].phase != Phase::Finished ==> ascends(g.nodes[i].dependents) && forall|k: int|
        #[trigger]
        g.nodes[i].dependents.contains(k) <==> 0 <= k < g.nodes.len() && g.depends[k].contains(i)
    &&& g.nodes[i].phase == Phase::Late ==> g.nodes[i].pending == 0
}

/// What every state of the loading keeps.
pub open spec fn loading_wf(g: Loading) -> bool {
    &&& g.nodes.len() == g.depends.len()
    &&& forall|i: int| 0 <= i < g.nodes.len() ==> #[trigger] node_wf(g, i)
}

/// A plugin can begin its late phase.
pub open spec fn can_start_late(n: NodeState) -> bool {
    n.phase == Phase::Ready && n.pending == 0
}

/// The plugins with one of them in another phase.
pub open spec fn in_phase(g: Loading, i: int, phase: Phase) -> Loading {
    Loading { nodes: g.nodes.update(i, NodeState { phase, ..g.nodes[i] }), ..g }
}

/// A plugin that waits for a finished one has one fewer to wait for, and begins its late phase if
/// that was the last.
pub open spec fn released(n: NodeState) -> NodeState {
    NodeState {
        pending: n.pending - 1,
        phase: if n.phase == Phase::Ready && n.pending == 1 {
            Phase::Late
        } else {
            n.phase
        },
        ..n
    }
}

/// The plugins once plugin `i` is finished.
pub open spec fn finished(g: Loading, i: int) -> Loading {
    Loading {
        nodes: Seq::new(
            g.nodes.len(),
            |k: int|
                if k == i {
                    NodeState {
                        phase: Phase::Finished,
                        dependents: Seq::empty(),
                        ..g.nodes[i]
                    }
                } else if g.nodes[i].dependents.contains(k) {
                    released(g.nodes[k])
                } else {
                    g.nodes[k]
                },
        ),
        ..g
    }
}

/// The plugin begins its late phase when it is released.
pub open spec fn starts_on_release(g: Loading) -> spec_fn(int) -> bool {
    |k: int| g.nodes[k].phase == Phase::Ready && g.nodes[k].pending == 1
}

/// The plugins that begin their late phase once plugin `i` is finished.
pub open spec fn started_by(g: Loading, i: int) -> Seq<int> {
    g.nodes[i].dependents.filter(starts_on_release(g))
}

/// All plugins that plugin `i` depends on are finished.
pub open spec fn deps_finished(g: Loading, i: int) -> bool {
    forall|j: int| #[trigger]
        g.depends[i].contains(j) ==> g.nodes[j].phase == Phase::Finished
}

pub(crate) proof fn lemma_none_unfinished(nodes: Seq<NodeState>, list: Seq<int>)
    ensures
        unfinished(nodes, list) == 0 <==> forall|j: int| #[trigger]
            list.contains(j) ==> nodes[j].phase == Phase::Finished,
    decreases list.len(),
{
    if list.len() > 0 {
        let front = list.drop_last();
        lemma_none_unfinished(nodes, front);
        assert(list =~= front.push(list.last()));
        assert forall|j: int| #[trigger] list.contains(j) <==> front.contains(j) || j == list.last() by {
            order::lemma_contains_push(front, list.last(), j);
        }
        assert(list.contains(list.last()));
        if unfinished(nodes, list) == 0 {
            assert(nodes[list.last()].phase == Phase::Finished);
        }
        if forall|j: int| #[trigger] list.contains(j) ==> nodes[j].phase == Phase::Finished {
            assert forall|j: int| #[trigger] front.contains(j) implies nodes[j].phase
                == Phase::Finished by {
                assert(list.contains(j));
            }
        } else {
            if unfinished(nodes, list) == 0 {
                assert forall|j: int| #[trigger] list.contains(j) implies nodes[j].phase
                    == Phase::Finished by {}
            }
        }
    }
}

/// A plugin begins its late phase only when all that it depends on are finished, and in its late
/// phase all of them are.
pub proof fn law_late_after_dependencies(g: Loading, i: int)
    requires
        loading_wf(g),
        0 <= i < g.nodes.len(),
        can_start_late(g.nodes[i]) || g.nodes[i].phase == Phase::Late,
    ensures
        deps_finished(g, i),
{
    assert(node_wf(g, i));
    lemma_none_unfinished(g.nodes, g.depends[i]);
}

/// The dependencies have no cycle: they come down in a rank.
pub open spec fn acyclic(g: Loading, rank: spec_fn(int) -> nat) -> bool {
    forall|i: int, j: int|
        0 <= i < g.nodes.len() && #[trigger] g.depends[i].contains(j) ==> rank(j) < rank(i)
}

/// Nothing goes on, nothing waits for a revision, and nothing can begin.
pub open spec fn idle(g: Loading) -> bool {
    forall|i: int|
        0 <= i < g.nodes.len() ==> {
            let n = #[trigger] g.nodes[i];
            &&& n.phase != Phase::Waiting
            &&& n.phase != Phase::Early
            &&& n.phase != Phase::Late
            &&& !can_start_late(n)
        }
}

proof fn lemma_idle_node(g: Loading, rank: spec_fn(int) -> nat, i: int)
    requires
        loading_wf(g),
        acyclic(g, rank),
        idle(g),
        0 <= i < g.nodes.len(),
    ensures
        g.nodes[i].phase == Phase::Finished,
    decreases rank(i),
{
    assert(node_wf(g, i));
    assert forall|j: int| #[trigger] g.depends[i].contains(j) implies g.nodes[j].phase
        == Phase::Finished by {
        lemma_idle_node(g, rank, j);
    }
    lemma_none_unfinished(g.nodes, g.depends[i]);
    assert(g.nodes[i].pending == 0);
    assert(!can_start_late(g.nodes[i]));
}

/// Loading never gets stuck: without cycles, when nothing goes on or can begin, all plugins are
/// finished.
pub proof fn law_no_deadlock(g: Loading, rank: spec_fn(int) -> nat)
    requires
        loading_wf(g),
        acyclic(g, rank),
        idle(g),
    ensures
        forall|i: int| 0 <= i < g.nodes.len() ==> (#[trigger] g.nodes[i]).phase == Phase::Finished,
{
    assert forall|i: int| 0 <= i < g.nodes.len() implies (#[trigger] g.nodes[i]).phase
        == Phase::Finished by {
        lemma_idle_node(g, rank, i);
    }
}

proof fn lemma_same_finished(a: Seq<NodeState>, b: Seq<NodeState>, list: Seq<int>)
    requires
        forall|j: int| #[trigger]
            list.contains(j) ==> (a[j].phase == Phase::Finished) == (b[j].phase == Phase::Finished),
    ensures
        unfinished(a, list) == unfinished(b, list),
    decreases list.len(),
{
    if list.len() > 0 {
        let front = list.drop_last();
        assert forall|j: int| #[trigger] front.contains(j) implies (a[j].phase == Phase::Finished)
            == (b[j].phase == Phase::Finished) by {
            let k = front.index_of(j);
            assert(list[k] == j);
            assert(list.contains(j));
        }
        lemma_same_finished(a, b, front);
        assert(list.contains(list.last()));
    }
}

pub(crate) proof fn lemma_one_finished(a: Seq<NodeState>, b: Seq<NodeState>, list: Seq<int>, i: int)
    requires
        ascends(list),
        a[i].phase != Phase::Finished,
        b[i].phase == Phase::Finished,
        forall|j: int| #[trigger]
            list.contains(j) && j != i ==> (a[j].phase == Phase::Finished) == (b[j].phase
                == Phase::Finished),
    ensures
        unfinished(b, list) == unfinished(a, list) - (if list.contains(i) {
            1int
        } else {
            0int
        }),
    decreases list.len(),
{
    if list.len() > 0 {
        let front = list.drop_last();
        assert(list =~= front.push(list.last()));
        assert forall|j: int| #[trigger] list.contains(j) <==> front.contains(j) || j == list.last() by {
            order::lemma_contains_push(front, list.last(), j);
        }
        assert(list.contains(list.last()));
        assert(ascends(front));
        if list.last() == i {
            assert(!front.contains(i)) by {
                if front.contains(i) {
                    let k = front.index_of(i);
                    assert(list[k] < list[list.len() - 1]);
                }
            }
        }
        assert forall|j: int| #[trigger] front.contains(j) && j != i implies (a[j].phase
            == Phase::Finished) == (b[j].phase == Phase::Finished) by {
            assert(list.contains(j));
        }
        lemma_one_finished(a, b, front, i);
    }
}

pub(crate) proof fn lemma_phase_wf(g: Loading, i: int, phase: Phase)
    requires
        loading_wf(g),
        0 <= i < g.nodes.len(),
        g.nodes[i].phase != Phase::Finished,
        phase != Phase::Finished,
        phase == Phase::Late ==> g.nodes[i].pending == 0,
    ensures
        loading_wf(in_phase(g, i, phase)),
{
    let h = in_phase(g, i, phase);
    assert forall|k: int| 0 <= k < h.nodes.len() implies #[trigger] node_wf(h, k) by {
        assert(node_wf(g, k));
        lemma_same_finished(g.nodes, h.nodes, g.depends[k]);
    }
}

/// Every plugin begins by waiting for a revision.
pub open spec fn is_start(g: Loading) -> bool {
    &&& loading_wf(g)
    &&& forall|i: int| 0 <= i < g.nodes.len() ==> (#[trigger] g.nodes[i]).phase == Phase::Waiting
}

/// The last place of a name.
pub open spec fn place_of(ids: Seq<Seq<char>>, id: Seq<char>) -> Option<int>
    decreases ids.len(),
{
    if ids.len() == 0 {
        None
    } else if ids.last() == id {
        Some(ids.len() - 1)
    } else {
        place_of(ids.drop_last(), id)
    }
}

pub(crate) proof fn lemma_place_of(ids: Seq<Seq<char>>, id: Seq<char>)
    ensures
        match place_of(ids, id) {
            Some(j) => 0 <= j < ids.len() && ids[j] == id,
            None => !ids.contains(id),
        },
    decreases ids.len(),
{
    if ids.len() > 0 {
        lemma_place_of(ids.drop_last(), id);
        if place_of(ids, id) is None {
            assert(ids =~= ids.drop_last().push(ids.last()));
            order::lemma_contains_push(ids.drop_last(), ids.last(), id);
        }
    }
}

/// Plugin `i` depends on plugin `j`: by one of the names it lists.  What is not there, and itself,
/// it does not wait for.
pub open spec fn depends_on(ids: Seq<Seq<char>>, names: Seq<Seq<char>>, i: int, j: int) -> bool {
    j != i && exists|k: int|
        0 <= k < names.len() && place_of(ids, #[trigger] names[k]) == Some(j)
}

/// The dependencies are those of the listed names.
pub open spec fn depends_by_name(
    g: Loading,
    ids: Seq<Seq<char>>,
    depends: Seq<Seq<Seq<char>>>,
) -> bool {
    &&& g.depends.len() == ids.len()
    &&& forall|i: int, j: int|
        0 <= i < ids.len() ==> (#[trigger] g.depends[i].contains(j) <==> depends_on(
            ids,
            depends[i],
            i,
            j,
        ))
}

proof fn lemma_ascends_unique(a: Seq<int>, b: Seq<int>)
    requires
        ascends(a),
        ascends(b),
        forall|j: int| #[trigger] a.contains(j) <==> b.contains(j),
    ensures
        a == b,
    decreases a.len(),
{
    if a.len() == 0 {
        if b.len() > 0 {
            assert(b.contains(b[0]));
            assert(a.contains(b[0]));
        }
        assert(a =~= b);
    } else {
        assert(a.contains(a.last()));
        assert(b.contains(a.last()));
        let k = b.index_of(a.last());
        assert(b[k] == a.last());
        assert(b.contains(b.last()));
        assert(a.contains(b.last()));
        let m = a.index_of(b.last());
        assert(a[m] == b.last());
        if k < b.len() - 1 {
            assert(b[k] < b[b.len() - 1]);
            if m < a.len() - 1 {
                assert(a[m] < a[a.len() - 1]);
            }
        }
        let a0 = a.drop_last();
        let b0 = b.drop_last();
        assert forall|j: int| #[trigger] a0.contains(j) <==> b0.contains(j) by {
            if a0.contains(j) {
                let n = a0.index_of(j);
                assert(a[n] == j);
                assert(a[n] < a[a.len() - 1]);
                assert(a.contains(j));
                let q = b.index_of(j);
                assert(b[q] == j);
                assert(b0[q] == j);
            }
            if b0.contains(j) {
                let n = b0.index_of(j);
                assert(b[n] == j);
                assert(b[n] < b[b.len() - 1]);
                assert(b.contains(j));
                assert(a.contains(j));
                let q = a.index_of(j);
                assert(a[q] == j);
                assert(a0[q] == j);
            }
        }
        lemma_ascends_unique(a0, b0);
        assert(a =~= a0.push(a.last()));
        assert(b =~= b0.push(b.last()));
    }
}

proof fn lemma_same_unfinished(a: Seq<NodeState>, b: Seq<NodeState>, list: Seq<int>, n: int)
    requires
        forall|i: int| 0 <= i < n ==> (#[trigger] a[i]).phase == b[i].phase,
        forall|k: int| 0 <= k < list.len() ==> 0 <= #[trigger] list[k] < n,
    ensures
        unfinished(a, list) == unfinished(b, list),
    decreases list.len(),
{
    if list.len() > 0 {
        assert(list.last() == list[list.len() - 1]);
        assert forall|k: int| 0 <= k < list.drop_last().len() implies 0
            <= #[trigger] list.drop_last()[k] < n by {
            assert(list.drop_last()[k] == list[k]);
        }
        lemma_same_unfinished(a, b, list.drop_last(), n);
        assert(a[list.last()].phase == b[list.last()].phase);
    }
}

/// Names and dependencies leave no choice of how loading begins.
pub proof fn law_start_is_unique(
    a: Loading,
    b: Loading,
    ids: Seq<Seq<char>>,
    depends: Seq<Seq<Seq<char>>>,
)
    requires
        is_start(a),
        is_start(b),
        depends_by_name(a, ids, depends),
        depends_by_name(b, ids, depends),
    ensures
        a == b,
{
    let n = ids.len() as int;
    assert forall|i: int| 0 <= i < n implies #[trigger] a.depends[i] == b.depends[i] by {
        assert(node_wf(a, i));
        assert(node_wf(b, i));
        assert forall|j: int| #[trigger] a.depends[i].contains(j) <==> b.depends[i].contains(j) by {
            assert(a.depends[i].contains(j) <==> depends_on(ids, depends[i], i, j));
            assert(b.depends[i].contains(j) <==> depends_on(ids, depends[i], i, j));
        }
        lemma_ascends_unique(a.depends[i], b.depends[i]);
    }
    assert(a.depends =~= b.depends);
    assert forall|i: int| 0 <= i < n implies #[trigger] a.nodes[i] == b.nodes[i] by {
        assert(node_wf(a, i));
        assert(node_wf(b, i));
        assert(a.nodes[i].phase == Phase::Waiting && b.nodes[i].phase == Phase::Waiting);
        assert forall|k: int| #[trigger]
            a.nodes[i].dependents.contains(k) <==> b.nodes[i].dependents.contains(k) by {
            assert(a.nodes[i].dependents.contains(k) <==> 0 <= k < n && a.depends[k].contains(i));
            assert(b.nodes[i].dependents.contains(k) <==> 0 <= k < n && b.depends[k].contains(i));
        }
        lemma_ascends_unique(a.nodes[i].dependents, b.nodes[i].dependents);
        assert forall|k: int| 0 <= k < a.depends[i].len() implies 0
            <= #[trigger] a.depends[i][k] < n by {
            assert(a.depends[i].contains(a.depends[i][k]));
        }
        lemma_same_unfinished(a.nodes, b.nodes, a.depends[i], n);
    }
    assert(a.nodes =~= b.nodes);
}

/// The places of names.
fn places(ids: &Vec<String>) -> (map: SortedMap<String, usize>)
    ensures
        map.wf(),
        forall|id: Seq<char>| #[trigger]
            map.has(id) <==> place_of(text::strings(ids@), id) is Some,
        forall|id: Seq<char>| #[trigger]
            map.has(id) ==> place_of(text::strings(ids@), id) == Some(map.at(id) as int),
{
    let ghost all = text::strings(ids@);
    let mut map: SortedMap<String, usize> = SortedMap::new();
    let mut i: usize = 0;
    assert(all.take(0) =~= Seq::<Seq<char>>::empty());
    while i < ids.len()
        invariant
            i <= ids@.len(),
            all == text::strings(ids@),
            map.wf(),
            forall|id: Seq<char>| #[trigger]
                map.has(id) <==> place_of(all.take(i as int), id) is Some,
            forall|id: Seq<char>| #[trigger]
                map.has(id) ==> place_of(all.take(i as int), id) == Some(map.at(id) as int),
        decreases ids@.len() - i,
    {
        let ghost before = map;
        let id = ids[i].clone();
        let ghost new = id@;
        map.insert(id, i);
        proof {
            assert(all.take(i as int + 1).drop_last() =~= all.take(i as int));
            assert(all.take(i as int + 1).last() == new);
            assert forall|id: Seq<char>| #[trigger] map.has(id) <==> place_of(
                all.take(i as int + 1),
                id,
            ) is Some by {
                assert(before.has(id) <==> place_of(all.take(i as int), id) is Some);
            }
            assert forall|id: Seq<char>| #[trigger] map.has(id) implies place_of(
                all.take(i as int + 1),
                id,
            ) == Some(map.at(id) as int) by {
                if id != new {
                    assert(before.has(id));
                }
            }
        }
        i = i + 1;
    }
    assert(all.take(i as int) =~= all);
    map
}

/// The plugins that plugin `i` depends on, in order.
fn dep_indices(map: &SortedMap<String, usize>, names: &Vec<String>, i: usize, Ghost(ids): Ghost<
    Seq<Seq<char>>,
>) -> (list: Vec<usize>)
    requires
        map.wf(),
        forall|id: Seq<char>| #[trigger] map.has(id) <==> place_of(ids, id) is Some,
        forall|id: Seq<char>| #[trigger]
            map.has(id) ==> place_of(ids, id) == Some(map.at(id) as int),
    ensures
        ascends(numbers(list@)),
        forall|j: int| #[trigger]
            numbers(list@).contains(j) <==> depends_on(ids, text::strings(names@), i as int, j),
{
    let ghost all = text::strings(names@);
    let mut set: SortedSet<usize> = SortedSet::new();
    let mut k: usize = 0;
    while k < names.len()
        invariant
            k <= names@.len(),
            all == text::strings(names@),
            map.wf(),
            forall|id: Seq<char>| #[trigger] map.has(id) <==> place_of(ids, id) is Some,
            forall|id: Seq<char>| #[trigger]
                map.has(id) ==> place_of(ids, id) == Some(map.at(id) as int),
            set.wf(),
            forall|j: int| #[trigger]
                set.has(j) <==> depends_on(ids, all.take(k as int), i as int, j),
        decreases names@.len() - k,
    {
        let ghost before = set;
        let ghost name = all[k as int];
        assert(map.has(name) <==> place_of(ids, name) is Some);
        if let Some(place) = map.get(&names[k]) {
            if *place != i {
                set.insert(*place);
            }
        }
        proof {
            let front = all.take(k as int);
            let more = all.take(k as int + 1);
            assert forall|j: int| #[trigger] set.has(j) <==> depends_on(ids, more, i as int, j) by {
                assert(before.has(j) <==> depends_on(ids, front, i as int, j));
                if depends_on(ids, front, i as int, j) {
                    let x = choose|x: int|
                        0 <= x < front.len() && place_of(ids, #[trigger] front[x]) == Some(j);
                    assert(more[x] == front[x]);
                }
                assert(more[k as int] == name);
                if depends_on(ids, more, i as int, j) {
                    let x = choose|x: int|
                        0 <= x < more.len() && place_of(ids, #[trigger] more[x]) == Some(j);
                    if x < k {
                        assert(front[x] == more[x]);
                    }
                }
            }
        }
        k = k + 1;
    }
    assert(all.take(k as int) =~= all);
    let ghost members = set.members();
    let list = set.members;
    proof {
        order::lemma_number_members(set);
        assert(numbers(list@) =~= members);
        assert forall|x: int, y: int| 0 <= x < y < members.len() implies #[trigger] members[x]
            < #[trigger] members[y] by {
            assert(<usize as Key>::before(members[x], members[y]));
        }
        assert forall|j: int| #[trigger] numbers(list@).contains(j) <==> depends_on(
            ids,
            all,
            i as int,
            j,
        ) by {
            assert(set.has(j) <==> depends_on(ids, all, i as int, j));
        }
    }
    list
}

/// Plugins `0` to `n` know of those that wait for them, as far as those below `done` go.
spec fn known_to(nodes: Seq<NodeState>, depends: Seq<Seq<int>>, done: int) -> bool {
    forall|j: int|
        0 <= j < nodes.len() ==> {
            let n = #[trigger] nodes[j];
            &&& n.phase == Phase::Waiting
            &&& ascends(n.dependents)
            &&& forall|k: int| #[trigger]
                n.dependents.contains(k) <==> 0 <= k < done && depends[k].contains(j)
        }
}

proof fn lemma_all_unfinished(nodes: Seq<NodeState>, list: Seq<int>)
    requires
        forall|j: int| #[trigger] list.contains(j) ==> nodes[j].phase != Phase::Finished,
    ensures
        unfinished(nodes, list) == list.len(),
    decreases list.len(),
{
    if list.len() > 0 {
        let front = list.drop_last();
        assert forall|j: int| #[trigger] front.contains(j) implies nodes[j].phase
            != Phase::Finished by {
            let k = front.index_of(j);
            assert(list[k] == j);
            assert(list.contains(j));
        }
        lemma_all_unfinished(nodes, front);
        assert(list.contains(list.last()));
    }
}

/// Lets the plugins that plugin `i` depends on know of it.
fn add_dependent(nodes: &mut Vec<Node>, list: &Vec<usize>, i: usize, Ghost(depends): Ghost<
    Seq<Seq<int>>,
>)
    requires
        i < depends.len(),
        depends[i as int] == numbers(list@),
        ascends(numbers(list@)),
        forall|j: int| #[trigger] numbers(list@).contains(j) ==> 0 <= j < old(nodes)@.len(),
        known_to(node_states(old(nodes)@), depends, i as int),
    ensures
        final(nodes)@.len() == old(nodes)@.len(),
        known_to(node_states(final(nodes)@), depends, i + 1),
        forall|j: int|
            0 <= j < old(nodes)@.len() ==> (#[trigger] final(nodes)@[j]).pending_deps == old(
                nodes,
            )@[j].pending_deps,
{
    let ghost before = nodes@;
    let ghost all = numbers(list@);
    let mut k: usize = 0;
    while k < list.len()
        invariant
            k <= list@.len(),
            all == numbers(list@),
            ascends(all),
            nodes@.len() == before.len(),
            forall|j: int| #[trigger] all.contains(j) ==> 0 <= j < before.len(),
            forall|j: int|
                0 <= j < before.len() ==> (#[trigger] nodes@[j]).pending_deps
                    == before[j].pending_deps && nodes@[j].phase == before[j].phase,
            forall|j: int|
                0 <= j < before.len() ==> numbers((#[trigger] nodes@[j]).dependents@) == (
                if all.take(k as int).contains(j) {
                    numbers(before[j].dependents@).push(i as int)
                } else {
                    numbers(before[j].dependents@)
                }),
        decreases list@.len() - k,
    {
        let place = list[k];
        let ghost now = nodes@;
        proof {
            assert(all[k as int] == place);
            assert(all.contains(place as int));
            assert(all.take(k as int + 1) =~= all.take(k as int).push(place as int));
            assert(!all.take(k as int).contains(place as int)) by {
                if all.take(k as int).contains(place as int) {
                    let x = all.take(k as int).index_of(place as int);
                    assert(all[x] < all[k as int]);
                }
            }
        }
        nodes[place].dependents.push(i);
        proof {
            assert forall|j: int| 0 <= j < before.len() implies numbers(
                (#[trigger] nodes@[j]).dependents@,
            ) == (if all.take(k as int + 1).contains(j) {
                numbers(before[j].dependents@).push(i as int)
            } else {
                numbers(before[j].dependents@)
            }) by {
                order::lemma_contains_push(all.take(k as int), place as int, j);
                if j == place {
                    assert(nodes@[j].dependents@ == now[j].dependents@.push(i));
                    assert(numbers(nodes@[j].dependents@) =~= numbers(now[j].dependents@).push(
                        i as int,
                    ));
                } else {
                    assert(nodes@[j] == now[j]);
                }
            }
        }
        k = k + 1;
    }
    proof {
        assert(all.take(k as int) =~= all);
        let a = node_states(before);
        let b = node_states(nodes@);
        assert forall|j: int| 0 <= j < b.len() implies ({
            let n = #[trigger] b[j];
            &&& n.phase == Phase::Waiting
            &&& ascends(n.dependents)
            &&& forall|x: int| #[trigger]
                n.dependents.contains(x) <==> 0 <= x < i + 1 && depends[x].contains(j)
        }) by {
            assert(nodes@[j].phase == before[j].phase);
            assert(a[j] == before[j]@);
            assert(b[j] == nodes@[j]@);
            let old_list = a[j].dependents;
            assert forall|x: int| #[trigger] b[j].dependents.contains(x) <==> 0 <= x < i + 1
                && depends[x].contains(j) by {
                assert(old_list.contains(x) <==> 0 <= x < i && depends[x].contains(j));
                order::lemma_contains_push(old_list, i as int, x);
            }
            if all.contains(j) {
                assert forall|x: int, y: int| 0 <= x < y < b[j].dependents.len() implies #[trigger] b[j].dependents[x]
                    < #[trigger] b[j].dependents[y] by {
                    if y == old_list.len() {
                        assert(old_list.contains(old_list[x]));
                    }
                }
            }
        }
    }
}

spec fn is_fresh(node: Node, list: Seq<usize>) -> bool {
    ascends(numbers(list)) && node.phase == Phase::Waiting && node.dependents@.len() == 0
        && node.pending_deps == list.len()
}

impl Graph {
    /// What every state of the loading keeps.
    pub open spec fn wf(&self) -> bool {
        loading_wf(self@)
    }

    /// The plugins with the dependencies that they list by name, none of them begun.
    pub fn new(ids: &Vec<String>, depends: &Vec<Vec<String>>) -> (g: Graph)
        requires
            ids@.len() == depends@.len(),
        ensures
            g.wf(),
            is_start(g@),
            g@.nodes.len() == ids@.len(),
            depends_by_name(
                g@,
                text::strings(ids@),
                depends@.map_values(|l: Vec<String>| text::strings(l@)),
            ),
    {
        let ghost names = text::strings(ids@);
        let ghost wanted = depends@.map_values(|l: Vec<String>| text::strings(l@));
        let map = places(ids);
        let n: usize = ids.len();
        let mut lists: Vec<Vec<usize>> = Vec::new();
        let mut nodes: Vec<Node> = Vec::new();
        let mut i: usize = 0;
        while i < n
            invariant
                i <= n,
                n == ids@.len(),
                n == depends@.len(),
                names == text::strings(ids@),
                wanted == depends@.map_values(|l: Vec<String>| text::strings(l@)),
                map.wf(),
                forall|id: Seq<char>| #[trigger] map.has(id) <==> place_of(names, id) is Some,
                forall|id: Seq<char>| #[trigger]
                    map.has(id) ==> place_of(names, id) == Some(map.at(id) as int),
                lists@.len() == i,
                nodes@.len() == i,
                forall|k: int| 0 <= k < i ==> #[trigger] is_fresh(nodes@[k], lists@[k]@),
                forall|k: int, j: int|
                    0 <= k < i ==> (#[trigger] numbers(lists@[k]@).contains(j) <==> depends_on(
                        names,
                        wanted[k],
                        k,
                        j,
                    )),
            decreases n - i,
        {
            let ghost old_lists = lists@;
            let ghost old_nodes = nodes@;
            let list = dep_indices(&map, &depends[i], i, Ghost(names));
            nodes.push(
                Node {
                    phase: Phase::Waiting,
                    pending_deps: list.len(),
                    dependents: Vec::new(),
                },
            );
            lists.push(list);
            proof {
                assert forall|k: int| 0 <= k < i + 1 implies #[trigger] is_fresh(
                    nodes@[k],
                    lists@[k]@,
                ) by {
                    if k < i {
                        assert(is_fresh(old_nodes[k], old_lists[k]@));
                    }
                }
            }
            i = i + 1;
        }
        let ghost deps = lists@.map_values(|l: Vec<usize>| numbers(l@));
        proof {
            assert forall|k: int, j: int| 0 <= k < n && #[trigger] deps[k].contains(j) implies 0 <= j
                < n && j != k by {
                assert(numbers(lists@[k]@).contains(j));
                let x = choose|x: int|
                    0 <= x < wanted[k].len() && place_of(names, #[trigger] wanted[k][x]) == Some(j);
                lemma_place_of(names, wanted[k][x]);
            }
            assert forall|k: int| 0 <= k < n implies ascends(#[trigger] deps[k])
                && nodes@[k].pending_deps == deps[k].len() by {
                assert(is_fresh(nodes@[k], lists@[k]@));
            }
            let start = node_states(nodes@);
            assert forall|j: int| 0 <= j < start.len() implies ({
                let m = #[trigger] start[j];
                &&& m.phase == Phase::Waiting
                &&& ascends(m.dependents)
                &&& forall|k: int| #[trigger]
                    m.dependents.contains(k) <==> 0 <= k < 0 && deps[k].contains(j)
            }) by {
                assert(is_fresh(nodes@[j], lists@[j]@));
                assert(start[j] == nodes@[j]@);
            }
        }
        let mut i: usize = 0;
        while i < n
            invariant
                i <= n,
                n == lists@.len(),
                n == nodes@.len(),
                deps == lists@.map_values(|l: Vec<usize>| numbers(l@)),
                forall|k: int|
                    0 <= k < n ==> ascends(#[trigger] deps[k]) && nodes@[k].pending_deps
                        == deps[k].len(),
                forall|k: int, j: int|
                    0 <= k < n && #[trigger] deps[k].contains(j) ==> 0 <= j < n && j != k,
                known_to(node_states(nodes@), deps, i as int),
            decreases n - i,
        {
            proof {
                assert(deps[i as int] == numbers(lists@[i as int]@));
                assert forall|j: int| #[trigger] numbers(lists@[i as int]@).contains(j) implies 0 <= j
                    < nodes@.len() by {
                    assert(deps[i as int].contains(j));
                }
            }
            add_dependent(&mut nodes, &lists[i], i, Ghost(deps));
            i = i + 1;
        }
        let g = Graph { nodes, depends: lists };
        proof {
            assert(g@.depends =~= deps);
            assert forall|k: int| 0 <= k < g@.nodes.len() implies #[trigger] node_wf(g@, k) by {
                assert(g@.nodes[k] == g.nodes@[k]@);
                assert(deps[k] == numbers(lists@[k]@));
                assert forall|j: int| #[trigger] deps[k].contains(j) implies g@.nodes[j].phase
                    != Phase::Finished by {
                    assert(0 <= j < n);
                    assert(g@.nodes[j].phase == Phase::Waiting);
                }
                lemma_all_unfinished(g@.nodes, deps[k]);
            }
            assert forall|i: int, j: int| 0 <= i < ids@.len() implies (#[trigger] g@.depends[i].contains(
                j,
            ) <==> depends_on(names, wanted[i], i, j)) by {
                assert(numbers(lists@[i]@).contains(j) <==> depends_on(names, wanted[i], i, j));
            }
        }
        g
    }

    /// Begins the early phase of a plugin that waits for a revision.
    pub fn start_early(&mut self, i: usize) -> (started: bool)
        requires
            old(self).wf(),
            i < old(self)@.nodes.len(),
        ensures
            final(self).wf(),
            started == (old(self)@.nodes[i as int].phase == Phase::Waiting),
            final(self)@ == (if started {
                in_phase(old(self)@, i as int, Phase::Early)
            } else {
                old(self)@
            }),
    {
        let ghost before = self@;
        if self.nodes[i].phase != Phase::Waiting {
            return false;
        }
        self.nodes[i].phase = Phase::Early;
        proof {
            assert(self@.nodes =~= in_phase(before, i as int, Phase::Early).nodes);
            assert(self@.depends =~= before.depends);
            lemma_phase_wf(before, i as int, Phase::Early);
        }
        true
    }

    /// Begins the late phase of a plugin if nothing holds it.
    pub fn start_late(&mut self, i: usize) -> (started: bool)
        requires
            old(self).wf(),
            i < old(self)@.nodes.len(),
        ensures
            final(self).wf(),
            started == can_start_late(old(self)@.nodes[i as int]),
            final(self)@ == (if started {
                in_phase(old(self)@, i as int, Phase::Late)
            } else {
                old(self)@
            }),
    {
        let ghost before = self@;
        if self.nodes[i].phase != Phase::Ready || self.nodes[i].pending_deps != 0 {
            return false;
        }
        self.nodes[i].phase = Phase::Late;
        proof {
            assert(self@.nodes =~= in_phase(before, i as int, Phase::Late).nodes);
            assert(self@.depends =~= before.depends);
            lemma_phase_wf(before, i as int, Phase::Late);
        }
        true
    }

    /// Ends the early phase of a plugin.
    pub fn set_ready(&mut self, i: usize)
        requires
            old(self).wf(),
            i < old(self)@.nodes.len(),
            old(self)@.nodes[i as int].phase != Phase::Finished,
        ensures
            final(self).wf(),
            final(self)@ == in_phase(old(self)@, i as int, Phase::Ready),
    {
        let ghost before = self@;
        self.nodes[i].phase = Phase::Ready;
        proof {
            assert(self@.nodes =~= in_phase(before, i as int, Phase::Ready).nodes);
            assert(self@.depends =~= before.depends);
            lemma_phase_wf(before, i as int, Phase::Ready);
        }
    }

    /// Marks a plugin's early phase as begun elsewhere.
    pub fn set_early(&mut self, i: usize)
        requires
            old(self).wf(),
            i < old(self)@.nodes.len(),
            old(self)@.nodes[i as int].phase != Phase::Finished,
        ensures
            final(self).wf(),
            final(self)@ == in_phase(old(self)@, i as int, Phase::Early),
    {
        let ghost before = self@;
        self.nodes[i].phase = Phase::Early;
        proof {
            assert(self@.nodes =~= in_phase(before, i as int, Phase::Early).nodes);
            assert(self@.depends =~= before.depends);
            lemma_phase_wf(before, i as int, Phase::Early);
        }
    }
}

pub(crate) proof fn lemma_finished_wf(g: Loading, i: int)
    requires
        loading_wf(g),
        0 <= i < g.nodes.len(),
        g.nodes[i].phase != Phase::Finished,
    ensures
        loading_wf(finished(g, i)),
{
    let h = finished(g, i);
    assert(node_wf(g, i));
    assert forall|k: int| 0 <= k < h.nodes.len() implies #[trigger] node_wf(h, k) by {
        assert(node_wf(g, k));
        assert forall|j: int| #[trigger] g.depends[k].contains(j) && j != i implies (
        g.nodes[j].phase == Phase::Finished) == (h.nodes[j].phase == Phase::Finished) by {
            assert(0 <= j < g.nodes.len());
        }
        lemma_one_finished(g.nodes, h.nodes, g.depends[k], i);
        assert(g.nodes[i].dependents.contains(k) <==> g.depends[k].contains(i));
        if k == i {
            assert(!g.depends[i].contains(i));
        }
    }
}

impl Graph {
    /// Finishes a plugin.  Those that wait for it have one fewer to wait for; hands back those
    /// whose late phase begins with that.
    pub fn finish(&mut self, i: usize) -> (started: Vec<usize>)
        requires
            old(self).wf(),
            i < old(self)@.nodes.len(),
            old(self)@.nodes[i as int].phase != Phase::Finished,
        ensures
            final(self).wf(),
            final(self)@ == finished(old(self)@, i as int),
            numbers(started@) == started_by(old(self)@, i as int),
    {
        let ghost g = self@;
        let ghost raw = self.nodes@;
        let ghost all = g.nodes[i as int].dependents;
        let ghost pick = starts_on_release(g);
        proof {
            assert(node_wf(g, i as int));
            assert(all == numbers(raw[i as int].dependents@));
        }
        let mut dependents: Vec<usize> = Vec::new();
        std::mem::swap(&mut dependents, &mut self.nodes[i].dependents);
        self.nodes[i].phase = Phase::Finished;
        let mut started: Vec<usize> = Vec::new();
        let mut k: usize = 0;
        proof {
            reveal(Seq::filter);
            assert(all.take(0).filter(pick) =~= Seq::<int>::empty());
            assert(numbers(started@) =~= Seq::<int>::empty());
            assert(numbers(dependents@) == all);
        }
        while k < dependents.len()
            invariant
                k <= dependents@.len(),
                i < raw.len(),
                self.nodes@.len() == raw.len(),
                self.depends@.map_values(|l: Vec<usize>| numbers(l@)) == g.depends,
                g.nodes == node_states(raw),
                loading_wf(g),
                all == numbers(dependents@),
                all == g.nodes[i as int].dependents,
                ascends(all),
                pick == starts_on_release(g),
                g.nodes[i as int].phase != Phase::Finished,
                forall|j: int| #[trigger]
                    all.contains(j) <==> 0 <= j < g.nodes.len() && g.depends[j].contains(i as int),
                numbers(started@) == all.take(k as int).filter(pick),
                forall|j: int|
                    0 <= j < raw.len() && j != i ==> (#[trigger] self.nodes@[j])@ == (
                    if all.take(k as int).contains(j) {
                        released(g.nodes[j])
                    } else {
                        g.nodes[j]
                    }),
                self.nodes@[i as int]@ == (NodeState {
                    phase: Phase::Finished,
                    dependents: Seq::empty(),
                    ..g.nodes[i as int]
                }),
            decreases dependents@.len() - k,
        {
            let d = dependents[k];
            let ghost now = self.nodes@;
            let ghost listed = started@;
            proof {
                assert(all[k as int] == d);
                assert(all.contains(d as int));
                assert(node_wf(g, d as int));
                assert(d != i);
                lemma_none_unfinished(g.nodes, g.depends[d as int]);
                assert(g.nodes[d as int].pending > 0);
                assert(all.take(k as int + 1) =~= all.take(k as int).push(d as int));
                assert(!all.take(k as int).contains(d as int)) by {
                    if all.take(k as int).contains(d as int) {
                        let x = all.take(k as int).index_of(d as int);
                        assert(all[x] < all[k as int]);
                    }
                }
                assert(now[d as int]@ == g.nodes[d as int]);
                reveal(Seq::filter);
                assert(all.take(k as int + 1).drop_last() =~= all.take(k as int));
                assert(all.take(k as int + 1).last() == d);
            }
            self.nodes[d].pending_deps = self.nodes[d].pending_deps - 1;
            if self.nodes[d].phase == Phase::Ready && self.nodes[d].pending_deps == 0 {
                self.nodes[d].phase = Phase::Late;
                started.push(d);
                assert(numbers(started@) =~= numbers(listed).push(d as int));
            }
            proof {
                assert(self.nodes@[d as int]@ == released(g.nodes[d as int]));
                assert forall|j: int| 0 <= j < raw.len() && j != i implies (
                #[trigger] self.nodes@[j])@ == (if all.take(k as int + 1).contains(j) {
                    released(g.nodes[j])
                } else {
                    g.nodes[j]
                }) by {
                    order::lemma_contains_push(all.take(k as int), d as int, j);
                    if j != d {
                        assert(self.nodes@[j] == now[j]);
                    }
                }
            }
            k = k + 1;
        }
        proof {
            assert(all.take(k as int) =~= all);
            assert(self@.nodes =~= finished(g, i as int).nodes);
            assert(self@.depends =~= g.depends);
            lemma_finished_wf(g, i as int);
        }
        started
    }
}

} // verus!
