//! Dependency resolution.
//!
//! Nodes may carry a name, and name the nodes they depend on.  Resolving a list of nodes
//! orders it so that iteration yields every node after the nodes it depends on.

use crate::dag::tree::{DagItem, DagTree};
use crate::names;
use crate::names::NameIndex;
use crate::text;
use vstd::prelude::*;

pub mod iterator;
pub mod laws;
pub mod topo;
pub mod tree;

verus! {

/// A node of a dependency graph.
pub trait DagNode: Sized {
    /// The node's name as text.
    spec fn node_id(&self) -> Option<Seq<char>>;

    /// The names of the nodes it depends on.
    spec fn node_depends(&self) -> Seq<Seq<char>>;

    /// The name.  A node without one is a leaf: it is exempt from the check for duplicates
    /// and nothing can depend on it.
    fn id(&self) -> (id: Option<&str>)
        ensures
            text::optional_slice(id) == self.node_id(),
    ;

    /// The names of the nodes it depends on, in order.
    fn depends(&self) -> (names: Vec<&str>)
        ensures
            text::slices(names@) == self.node_depends(),
    ;
}

/// Why a list of nodes could not be resolved.
#[derive(Debug)]
pub enum DagError {
    /// Two nodes have this name.
    DuplicateName(String),
    /// A node depends on a name that no node has.
    UnknownDependency { dep: String, by: Option<String> },
    /// These nodes lie on a cycle or depend on one.
    CycleDetected(Vec<String>),
}

impl DagError {
    /// The message for a user.
    pub open spec fn message_text(&self) -> Seq<char> {
        match self {
            DagError::DuplicateName(name) => "duplicate node: "@ + name@,
            DagError::UnknownDependency { dep, by } => "unknown dependency: "@ + dep@
                + " (referred by "@ + (match by {
                Some(by) => by@,
                None => "<unnamed>"@,
            }) + ")"@,
            DagError::CycleDetected(names) => "cycle detected; remaining: "@
                + text::quoted_list_text(text::strings(names@)),
        }
    }

    /// The message for a user.
    pub fn message(&self) -> (message: String)
        ensures
            message@ == self.message_text(),
    {
        match self {
            DagError::DuplicateName(name) => {
                String::from_str("duplicate node: ").concat(name.as_str())
            },
            DagError::UnknownDependency { dep, by } => {
                let mut message = String::from_str("unknown dependency: ");
                message.append(dep.as_str());
                message.append(" (referred by ");
                match by {
                    Some(by) => message.append(by.as_str()),
                    None => message.append("<unnamed>"),
                }
                message.append(")");
                message
            },
            DagError::CycleDetected(names) => {
                let list = text::quoted_list(names);
                String::from_str("cycle detected; remaining: ").concat(list.as_str())
            },
        }
    }
}

/// Node `i` has the name.
pub open spec fn is_named<D: DagNode>(nodes: Seq<D>, name: Seq<char>, i: int) -> bool {
    0 <= i < nodes.len() && nodes[i].node_id() == Some(name)
}

/// The position of the node with the name.
pub open spec fn position<D: DagNode>(nodes: Seq<D>, name: Seq<char>) -> int {
    choose|i: int| is_named(nodes, name, i)
}

/// Some node has the name.
pub open spec fn known<D: DagNode>(nodes: Seq<D>, name: Seq<char>) -> bool {
    exists|i: int| is_named(nodes, name, i)
}

/// Node `j` has the name of an earlier node.
pub open spec fn repeats_name<D: DagNode>(nodes: Seq<D>, j: int) -> bool {
    &&& 0 <= j < nodes.len()
    &&& nodes[j].node_id() is Some
    &&& exists|i: int| i < j && is_named(nodes, nodes[j].node_id()->0, i)
}

/// No two nodes have the same name.
pub open spec fn distinct_names<D: DagNode>(nodes: Seq<D>) -> bool {
    forall|j: int| !repeats_name(nodes, j)
}

/// Dependency `k` of node `j` names no node.
pub open spec fn unknown_at<D: DagNode>(nodes: Seq<D>, j: int, k: int) -> bool {
    &&& 0 <= j < nodes.len()
    &&& 0 <= k < nodes[j].node_depends().len()
    &&& !known(nodes, nodes[j].node_depends()[k])
}

/// Every dependency names a node.
pub open spec fn all_known<D: DagNode>(nodes: Seq<D>) -> bool {
    forall|j: int, k: int| !unknown_at(nodes, j, k)
}

/// Node `j` is the first that repeats a name.
pub open spec fn first_repeat<D: DagNode>(nodes: Seq<D>, j: int) -> bool {
    repeats_name(nodes, j) && forall|i: int| i < j ==> !repeats_name(nodes, i)
}

/// Dependency `k` of node `j` is the first that names no node.
pub open spec fn first_unknown<D: DagNode>(nodes: Seq<D>, j: int, k: int) -> bool {
    unknown_at(nodes, j, k) && forall|i: int, l: int|
        i < j || (i == j && l < k) ==> !unknown_at(nodes, i, l)
}

/// For each node the positions of the nodes it depends on.
pub open spec fn wait_graph<D: DagNode>(nodes: Seq<D>) -> Seq<Seq<int>> {
    Seq::new(
        nodes.len(),
        |j: int| nodes[j].node_depends().map_values(|name: Seq<char>| position(nodes, name)),
    )
}

/// The names of the stuck nodes below `upto`, in order.
pub open spec fn stuck_names<D: DagNode>(nodes: Seq<D>, upto: nat) -> Seq<Seq<char>>
    decreases upto,
{
    if upto == 0 {
        Seq::empty()
    } else {
        let last = upto - 1;
        let before = stuck_names(nodes, (upto - 1) as nat);
        if topo::stuck(wait_graph(nodes), last) && nodes[last].node_id() is Some {
            before.push(nodes[last].node_id()->0)
        } else {
            before
        }
    }
}

/// The graph has a cycle.
pub open spec fn cyclic<D: DagNode>(nodes: Seq<D>) -> bool {
    exists|j: int| 0 <= j < nodes.len() && #[trigger] topo::stuck(wait_graph(nodes), j)
}

/// A resolved node: where it stood, how deep its longest chain of dependencies is, and the
/// resolved positions of the nodes that depend on it.
pub struct Placed<D> {
    pub node: D,
    pub index: int,
    pub depth: int,
    pub dependents: Seq<int>,
}

/// The stored order: dependents before what they depend on.
pub open spec fn stored_order<D: DagNode>(nodes: Seq<D>) -> Seq<int> {
    topo::settling(wait_graph(nodes)).reverse()
}

/// `placed` is the resolution of `nodes`.
pub open spec fn resolves<D: DagNode>(nodes: Seq<D>, placed: Seq<Placed<D>>) -> bool {
    let graph = wait_graph(nodes);
    let order = stored_order(nodes);
    &&& placed.len() == nodes.len()
    &&& order.len() == nodes.len()
    &&& forall|p: int|
        0 <= p < placed.len() ==> {
            &&& (#[trigger] placed[p]).node == nodes[order[p]]
            &&& placed[p].index == order[p]
            &&& placed[p].dependents == topo::references(graph)[order[p]].map_values(
                |e: int| order.index_of(e),
            )
        }
    &&& exists|depth: Seq<int>|
        #![trigger depth.len()]
        {
            &&& depth.len() == nodes.len()
            &&& forall|j: int| 0 <= j < nodes.len() ==> #[trigger] topo::is_depth(graph, depth, j)
            &&& forall|p: int| 0 <= p < placed.len() ==> (#[trigger] placed[p]).depth == depth[order[p]]
        }
}

/// What resolving `nodes` gives.
pub open spec fn resolution<D: DagNode>(nodes: Seq<D>, result: Result<DagTree<D>, DagError>) -> bool {
    match result {
        Err(DagError::DuplicateName(name)) => exists|j: int| #[trigger]
            first_repeat(nodes, j) && nodes[j].node_id() == Some(name@),
        Err(DagError::UnknownDependency { dep, by }) => distinct_names(nodes) && exists|
            j: int,
            k: int,
        | #[trigger]
            first_unknown(nodes, j, k) && dep@ == nodes[j].node_depends()[k]
                && text::optional_string(by) == nodes[j].node_id(),
        Err(DagError::CycleDetected(names)) => {
            &&& distinct_names(nodes)
            &&& all_known(nodes)
            &&& cyclic(nodes)
            &&& text::strings(names@) == stuck_names(nodes, nodes.len())
        },
        Ok(tree) => {
            &&& distinct_names(nodes)
            &&& all_known(nodes)
            &&& !cyclic(nodes)
            &&& resolves(nodes, tree@)
            &&& iterator::dependents_first(tree@)
        },
    }
}

/// Lists of nodes that can be resolved.
pub trait TryDag<D: DagNode>: Sized {
    /// The nodes in input order.
    spec fn dag_nodes(&self) -> Seq<D>;

    /// Resolves the dependencies of the nodes.
    ///
    /// Duplicate names are reported before unknown dependencies, and those before cycles.
    fn try_dag(self) -> (result: Result<DagTree<D>, DagError>)
        ensures
            resolution(self.dag_nodes(), result),
    ;
}

/// The names of the nodes with their positions; fails on the first repeated name.
fn index_names<D: DagNode>(nodes: &Vec<D>) -> (result: Result<NameIndex, DagError>)
    ensures
        match result {
            Ok(index) => {
                &&& distinct_names(nodes@)
                &&& forall|name: Seq<char>|
                    #![trigger names::index_contents(index).contains_key(name)]
                    names::index_contents(index).contains_key(name) <==> known(nodes@, name)
                &&& forall|name: Seq<char>|
                    #![trigger names::index_contents(index)[name]]
                    names::index_contents(index).contains_key(name) ==> is_named(nodes@, name, names::index_contents(index)[name] as int)
            },
            Err(error) => error is DuplicateName && exists|j: int| #[trigger]
                first_repeat(nodes@, j) && nodes@[j].node_id() == Some(error->DuplicateName_0@),
        },
{
    let mut index = NameIndex::new();
    let mut i: usize = 0;
    while i < nodes.len()
        invariant
            i <= nodes@.len(),
            forall|j: int| j < i ==> !repeats_name(nodes@, j),
            forall|name: Seq<char>|
                #![trigger names::index_contents(index).contains_key(name)]
                names::index_contents(index).contains_key(name) <==> exists|j: int| j < i && is_named(nodes@, name, j),
            forall|name: Seq<char>|
                #![trigger names::index_contents(index)[name]]
                names::index_contents(index).contains_key(name) ==> names::index_contents(index)[name] < i && is_named(
                    nodes@,
                    name,
                    names::index_contents(index)[name] as int,
                ),
        decreases nodes@.len() - i,
    {
        let ghost before = names::index_contents(index);
        let id = nodes[i].id();
        match id {
            Some(name) => {
                let previous = index.insert(name, i);
                if previous.is_some() {
                    assert(before.contains_key(name@));
                    let ghost j = choose|j: int| j < i && is_named(nodes@, name@, j);
                    assert(is_named(nodes@, nodes@[i as int].node_id()->0, j));
                    assert(repeats_name(nodes@, i as int));
                    assert(first_repeat(nodes@, i as int));
                    return Err(DagError::DuplicateName(name.to_owned()));
                }
                assert(is_named(nodes@, name@, i as int));
                assert(!repeats_name(nodes@, i as int));
                assert forall|other: Seq<char>|
                    #![trigger names::index_contents(index).contains_key(other)]
                    names::index_contents(index).contains_key(other) <==> exists|j: int|
                        j < i + 1 && is_named(nodes@, other, j) by {
                    if other != name@ {
                        assert(names::index_contents(index).contains_key(other) == before.contains_key(other));
                        if exists|j: int| j < i + 1 && is_named(nodes@, other, j) {
                            let j = choose|j: int| j < i + 1 && is_named(nodes@, other, j);
                            assert(j != i);
                            assert(j < i && is_named(nodes@, other, j));
                        }
                    }
                }
            },
            None => {
                assert forall|other: Seq<char>|
                    #![trigger names::index_contents(index).contains_key(other)]
                    names::index_contents(index).contains_key(other) <==> exists|j: int|
                        j < i + 1 && is_named(nodes@, other, j) by {
                    if exists|j: int| j < i + 1 && is_named(nodes@, other, j) {
                        let j = choose|j: int| j < i + 1 && is_named(nodes@, other, j);
                        assert(j != i);
                        assert(j < i && is_named(nodes@, other, j));
                    }
                }
            },
        }
        i = i + 1;
    }
    Ok(index)
}

/// The positions of the dependencies; fails on the first that names no node.
fn resolve_names<D: DagNode>(nodes: &Vec<D>, index: &NameIndex) -> (result: Result<
    Vec<Vec<usize>>,
    DagError,
>)
    requires
        distinct_names(nodes@),
        forall|name: Seq<char>|
            #![trigger names::index_contents(*index).contains_key(name)]
            names::index_contents(*index).contains_key(name) <==> known(nodes@, name),
        forall|name: Seq<char>|
            #![trigger names::index_contents(*index)[name]]
            names::index_contents(*index).contains_key(name) ==> is_named(nodes@, name, names::index_contents(*index)[name] as int),
    ensures
        match result {
            Ok(targets) => {
                &&& all_known(nodes@)
                &&& topo::as_graph(targets@) == wait_graph(nodes@)
                &&& topo::closed_graph(wait_graph(nodes@))
            },
            Err(error) => error is UnknownDependency && exists|j: int, k: int| #[trigger]
                first_unknown(nodes@, j, k) && error->dep@ == nodes@[j].node_depends()[k]
                    && text::optional_string(error->by) == nodes@[j].node_id(),
        },
{
    let ghost graph = wait_graph(nodes@);
    let mut targets: Vec<Vec<usize>> = Vec::new();
    let mut i: usize = 0;
    while i < nodes.len()
        invariant
            i <= nodes@.len(),
            graph == wait_graph(nodes@),
            distinct_names(nodes@),
            forall|name: Seq<char>|
                #![trigger names::index_contents(*index).contains_key(name)]
                names::index_contents(*index).contains_key(name) <==> known(nodes@, name),
            forall|name: Seq<char>|
                #![trigger names::index_contents(*index)[name]]
                names::index_contents(*index).contains_key(name) ==> is_named(nodes@, name, names::index_contents(*index)[name] as int),
            forall|j: int, k: int| j < i ==> !unknown_at(nodes@, j, k),
            targets@.len() == i,
            forall|j: int| 0 <= j < i ==> topo::as_ints((#[trigger] targets@[j])@) == graph[j],
        decreases nodes@.len() - i,
    {
        let deps = nodes[i].depends();
        let ghost names = nodes@[i as int].node_depends();
        let mut row: Vec<usize> = Vec::new();
        let mut k: usize = 0;
        while k < deps.len()
            invariant
                i < nodes@.len(),
                k <= deps@.len(),
                names == nodes@[i as int].node_depends(),
                text::slices(deps@) == names,
                graph == wait_graph(nodes@),
                distinct_names(nodes@),
                forall|name: Seq<char>|
                    #![trigger names::index_contents(*index).contains_key(name)]
                    names::index_contents(*index).contains_key(name) <==> known(nodes@, name),
                forall|name: Seq<char>|
                    #![trigger names::index_contents(*index)[name]]
                    names::index_contents(*index).contains_key(name) ==> is_named(nodes@, name, names::index_contents(*index)[name] as int),
                forall|j: int, l: int| j < i || (j == i && l < k) ==> !unknown_at(nodes@, j, l),
                row@.len() == k,
                forall|l: int| 0 <= l < k ==> #[trigger] row@[l] as int == graph[i as int][l],
            decreases deps@.len() - k,
        {
            let dep: &str = deps[k];
            assert(names[k as int] == dep@);
            match index.get(dep) {
                Some(target) => {
                    proof {
                        assert(is_named(nodes@, dep@, target as int));
                        lemma_position(nodes@, dep@, target as int);
                        assert(graph[i as int][k as int] == target as int);
                        assert(!unknown_at(nodes@, i as int, k as int));
                    }
                    row.push(target);
                },
                None => {
                    assert(unknown_at(nodes@, i as int, k as int));
                    assert(first_unknown(nodes@, i as int, k as int));
                    let by = match nodes[i].id() {
                        Some(name) => Some(name.to_owned()),
                        None => None,
                    };
                    return Err(DagError::UnknownDependency { dep: dep.to_owned(), by });
                },
            }
            k = k + 1;
        }
        assert(topo::as_ints(row@) =~= graph[i as int]);
        targets.push(row);
        i = i + 1;
    }
    proof {
        assert(all_known(nodes@));
        assert(topo::as_graph(targets@) =~= graph);
        lemma_wait_graph_closed(nodes@);
    }
    Ok(targets)
}

proof fn lemma_position<D: DagNode>(nodes: Seq<D>, name: Seq<char>, i: int)
    requires
        distinct_names(nodes),
        is_named(nodes, name, i),
    ensures
        position(nodes, name) == i,
{
    let p = position(nodes, name);
    assert(is_named(nodes, name, p));
    if p < i {
        assert(is_named(nodes, nodes[i].node_id()->0, p));
        assert(repeats_name(nodes, i));
    }
    if i < p {
        assert(is_named(nodes, nodes[p].node_id()->0, i));
        assert(repeats_name(nodes, p));
    }
}

proof fn lemma_wait_graph_closed<D: DagNode>(nodes: Seq<D>)
    requires
        all_known(nodes),
    ensures
        topo::closed_graph(wait_graph(nodes)),
{
    let graph = wait_graph(nodes);
    assert forall|j: int, k: int| 0 <= j < graph.len() && 0 <= k < graph[j].len() implies 0
        <= #[trigger] graph[j][k] < graph.len() by {
        assert(!unknown_at(nodes, j, k));
        let name = nodes[j].node_depends()[k];
        assert(known(nodes, name));
        assert(is_named(nodes, name, position(nodes, name)));
    }
}

/// The names of the nodes that still wait, in order.
fn waiting_names<D: DagNode>(nodes: &Vec<D>, waiting: &Vec<usize>) -> (names: Vec<String>)
    requires
        waiting@.len() == nodes@.len(),
        forall|j: int|
            #![trigger waiting@[j]]
            0 <= j < nodes@.len() ==> (waiting@[j] > 0 <==> topo::stuck(wait_graph(nodes@), j)),
    ensures
        text::strings(names@) == stuck_names(nodes@, nodes@.len()),
{
    let mut names: Vec<String> = Vec::new();
    let mut i: usize = 0;
    while i < nodes.len()
        invariant
            i <= nodes@.len(),
            waiting@.len() == nodes@.len(),
            forall|j: int|
                #![trigger waiting@[j]]
                0 <= j < nodes@.len() ==> (waiting@[j] > 0 <==> topo::stuck(wait_graph(nodes@), j)),
            text::strings(names@) == stuck_names(nodes@, i as nat),
        decreases nodes@.len() - i,
    {
        if waiting[i] > 0 {
            if let Some(name) = nodes[i].id() {
                let ghost before = names@;
                names.push(name.to_owned());
                assert(text::strings(names@) =~= text::strings(before).push(name@));
            }
        }
        i = i + 1;
    }
    names
}

/// The position of each node in `order`.
fn positions_in(order: &Vec<usize>) -> (positions: Vec<usize>)
    requires
        topo::as_ints(order@).no_duplicates(),
        forall|p: int| 0 <= p < order@.len() ==> #[trigger] order@[p] < order@.len(),
    ensures
        positions@.len() == order@.len(),
        forall|p: int|
            #![trigger order@[p]]
            0 <= p < order@.len() ==> positions@[order@[p] as int] == p,
{
    let n: usize = order.len();
    let mut positions: Vec<usize> = Vec::new();
    let mut i: usize = 0;
    while i < n
        invariant
            i <= n,
            positions@.len() == i,
        decreases n - i,
    {
        positions.push(0);
        i = i + 1;
    }
    let mut p: usize = 0;
    while p < n
        invariant
            p <= n,
            n == order@.len(),
            positions@.len() == n,
            topo::as_ints(order@).no_duplicates(),
            forall|q: int| 0 <= q < n ==> #[trigger] order@[q] < n,
            forall|q: int| #![trigger order@[q]] 0 <= q < p ==> positions@[order@[q] as int] == q,
        decreases n - p,
    {
        let node: usize = order[p];
        proof {
            assert forall|q: int| 0 <= q < p implies #[trigger] order@[q] != node by {
                assert(topo::as_ints(order@)[q] != topo::as_ints(order@)[p as int]);
            }
        }
        positions.set(node, p);
        p = p + 1;
    }
    positions
}

/// The resolved positions of nodes.
fn placed_positions(nodes: &Vec<usize>, positions: &Vec<usize>) -> (placed: Vec<usize>)
    requires
        forall|p: int| 0 <= p < nodes@.len() ==> #[trigger] nodes@[p] < positions@.len(),
    ensures
        topo::as_ints(placed@) == topo::as_ints(nodes@).map_values(|e: int| positions@[e] as int),
{
    let mut placed: Vec<usize> = Vec::new();
    let mut i: usize = 0;
    while i < nodes.len()
        invariant
            i <= nodes@.len(),
            forall|p: int| 0 <= p < nodes@.len() ==> #[trigger] nodes@[p] < positions@.len(),
            placed@.len() == i,
            forall|p: int| 0 <= p < i ==> #[trigger] placed@[p] == positions@[nodes@[p] as int],
        decreases nodes@.len() - i,
    {
        placed.push(positions[nodes[i]]);
        i = i + 1;
    }
    assert(topo::as_ints(placed@) =~= topo::as_ints(nodes@).map_values(
        |e: int| positions@[e] as int,
    ));
    placed
}

impl<D: DagNode> TryDag<D> for Vec<D> {
    open spec fn dag_nodes(&self) -> Seq<D> {
        self@
    }

    fn try_dag(self) -> (result: Result<DagTree<D>, DagError>) {
        let nodes = self;
        let ghost graph = wait_graph(nodes@);
        let n: usize = nodes.len();
        let index = match index_names(&nodes) {
            Ok(index) => index,
            Err(error) => {
                return Err(error);
            },
        };
        let targets = match resolve_names(&nodes, &index) {
            Ok(targets) => targets,
            Err(error) => {
                return Err(error);
            },
        };
        assert(topo::as_graph(targets@).len() == targets@.len());
        let refs = topo::collect_references(&targets);
        let settled = topo::settle(&targets, &refs);
        let ghost settling = topo::as_ints(settled.order@);
        if settled.order.len() != n {
            let ghost j = choose|j: int| 0 <= j < graph.len() && #[trigger] topo::stuck(graph, j);
            assert(cyclic(nodes@));
            return Err(DagError::CycleDetected(waiting_names(&nodes, &settled.waiting)));
        }
        assert(!cyclic(nodes@));
        // Dependents come before what they depend on.
        let mut order: Vec<usize> = Vec::new();
        let mut left: usize = n;
        while left > 0
            invariant
                left <= n,
                n == settled.order@.len(),
                order@.len() == n - left,
                forall|p: int|
                    0 <= p < order@.len() ==> #[trigger] order@[p] == settled.order@[n - 1 - p],
            decreases left,
        {
            left = left - 1;
            order.push(settled.order[left]);
        }
        let ghost iorder = stored_order(nodes@);
        proof {
            assert(topo::as_ints(order@) =~= iorder);
            assert forall|p: int, q: int| 0 <= p < q < iorder.len() implies iorder[p] != iorder[q] by {
                assert(iorder[p] == settling[n - 1 - p]);
                assert(iorder[q] == settling[n - 1 - q]);
            }
            assert forall|p: int| 0 <= p < n implies #[trigger] order@[p] < n by {
                assert(settling[n - 1 - p] < n);
            }
        }
        let positions = positions_in(&order);
        proof {
            assert forall|e: int| 0 <= e < n implies #[trigger] positions@[e] as int == iorder.index_of(e) by {
                assert(!topo::stuck(graph, e));
                assert(settling.contains(e));
                let q = choose|q: int| 0 <= q < settling.len() && settling[q] == e;
                assert(iorder[n - 1 - q] == e);
                assert(order@[n - 1 - q] == e);
                assert(iorder.contains(e));
                let p = iorder.index_of(e);
                assert(iorder[p] == e);
            }
        }
        let mut taken: Vec<Option<D>> = Vec::new();
        let ghost input = nodes@;
        for node in it: nodes
            invariant
                it.seq() == input,
                taken@.len() == it.index(),
                forall|j: int| 0 <= j < taken@.len() ==> #[trigger] taken@[j] == Some(input[j]),
        {
            taken.push(Some(node));
        }
        let mut inner: Vec<DagItem<D>> = Vec::new();
        let ghost depth = topo::as_ints(settled.depth@);
        let mut p: usize = 0;
        while p < n
            invariant
                p <= n,
                n == input.len(),
                n == order@.len(),
                taken@.len() == n,
                positions@.len() == n,
                settled.depth@.len() == n,
                depth == topo::as_ints(settled.depth@),
                graph == wait_graph(input),
                topo::as_graph(refs@) == topo::references(graph),
                iorder == topo::as_ints(order@),
                iorder.no_duplicates(),
                forall|q: int| 0 <= q < n ==> #[trigger] order@[q] < n,
                forall|e: int| 0 <= e < n ==> #[trigger] positions@[e] as int == iorder.index_of(e),
                forall|q: int| #![trigger order@[q]] p <= q < n ==> taken@[order@[q] as int] == Some(
                    input[order@[q] as int],
                ),
                inner@.len() == p,
                forall|q: int|
                    0 <= q < p ==> {
                        let item = crate::dag::tree::placed(#[trigger] inner@[q]);
                        &&& item.node == input[iorder[q]]
                        &&& item.index == iorder[q]
                        &&& item.depth == depth[iorder[q]]
                        &&& item.dependents == topo::references(graph)[iorder[q]].map_values(
                            |e: int| iorder.index_of(e),
                        )
                    },
            decreases n - p,
        {
            let i: usize = order[p];
            assert(taken@[order@[p as int] as int] == Some(input[order@[p as int] as int]));
            assert(iorder[p as int] == i as int);
            let node = taken[i].take().unwrap();
            proof {
                assert forall|q: int| #![trigger order@[q]] p + 1 <= q < n implies taken@[order@[q] as int] == Some(
                    input[order@[q] as int],
                ) by {
                    assert(iorder[q] != iorder[p as int]);
                }
                topo::lemma_references(graph, i as int, i as int);
                assert(topo::as_graph(refs@).len() == refs@.len());
                assert(topo::as_graph(refs@)[i as int] == topo::as_ints(refs@[i as int]@));
                assert forall|l: int| 0 <= l < refs@[i as int]@.len() implies #[trigger] refs@[i as int]@[l]
                    < positions@.len() by {
                    assert(topo::references(graph)[i as int][l] == refs@[i as int]@[l] as int);
                }
            }
            let dependents_indexes = placed_positions(&refs[i], &positions);
            proof {
                let row = topo::references(graph)[i as int];
                assert(topo::as_ints(dependents_indexes@) =~= row.map_values(
                    |e: int| iorder.index_of(e),
                )) by {
                    assert forall|l: int| 0 <= l < row.len() implies positions@[#[trigger] row[l]] as int
                        == iorder.index_of(row[l]) by {
                        assert(0 <= row[l] < n);
                    }
                }
            }
            inner.push(
                DagItem { inner: node, original_index: i, depth: settled.depth[i], dependents_indexes },
            );
            p = p + 1;
        }
        let tree = DagTree { inner };
        proof {
            crate::dag::tree::lemma_tree_view(tree);
            assert forall|j: int| 0 <= j < n implies #[trigger] topo::is_depth(graph, depth, j) by {
                assert(!topo::stuck(graph, j));
                assert(settling.contains(j));
                let q = choose|q: int| 0 <= q < settling.len() && settling[q] == j;
                assert(topo::is_depth(graph, depth, settling[q]));
            }
            assert(depth.len() == n);
            assert(resolves(input, tree@));
            law_dependents_first(input, tree@);
        }
        Ok(tree)
    }
}

pub(crate) proof fn lemma_stored_order<D: DagNode>(nodes: Seq<D>, placed: Seq<Placed<D>>)
    requires
        all_known(nodes),
        resolves(nodes, placed),
    ensures
        topo::closed_graph(wait_graph(nodes)),
        stored_order(nodes).no_duplicates(),
        forall|p: int|
            0 <= p < nodes.len() ==> 0 <= #[trigger] stored_order(nodes)[p] < nodes.len(),
        forall|j: int| 0 <= j < nodes.len() ==> #[trigger] stored_order(nodes).contains(j),
        forall|p: int, k: int|
            0 <= p < nodes.len() && 0 <= k < wait_graph(nodes)[stored_order(nodes)[p]].len() ==> p
                < stored_order(nodes).index_of(
                #[trigger] wait_graph(nodes)[stored_order(nodes)[p]][k],
            ),
{
    let graph = wait_graph(nodes);
    let n = nodes.len();
    lemma_wait_graph_closed(nodes);
    topo::lemma_settling(graph);
    let settling = topo::settling(graph);
    let order = stored_order(nodes);
    assert forall|p: int, q: int| 0 <= p < q < n implies order[p] != order[q] by {
        assert(order[p] == settling[n - 1 - p]);
        assert(order[q] == settling[n - 1 - q]);
    }
    assert forall|p: int| 0 <= p < n implies 0 <= #[trigger] order[p] < n by {
        assert(order[p] == settling[n - 1 - p]);
    }
    assert forall|j: int| 0 <= j < n implies #[trigger] order.contains(j) by {
        assert(!topo::stuck(graph, j));
        let q = choose|q: int| 0 <= q < settling.len() && settling[q] == j;
        assert(order[n - 1 - q] == j);
    }
    assert forall|p: int, k: int| 0 <= p < n && 0 <= k < graph[order[p]].len() implies p
        < order.index_of(#[trigger] graph[order[p]][k]) by {
        let q = n - 1 - p;
        assert(settling[q] == order[p]);
        let t = graph[settling[q]][k];
        assert(settling.take(q).contains(t));
        let r = choose|r: int| 0 <= r < q && settling.take(q)[r] == t;
        assert(settling[r] == t);
        assert(order[n - 1 - r] == t);
        assert(order.contains(t));
        let found = order.index_of(t);
        assert(order[found] == t);
    }
}

/// In a resolution every dependent stands before what it depends on, so that taking nodes from
/// the end yields dependencies first.
pub proof fn law_dependents_first<D: DagNode>(nodes: Seq<D>, placed: Seq<Placed<D>>)
    requires
        all_known(nodes),
        resolves(nodes, placed),
    ensures
        iterator::dependents_first(placed),
{
    lemma_stored_order(nodes, placed);
    let graph = wait_graph(nodes);
    let order = stored_order(nodes);
    assert forall|p: int, l: int|
        0 <= p < placed.len() && 0 <= l < placed[p].dependents.len() implies 0
        <= #[trigger] placed[p].dependents[l] < p by {
        let t = order[p];
        let row = topo::references(graph)[t];
        topo::lemma_references(graph, t, t);
        topo::lemma_references(graph, t, row[l]);
        assert(row.contains(row[l]));
        let k = choose|k: int| 0 <= k < graph[row[l]].len() && graph[row[l]][k] == t;
        assert(order.contains(row[l]));
        let q = order.index_of(row[l]);
        assert(order[q] == row[l]);
        assert(q < order.index_of(graph[order[q]][k]));
        let found = order.index_of(t);
        assert(order.contains(t));
        assert(order[found] == t);
        assert(found == p);
    }
}

/// The node that dependency `k` of a resolved node names comes out of iteration before it:
/// it stands further towards the end.
pub proof fn law_dependencies_come_first<D: DagNode>(
    nodes: Seq<D>,
    placed: Seq<Placed<D>>,
    p: int,
    k: int,
) -> (q: int)
    requires
        all_known(nodes),
        resolves(nodes, placed),
        0 <= p < placed.len(),
        0 <= k < placed[p].node.node_depends().len(),
    ensures
        p < q < placed.len(),
        placed[q].node.node_id() == Some(placed[p].node.node_depends()[k]),
        placed[q].depth < placed[p].depth,
{
    lemma_stored_order(nodes, placed);
    let graph = wait_graph(nodes);
    let order = stored_order(nodes);
    let j = order[p];
    let t = graph[j][k];
    assert(0 <= t < nodes.len());
    assert(order.contains(t));
    let q = order.index_of(t);
    assert(order[q] == t);
    assert(p < order.index_of(graph[order[p]][k]));
    let name = nodes[j].node_depends()[k];
    assert(!unknown_at(nodes, j, k));
    assert(is_named(nodes, name, position(nodes, name)));
    assert(placed[q].node == nodes[t]);
    let depth = choose|depth: Seq<int>|
        #![trigger depth.len()]
        {
            &&& depth.len() == nodes.len()
            &&& forall|j: int| 0 <= j < nodes.len() ==> #[trigger] topo::is_depth(graph, depth, j)
            &&& forall|p: int|
                0 <= p < placed.len() ==> (#[trigger] placed[p]).depth == depth[order[p]]
        };
    assert(topo::is_depth(graph, depth, j));
    assert(placed[p].depth == depth[j] && placed[q].depth == depth[t]);
    q
}

/// Every node is resolved, and to one position only.
pub proof fn law_every_node_once<D: DagNode>(nodes: Seq<D>, placed: Seq<Placed<D>>, j: int)
    requires
        all_known(nodes),
        resolves(nodes, placed),
        0 <= j < nodes.len(),
    ensures
        exists|p: int|
            0 <= p < placed.len() && (#[trigger] placed[p]).index == j && placed[p].node == nodes[j],
        forall|p: int, q: int|
            0 <= p < q < placed.len() ==> (#[trigger] placed[p]).index != (#[trigger] placed[q]).index,
{
    lemma_stored_order(nodes, placed);
    let order = stored_order(nodes);
    assert(order.contains(j));
    let p = order.index_of(j);
    assert(order[p] == j);
    assert(placed[p].index == j && placed[p].node == nodes[j]);
    assert forall|p: int, q: int| 0 <= p < q < placed.len() implies (#[trigger] placed[p]).index
        != (#[trigger] placed[q]).index by {
        assert(order[p] != order[q]);
    }
}

/// Nothing depends on a node without a name.
pub proof fn law_unnamed_have_no_dependents<D: DagNode>(nodes: Seq<D>, placed: Seq<Placed<D>>, p: int)
    requires
        all_known(nodes),
        resolves(nodes, placed),
        0 <= p < placed.len(),
        placed[p].node.node_id() is None,
    ensures
        placed[p].dependents.len() == 0,
{
    lemma_stored_order(nodes, placed);
    let graph = wait_graph(nodes);
    let t = stored_order(nodes)[p];
    let row = topo::references(graph)[t];
    if row.len() > 0 {
        topo::lemma_references(graph, t, t);
        topo::lemma_references(graph, t, row[0]);
        assert(row.contains(row[0]));
        let k = choose|k: int| 0 <= k < graph[row[0]].len() && graph[row[0]][k] == t;
        let name = nodes[row[0]].node_depends()[k];
        assert(!unknown_at(nodes, row[0], k));
        assert(is_named(nodes, name, position(nodes, name)));
    }
}

} // verus!
