//! The resolved form of a dependency graph.

use crate::dag::{DagNode, Placed};
use crate::dag::topo;
use vstd::prelude::*;

verus! {

/// A resolved dependency graph.
///
/// Its view lists the nodes with dependents before what they depend on; iteration takes nodes
/// from the end.
pub struct DagTree<D: DagNode> {
    pub(crate) inner: Vec<DagItem<D>>,
}

pub(crate) struct DagItem<D: DagNode> {
    pub inner: D,
    /// Position in the input.
    pub original_index: usize,
    /// Longest chain of dependencies.
    pub depth: usize,
    /// Resolved positions of the nodes that depend on this one.
    pub dependents_indexes: Vec<usize>,
}

pub(crate) open spec fn placed<D: DagNode>(item: DagItem<D>) -> Placed<D> {
    Placed {
        node: item.inner,
        index: item.original_index as int,
        depth: item.depth as int,
        dependents: topo::as_ints(item.dependents_indexes@),
    }
}

pub(crate) open spec fn all_placed<D: DagNode>(items: Seq<DagItem<D>>) -> Seq<Placed<D>> {
    items.map_values(|item: DagItem<D>| placed(item))
}

impl<D: DagNode> View for DagTree<D> {
    type V = Seq<Placed<D>>;

    closed spec fn view(&self) -> Seq<Placed<D>> {
        all_placed(self.inner@)
    }
}

pub(crate) proof fn lemma_tree_view<D: DagNode>(tree: DagTree<D>)
    ensures
        tree@ == all_placed(tree.inner@),
        tree@.len() == tree.inner@.len(),
        forall|p: int| 0 <= p < tree.inner@.len() ==> #[trigger] tree@[p] == placed(tree.inner@[p]),
{
}

} // verus!
