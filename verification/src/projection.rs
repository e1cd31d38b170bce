//! Projections of a tree onto a tree for display.

use crate::cache::NodeCache;
use crate::ndtree::NdTree;
use crate::ndvec::BigVec;
use vstd::prelude::*;

verus! {

/// The parameters that tell one kind of projection from another.
#[derive(Clone, Copy, Debug, PartialEq, Eq, Structural)]
pub enum ProjectionParams {
    /// The projection that changes nothing.
    Simple,
}

/// A basic no-op projection that simply returns the same automaton with the
/// same number of dimensions.
#[derive(Clone, Copy, Debug)]
pub struct SimpleProjection;

impl SimpleProjection {
    /// The tree itself: the same root at the same place.
    pub fn project<const D: usize>(&self, tree: &NdTree<D>) -> (r: NdTree<D>)
        requires
            tree.offset.wf(),
        ensures
            r.root == tree.root,
            r.offset@ == tree.offset@,
            r.offset.wf(),
            forall|cache: &NodeCache<D>, p: Seq<int>| #[trigger]
                r.cell(cache, p) == tree.cell(cache, p),
    {
        NdTree { root: tree.root, offset: tree.offset.copy() }
    }

    /// The position in the tree of a position in its projection: the same
    /// position.
    pub fn unproject_pos<const D: usize>(&self, pos: &BigVec<D>) -> (r: BigVec<D>)
        requires
            pos.wf(),
        ensures
            r.wf(),
            r@ == pos@,
    {
        pos.copy()
    }

    /// The parameters of this projection.
    pub fn get_params(&self) -> (r: ProjectionParams)
        ensures
            r == ProjectionParams::Simple,
    {
        ProjectionParams::Simple
    }
}

} // verus!
