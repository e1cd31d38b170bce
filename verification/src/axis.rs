//! The axes of the grid.

use vstd::prelude::*;

verus! {

/// One of the six axes that a grid can have.
#[derive(Clone, Copy, Debug, PartialEq, Eq, Structural)]
pub enum Axis {
    /// The first axis.
    X,
    /// The second axis.
    Y,
    /// The third axis.
    Z,
    /// The fourth axis.
    W,
    /// The fifth axis.
    U,
    /// The sixth axis.
    V,
}

impl Axis {
    /// The place of the axis among the coordinates of a point.
    pub open spec fn index_of(self) -> nat {
        match self {
            Axis::X => 0,
            Axis::Y => 1,
            Axis::Z => 2,
            Axis::W => 3,
            Axis::U => 4,
            Axis::V => 5,
        }
    }

    /// The place of the axis among the coordinates of a point.
    pub fn index(self) -> (i: usize)
        ensures
            i == self.index_of(),
            i < 6,
    {
        match self {
            Axis::X => 0,
            Axis::Y => 1,
            Axis::Z => 2,
            Axis::W => 3,
            Axis::U => 4,
            Axis::V => 5,
        }
    }

    /// The axis at place `index`, if there is one.
    pub fn from_index(index: usize) -> (r: Option<Axis>)
        ensures
            r is Some <==> index < 6,
            r matches Some(axis) ==> axis.index_of() == index,
    {
        if index == 0 {
            Some(Axis::X)
        } else if index == 1 {
            Some(Axis::Y)
        } else if index == 2 {
            Some(Axis::Z)
        } else if index == 3 {
            Some(Axis::W)
        } else if index == 4 {
            Some(Axis::U)
        } else if index == 5 {
            Some(Axis::V)
        } else {
            None
        }
    }

    /// Whether a grid of `ndim` dimensions has this axis.
    pub fn in_dimension(self, ndim: usize) -> (r: bool)
        ensures
            r == (self.index_of() < ndim),
    {
        self.index() < ndim
    }
}

/// Two axes at the same place are the same axis.
pub proof fn lemma_axis_by_index(a: Axis, b: Axis)
    requires
        a.index_of() == b.index_of(),
    ensures
        a == b,
{
}

} // verus!
