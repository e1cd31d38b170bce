//! Transition rules.
//!
//! A rule has a radius `r` and a transition function that maps the
//! neighbourhood of a cell, the cube of side `2r + 1` around it, to the next
//! state of the cell. The neighbourhood is handed over as a flat sequence in
//! scan order: axis 0 varies fastest, and the cell itself is in the middle.

use crate::cache::Cell;
use vstd::arithmetic::power::pow;
use vstd::prelude::*;

verus! {

/// The number of cells in the neighbourhood of a rule of radius `radius` in
/// `d` dimensions.
pub open spec fn neighborhood_len(radius: nat, d: nat) -> int {
    pow(2 * radius as int + 1, d)
}

/// A rule of a cellular automaton in `D` dimensions.
pub trait Rule<const D: usize> {
    /// The greatest distance, along any axis, from which a cell is read.
    spec fn radius_spec(&self) -> nat;

    /// The next state of a cell with the given neighbourhood.
    spec fn transition_spec(&self, neighborhood: Seq<Cell>) -> Cell;

    /// The radius of the rule.
    fn radius(&self) -> (r: usize)
        ensures
            r == self.radius_spec(),
    ;

    /// The next state of a cell with the given neighbourhood.
    fn transition(&self, neighborhood: &Vec<Cell>) -> (c: Cell)
        requires
            neighborhood@.len() == neighborhood_len(self.radius_spec(), D as nat),
        ensures
            c == self.transition_spec(neighborhood@),
    ;
}

/// The rule under which nothing ever changes.
#[derive(Clone, Copy, Debug)]
pub struct DummyRule;

impl<const D: usize> Rule<D> for DummyRule {
    open spec fn radius_spec(&self) -> nat {
        0
    }

    open spec fn transition_spec(&self, neighborhood: Seq<Cell>) -> Cell {
        if neighborhood.len() > 0 {
            neighborhood[0]
        } else {
            0
        }
    }

    fn radius(&self) -> (r: usize) {
        0
    }

    fn transition(&self, neighborhood: &Vec<Cell>) -> (c: Cell) {
        if neighborhood.len() > 0 {
            neighborhood[0]
        } else {
            0
        }
    }
}

/// The number of cells among the first `n` of `cells`, the one at `skip`
/// left out, that are not zero.
pub open spec fn live_count(cells: Seq<Cell>, n: int, skip: int) -> int
    decreases n,
{
    if n <= 0 {
        0
    } else {
        live_count(cells, n - 1, skip) + (if n - 1 != skip && cells[n - 1] != 0 {
            1int
        } else {
            0int
        })
    }
}

/// Conway's Game of Life: in two dimensions, with radius one, a dead cell
/// with three live neighbours is born, and a live cell with two or three
/// live neighbours survives.
#[derive(Clone, Copy, Debug)]
pub struct Life;

impl Rule<2> for Life {
    open spec fn radius_spec(&self) -> nat {
        1
    }

    open spec fn transition_spec(&self, neighborhood: Seq<Cell>) -> Cell {
        let around = live_count(neighborhood, 9, 4);
        if around == 3 || (around == 2 && neighborhood[4] != 0) {
            1
        } else {
            0
        }
    }

    fn radius(&self) -> (r: usize) {
        1
    }

    fn transition(&self, neighborhood: &Vec<Cell>) -> (c: Cell) {
        proof {
            assert(pow(3, 2) == 9) by {
                reveal_with_fuel(pow, 3);
            }
        }
        let mut around: usize = 0;
        let mut k: usize = 0;
        while k < 9
            invariant
                k <= 9,
                neighborhood@.len() == 9,
                around == live_count(neighborhood@, k as int, 4),
                around <= k,
            decreases 9 - k,
        {
            if k != 4 && neighborhood[k] != 0 {
                around += 1;
            }
            k += 1;
        }
        if around == 3 || (around == 2 && neighborhood[4] != 0) {
            1
        } else {
            0
        }
    }
}

/// The rule under which a cell is alive in the next generation exactly when
/// some cell of its neighbourhood is alive now: a pattern grows by the
/// radius in every direction with every generation.
#[derive(Clone, Copy, Debug)]
pub struct Flood {
    /// The radius of the rule.
    pub radius: usize,
}

/// Some cell of `cells` is not zero.
pub open spec fn any_live(cells: Seq<Cell>) -> bool {
    exists|i: int| 0 <= i < cells.len() && #[trigger] cells[i] != 0
}

impl<const D: usize> Rule<D> for Flood {
    open spec fn radius_spec(&self) -> nat {
        self.radius as nat
    }

    open spec fn transition_spec(&self, neighborhood: Seq<Cell>) -> Cell {
        if any_live(neighborhood) {
            1
        } else {
            0
        }
    }

    fn radius(&self) -> (r: usize) {
        self.radius
    }

    fn transition(&self, neighborhood: &Vec<Cell>) -> (c: Cell) {
        let mut k: usize = 0;
        while k < neighborhood.len()
            invariant
                k <= neighborhood@.len(),
                forall|i: int| 0 <= i < k ==> neighborhood@[i] == 0,
            decreases neighborhood@.len() - k,
        {
            if neighborhood[k] != 0 {
                return 1;
            }
            k += 1;
        }
        0
    }
}

/// The rule of radius zero under which an empty cell comes alive and any
/// other cell dies: a rule that fires on empty space.
#[derive(Clone, Copy, Debug)]
pub struct Invert;

impl<const D: usize> Rule<D> for Invert {
    open spec fn radius_spec(&self) -> nat {
        0
    }

    open spec fn transition_spec(&self, neighborhood: Seq<Cell>) -> Cell {
        if neighborhood.len() > 0 && neighborhood[0] != 0 {
            0
        } else {
            1
        }
    }

    fn radius(&self) -> (r: usize) {
        0
    }

    fn transition(&self, neighborhood: &Vec<Cell>) -> (c: Cell) {
        if neighborhood.len() > 0 && neighborhood[0] != 0 {
            0
        } else {
            1
        }
    }
}

} // verus!
