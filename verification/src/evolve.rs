//! What it means to advance a grid by a number of generations.
//!
//! A grid gives every point of the infinite lattice a cell state. One
//! generation applies the transition function of a rule to the
//! neighbourhood of every cell at once.

use crate::cache::Cell;
use crate::index::{lemma_unflat_in_cube, shifted, unflat, vec_add};
use crate::rule::{neighborhood_len, Rule};
use vstd::prelude::*;

verus! {

/// A state for every point of the lattice.
pub type Grid = spec_fn(Seq<int>) -> Cell;

/// The grid whose cells are all zero.
pub open spec fn zero_grid() -> Grid {
    |p: Seq<int>| 0u8
}

/// The offset of cell `i` of a neighbourhood of radius `radius` from the
/// cell in the middle.
pub open spec fn offset_of(i: int, radius: nat, d: nat) -> Seq<int> {
    shifted(unflat(i, 2 * radius as int + 1, d), -(radius as int))
}

/// The neighbourhood of the cell at `p`, in scan order.
pub open spec fn neighborhood(g: Grid, p: Seq<int>, radius: nat) -> Seq<Cell> {
    Seq::new(
        neighborhood_len(radius, p.len()) as nat,
        |i: int| g(vec_add(p, offset_of(i, radius, p.len()))),
    )
}

/// The grid one generation after `g`.
pub open spec fn step_grid<const D: usize, R: Rule<D>>(rule: &R, g: Grid) -> Grid {
    |p: Seq<int>| rule.transition_spec(neighborhood(g, p, rule.radius_spec()))
}

/// The grid `n` generations after `g`.
pub open spec fn evolve<const D: usize, R: Rule<D>>(rule: &R, g: Grid, n: nat) -> Grid
    decreases n,
{
    if n == 0 {
        g
    } else {
        step_grid(rule, evolve(rule, g, (n - 1) as nat))
    }
}

/// `q` lies no further than `dist` from `p` along every axis.
pub open spec fn within(q: Seq<int>, p: Seq<int>, dist: int) -> bool {
    &&& q.len() == p.len()
    &&& forall|k: int| 0 <= k < p.len() ==> -dist <= #[trigger] q[k] - p[k] <= dist
}

/// How far a cell can be from a cell that it affects within `n`
/// generations: `n` times the radius of the rule.
pub open spec fn reach<const D: usize, R: Rule<D>>(rule: &R, n: nat) -> int {
    rule.radius_spec() as int * n as int
}

/// The rule gives a cell whose neighbourhood is all zero a state that is
/// not zero.
pub open spec fn is_b0<const D: usize, R: Rule<D>>(rule: &R) -> bool {
    rule.transition_spec(
        Seq::new(neighborhood_len(rule.radius_spec(), D as nat) as nat, |i: int| 0u8),
    ) != 0
}

/// The state of a cell after `n` generations depends only on the cells no
/// further than `n` times the radius from it, and it does not matter where
/// in the lattice the pattern lies: where `g1` around `p` is `g2` around
/// `p + v`, the cell at `p` of `g1` after `n` generations is the cell at
/// `p + v` of `g2` after `n` generations.
pub proof fn lemma_evolve_local<const D: usize, R: Rule<D>>(
    rule: &R,
    g1: Grid,
    g2: Grid,
    v: Seq<int>,
    n: nat,
    p: Seq<int>,
)
    requires
        p.len() == v.len(),
        forall|q: Seq<int>| #[trigger]
            within(q, p, reach(rule, n)) ==> g1(q) == g2(vec_add(q, v)),
    ensures
        evolve(rule, g1, n)(p) == evolve(rule, g2, n)(vec_add(p, v)),
    decreases n,
{
    let radius = rule.radius_spec();
    let r = radius as int;
    if n == 0 {
        assert(within(p, p, reach(rule, n)));
    } else {
        let m = (n - 1) as nat;
        let e1 = evolve(rule, g1, m);
        let e2 = evolve(rule, g2, m);
        let pv = vec_add(p, v);
        let n1 = neighborhood(e1, p, radius);
        let n2 = neighborhood(e2, pv, radius);
        assert(r * n == r * m + r) by (nonlinear_arith)
            requires
                n == m + 1,
        ;
        assert(r * m >= 0) by (nonlinear_arith)
            requires
                r >= 0,
                m >= 0,
        ;
        assert forall|i: int| 0 <= i < n1.len() implies n1[i] == n2[i] by {
            let d = offset_of(i, radius, p.len());
            lemma_unflat_in_cube(i, 2 * r + 1, p.len());
            let c = vec_add(p, d);
            assert forall|q: Seq<int>| #[trigger] within(q, c, reach(rule, m)) implies g1(q) == g2(
                vec_add(q, v),
            ) by {
                assert forall|k: int| 0 <= k < p.len() implies -(r * n) <= #[trigger] q[k] - p[k]
                    <= r * n by {
                    assert(-(r * m) <= q[k] - c[k] <= r * m);
                    assert(c[k] == p[k] + d[k]);
                    assert(d[k] == unflat(i, 2 * r + 1, p.len())[k] - r);
                }
                assert(within(q, p, reach(rule, n)));
            }
            lemma_evolve_local(rule, g1, g2, v, m, c);
            assert(vec_add(c, v) =~= vec_add(pv, d));
        }
        assert(n1 =~= n2);
    }
}

/// Advancing by `a` generations and then by `b` is advancing by `a + b`.
pub proof fn lemma_evolve_add<const D: usize, R: Rule<D>>(rule: &R, g: Grid, a: nat, b: nat)
    ensures
        evolve(rule, evolve(rule, g, a), b) == evolve(rule, g, a + b),
    decreases b,
{
    if b > 0 {
        lemma_evolve_add(rule, g, a, (b - 1) as nat);
    }
}

/// Under a rule that leaves an empty neighbourhood empty, the empty grid
/// stays empty.
pub proof fn lemma_evolve_zero<const D: usize, R: Rule<D>>(rule: &R, n: nat, p: Seq<int>)
    requires
        !is_b0(rule),
        p.len() == D,
    ensures
        evolve(rule, zero_grid(), n)(p) == 0,
    decreases n,
{
    if n > 0 {
        let radius = rule.radius_spec();
        let e = evolve(rule, zero_grid(), (n - 1) as nat);
        let nb = neighborhood(e, p, radius);
        let zeros = Seq::new(neighborhood_len(radius, D as nat) as nat, |i: int| 0u8);
        assert forall|i: int| 0 <= i < nb.len() implies nb[i] == 0 by {
            lemma_unflat_in_cube(i, 2 * radius as int + 1, p.len());
            lemma_evolve_zero(rule, (n - 1) as nat, vec_add(p, offset_of(i, radius, p.len())));
        }
        assert(nb =~= zeros);
    }
}

/// Under a rule that leaves an empty neighbourhood empty, a cell whose
/// surroundings up to `n` times the radius are empty is empty after `n`
/// generations.
pub proof fn lemma_evolve_far<const D: usize, R: Rule<D>>(rule: &R, g: Grid, n: nat, p: Seq<int>)
    requires
        !is_b0(rule),
        p.len() == D,
        forall|q: Seq<int>| #[trigger] within(q, p, reach(rule, n)) ==> g(q) == 0,
    ensures
        evolve(rule, g, n)(p) == 0,
{
    let v = Seq::new(D as nat, |k: int| 0int);
    lemma_evolve_local(rule, g, zero_grid(), v, n, p);
    assert(vec_add(p, v) =~= p);
    lemma_evolve_zero(rule, n, p);
}

} // verus!
