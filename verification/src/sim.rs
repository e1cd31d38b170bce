//! The HashLife stepper.
//!
//! A simulation holds a rule and the smallest layer at which one generation
//! of the rule can be computed from a node alone. It advances a tree by any
//! number of generations: the tree is expanded until nothing that happens
//! within the time can reach the border, the centred inner node of the root
//! is advanced by recursion over the layers, and the tree is shrunk again.

use crate::big::BigNum;
use crate::cache::{Cell, NodeCache, NodeId};
use crate::evolve::{
    evolve, is_b0, lemma_evolve_add, lemma_evolve_far, lemma_evolve_local, neighborhood,
    offset_of, reach, step_grid, within, Grid,
};
use crate::index::{
    decode, encode, in_cube, ints, lemma_pow_mono, scaled, shifted, side, unflat, vec_add,
    vec_sub,
};
use crate::ndtree::NdTree;
use crate::region::{
    fill, lemma_node_grid_extends, lemma_shows_advanced, lemma_shows_extends, lemma_shows_join,
    lemma_shows_self, lemma_shows_window, node_grid, shows,
};
use crate::rule::{neighborhood_len, Rule};
use vstd::arithmetic::power::{lemma_pow0, pow};
use vstd::arithmetic::power2::{
    lemma_pow2_adds, lemma_pow2_pos, lemma_pow2_strictly_increases, lemma_pow2_unfold, pow2,
};
use vstd::prelude::*;

verus! {

/// Why a simulation could not be made, or a step not be taken.
#[derive(Clone, Copy, Debug, PartialEq, Eq, Structural)]
pub enum SimError {
    /// The step size is zero or negative.
    InvalidStepSize,
    /// The radius of the rule is so large that a node of the minimum layer
    /// has more cells than the machine can count.
    RuleRadiusTooLargeForTree,
    /// The tree would have to grow beyond what the machine can name.
    CacheExhausted,
    /// The step was interrupted. This engine takes no interrupts, and never
    /// reports this.
    Interrupted,
    /// An invariant of the engine was found broken. This engine is proved to
    /// keep its invariants, and never reports this.
    InvariantViolation,
}

/// A HashLife simulation under a given rule.
pub struct Simulation<R: Rule<D>, const D: usize> {
    /// The rule.
    pub rule: R,
    /// The smallest layer `L` with `2^L / 4` no less than the radius of the
    /// rule, and no less than 2.
    pub min_layer: usize,
    /// `2^min_layer / 4`.
    pub quarter: usize,
    /// The number of cells in a neighbourhood.
    pub neighbors: usize,
    /// Whether the rule gives a cell in an empty neighbourhood a state that
    /// is not zero.
    pub b0: bool,
}

/// A node of layer `layer` is large enough to compute one generation of a
/// rule of radius `radius` from it, and small enough for the machine to
/// count its cells in `d` dimensions.
pub open spec fn layer_fits(radius: nat, d: nat, layer: nat) -> bool {
    &&& layer >= 2
    &&& radius <= pow2((layer - 2) as nat)
    &&& pow(side(layer), d) <= usize::MAX
}

/// Some layer fits the radius.
pub open spec fn radius_fits(radius: nat, d: nat) -> bool {
    exists|layer: nat| #[trigger] layer_fits(radius, d, layer)
}

/// A power grows with its base.
pub proof fn lemma_pow_base_mono(a: int, b: int, e: nat)
    requires
        0 <= a <= b,
    ensures
        0 <= pow(a, e) <= pow(b, e),
    decreases e,
{
    reveal(pow);
    if e > 0 {
        lemma_pow_base_mono(a, b, (e - 1) as nat);
        let x = pow(a, (e - 1) as nat);
        let y = pow(b, (e - 1) as nat);
        assert(0 <= a * x <= b * y) by (nonlinear_arith)
            requires
                0 <= a <= b,
                0 <= x <= y,
        ;
    }
}

/// A larger layer has a larger side, and no smaller a count of cells.
pub proof fn lemma_side_mono(a: nat, b: nat, d: nat)
    requires
        a <= b,
        d >= 1,
    ensures
        1 <= side(a) <= side(b),
        side(b) <= pow(side(b), d),
        pow(side(a), d) <= pow(side(b), d),
{
    lemma_pow2_pos(a);
    if a < b {
        lemma_pow2_strictly_increases(a, b);
    }
    lemma_pow_base_mono(side(a), side(b), d);
    lemma_pow_mono(side(b), 1, d);
    vstd::arithmetic::power::lemma_pow1(side(b));
}

impl<R: Rule<D>, const D: usize> Simulation<R, D> {
    /// The invariant of a simulation.
    pub open spec fn wf(&self) -> bool {
        &&& 1 <= D <= 6
        &&& layer_fits(self.rule.radius_spec(), D as nat, self.min_layer as nat)
        &&& self.min_layer == 2 || pow2((self.min_layer - 3) as nat) < self.rule.radius_spec()
        &&& self.quarter == pow2((self.min_layer - 2) as nat)
        &&& self.neighbors == neighborhood_len(self.rule.radius_spec(), D as nat)
        &&& self.b0 == is_b0(&self.rule)
    }

    /// A simulation under `rule`. The rule is refused where its radius is
    /// too large for the machine.
    pub fn new(rule: R) -> (r: Result<Self, SimError>)
        requires
            1 <= D <= 6,
        ensures
            r matches Ok(sim) ==> sim.wf() && sim.rule == rule,
            r matches Err(e) ==> e == SimError::RuleRadiusTooLargeForTree,
            r is Ok <==> radius_fits(rule.radius_spec(), D as nat),
    {
        let radius = rule.radius();
        let mut min_layer: usize = 2;
        let mut quarter: usize = 1;
        proof {
            vstd::arithmetic::power2::lemma2_to64();
        }
        while quarter < radius
            invariant
                1 <= D <= 6,
                radius == rule.radius_spec(),
                min_layer >= 2,
                quarter == pow2((min_layer - 2) as nat),
                min_layer - 2 < quarter,
                quarter <= usize::MAX / 4,
                min_layer == 2 || pow2((min_layer - 3) as nat) < radius,
            decreases
                    (if radius > quarter {
                        radius - quarter
                    } else {
                        0
                    }),
        {
            if quarter > usize::MAX / 8 {
                proof {
                    assert forall|layer: nat| !#[trigger] layer_fits(radius as nat, D as nat, layer) by {
                        if layer >= 2 && radius <= pow2((layer - 2) as nat) {
                            if layer <= min_layer {
                                lemma_side_mono((layer - 2) as nat, (min_layer - 2) as nat, 1);
                            }
                            lemma_side_mono((min_layer + 1) as nat, layer, D as nat);
                            lemma_pow2_unfold((min_layer + 1) as nat);
                            lemma_pow2_unfold(min_layer as nat);
                            lemma_pow2_unfold((min_layer - 1) as nat);
                        }
                    }
                }
                return Err(SimError::RuleRadiusTooLargeForTree);
            }
            proof {
                lemma_pow2_unfold((min_layer - 1) as nat);
            }
            quarter = quarter * 2;
            min_layer = min_layer + 1;
        }
        let edge = quarter * 4;
        proof {
            lemma_pow2_unfold(min_layer as nat);
            lemma_pow2_unfold((min_layer - 1) as nat);
            lemma_pow0(edge as int);
            lemma_pow0(2 * radius as int + 1);
        }
        let base = 2 * radius + 1;
        let mut cells: usize = 1;
        let mut neighbors: usize = 1;
        let mut k: usize = 0;
        while k < D
            invariant
                1 <= D <= 6,
                radius == rule.radius_spec(),
                min_layer >= 2,
                quarter == pow2((min_layer - 2) as nat),
                min_layer == 2 || pow2((min_layer - 3) as nat) < radius,
                radius <= quarter,
                edge == side(min_layer as nat),
                base == 2 * radius + 1,
                1 <= base <= edge,
                k <= D,
                cells == pow(edge as int, k as nat),
                neighbors == pow(base as int, k as nat),
                neighbors <= cells,
            decreases D - k,
        {
            proof {
                assert(pow(edge as int, (k + 1) as nat) == edge * pow(edge as int, k as nat)) by {
                    reveal(pow);
                }
                assert(pow(base as int, (k + 1) as nat) == base * pow(base as int, k as nat)) by {
                    reveal(pow);
                }
                assert(cells * edge == edge * cells) by (nonlinear_arith);
                assert(neighbors * base == base * neighbors) by (nonlinear_arith);
                lemma_pow_base_mono(base as int, edge as int, (k + 1) as nat);
            }
            match cells.checked_mul(edge) {
                Some(v) => {
                    cells = v;
                },
                None => {
                    proof {
                        assert forall|layer: nat| !#[trigger] layer_fits(
                            radius as nat,
                            D as nat,
                            layer,
                        ) by {
                            if layer >= 2 && radius <= pow2((layer - 2) as nat) {
                                if layer < min_layer {
                                    lemma_side_mono(
                                        (layer - 2) as nat,
                                        (min_layer - 3) as nat,
                                        1,
                                    );
                                }
                                lemma_side_mono(min_layer as nat, layer, D as nat);
                                lemma_pow_mono(edge as int, (k + 1) as nat, D as nat);
                            }
                        }
                    }
                    return Err(SimError::RuleRadiusTooLargeForTree);
                },
            }
            neighbors = neighbors * base;
            k += 1;
        }
        let mut zeros: Vec<Cell> = Vec::new();
        let mut i: usize = 0;
        while i < neighbors
            invariant
                i <= neighbors,
                zeros@.len() == i,
                forall|j: int| 0 <= j < i ==> zeros@[j] == 0,
            decreases neighbors - i,
        {
            zeros.push(0);
            i += 1;
        }
        proof {
            assert(zeros@ =~= Seq::new(
                neighborhood_len(rule.radius_spec(), D as nat) as nat,
                |i: int| 0u8,
            ));
            assert(layer_fits(radius as nat, D as nat, min_layer as nat));
        }
        let b0 = rule.transition(&zeros) != 0;
        Ok(Simulation { rule, min_layer, quarter, neighbors, b0 })
    }

    /// A simulation under `rule`; another name of `new`.
    pub fn from(rule: R) -> (r: Result<Self, SimError>)
        requires
            1 <= D <= 6,
        ensures
            r matches Ok(sim) ==> sim.wf() && sim.rule == rule,
            r matches Err(e) ==> e == SimError::RuleRadiusTooLargeForTree,
            r is Ok <==> radius_fits(rule.radius_spec(), D as nat),
    {
        Self::new(rule)
    }

    /// Node `result` is the centred inner node of node `id`, advanced by
    /// `generations`: it shows, a quarter of the side of `id` in, the grid
    /// of `id` after that many generations.
    pub open spec fn advanced(
        &self,
        cache: &NodeCache<D>,
        id: NodeId,
        result: NodeId,
        generations: int,
    ) -> bool {
        &&& generations >= 0
        &&& cache.layer_of(id) >= 2
        &&& shows(
            cache,
            result,
            (cache.layer_of(id) - 1) as nat,
            evolve(&self.rule, node_grid(cache, id), generations as nat),
            fill(D as nat, side((cache.layer_of(id) - 2) as nat)),
        )
    }

    /// Every memoized result of the cache is what this simulation would
    /// compute.
    pub open spec fn memo_sound(&self, cache: &NodeCache<D>) -> bool {
        forall|n: NodeId, j: int|
            n < cache.results@.len() && 0 <= j < cache.results@[n as int]@.len()
                ==> self.advanced(
                cache,
                n,
                (#[trigger] cache.results@[n as int]@[j]).result,
                cache.results@[n as int]@[j].generations@,
            )
    }

    /// What was advanced stays advanced when the cache grows.
    pub proof fn lemma_advanced_extends(
        &self,
        new: &NodeCache<D>,
        old: &NodeCache<D>,
        id: NodeId,
        result: NodeId,
        generations: int,
    )
        requires
            old.wf(),
            new.extends(old),
            old.valid(id),
            self.advanced(old, id, result, generations),
        ensures
            self.advanced(new, id, result, generations),
    {
        lemma_node_grid_extends(new, old, id);
        lemma_shows_extends(
            new,
            old,
            result,
            (old.layer_of(id) - 1) as nat,
            evolve(&self.rule, node_grid(old, id), generations as nat),
            fill(D as nat, side((old.layer_of(id) - 2) as nat)),
        );
    }

    /// The memoized results stay sound when the cache grows and keeps
    /// them.
    pub proof fn lemma_memo_extends(&self, new: &NodeCache<D>, old: &NodeCache<D>)
        requires
            old.wf(),
            new.extends(old),
            new.same_results(old),
            self.memo_sound(old),
        ensures
            self.memo_sound(new),
    {
        assert forall|n: NodeId, j: int|
            n < new.results@.len() && 0 <= j < new.results@[n as int]@.len()
                implies self.advanced(
            new,
            n,
            (#[trigger] new.results@[n as int]@[j]).result,
            new.results@[n as int]@[j].generations@,
        ) by {
            if n < old.results@.len() {
                assert(new.results@[n as int] == old.results@[n as int]);
                let e = old.results@[n as int]@[j];
                assert(self.advanced(old, n, e.result, e.generations@));
                self.lemma_advanced_extends(new, old, n, e.result, e.generations@);
            } else {
                assert(new.results@[n as int]@.len() == 0);
            }
        }
    }

    /// Within `n` generations nothing reaches further than a quarter of
    /// the side of a node of layer `layer`, where `n` is no more than
    /// `2^(layer - min_layer)`.
    pub proof fn lemma_reach_bound(&self, layer: nat, n: nat)
        requires
            self.wf(),
            layer >= self.min_layer,
            n <= pow2((layer - self.min_layer) as nat),
        ensures
            reach(&self.rule, n) <= side((layer - 2) as nat),
    {
        let r = self.rule.radius_spec() as int;
        let a = pow2((self.min_layer - 2) as nat) as int;
        let b = pow2((layer - self.min_layer) as nat) as int;
        lemma_pow2_adds((self.min_layer - 2) as nat, (layer - self.min_layer) as nat);
        assert(r * n <= a * b) by (nonlinear_arith)
            requires
                0 <= r <= a,
                0 <= n <= b,
        ;
    }

    /// The next state of the cell at `x` of the inner region of a node of
    /// the minimum layer: the transition function applied to the
    /// neighbourhood of the cell, read from the node.
    fn next_cell(&self, cache: &NodeCache<D>, node: NodeId, x: &Vec<usize>) -> (c: Cell)
        requires
            self.wf(),
            cache.wf(),
            cache.valid(node),
            cache.layer_of(node) == self.min_layer,
            in_cube(ints(x@), D as nat, side((self.min_layer - 1) as nat)),
        ensures
            c == step_grid(&self.rule, node_grid(cache, node))(
                vec_add(ints(x@), fill(D as nat, self.quarter as int)),
            ),
    {
        let radius = self.rule.radius();
        let ghost grid = node_grid(cache, node);
        let ghost p = vec_add(ints(x@), fill(D as nat, self.quarter as int));
        let ghost h = self.quarter as int;
        proof {
            lemma_pow2_unfold(self.min_layer as nat);
            lemma_pow2_unfold((self.min_layer - 1) as nat);
            lemma_side_mono(self.min_layer as nat, self.min_layer as nat, D as nat);
            assert(side(self.min_layer as nat) == 4 * h);
            assert(side((self.min_layer - 1) as nat) == 2 * h);
        }
        let base = 2 * radius + 1;
        let mut around: Vec<Cell> = Vec::new();
        let mut i: usize = 0;
        while i < self.neighbors
            invariant
                self.wf(),
                cache.wf(),
                cache.valid(node),
                cache.layer_of(node) == self.min_layer,
                in_cube(ints(x@), D as nat, 2 * h),
                x@.len() == D,
                h == self.quarter,
                h == pow2((self.min_layer - 2) as nat),
                4 * h <= usize::MAX,
                side(self.min_layer as nat) == 4 * h,
                radius == self.rule.radius_spec(),
                radius <= h,
                base == 2 * radius + 1,
                grid == node_grid(cache, node),
                p == vec_add(ints(x@), fill(D as nat, h)),
                i <= self.neighbors,
                around@.len() == i,
                forall|j: int|
                    0 <= j < i ==> #[trigger] around@[j] == grid(
                        vec_add(p, offset_of(j, radius as nat, D as nat)),
                    ),
            decreases self.neighbors - i,
        {
            let delta = decode(i, base, D);
            let mut coords: Vec<usize> = Vec::new();
            let mut k: usize = 0;
            let ghost off = offset_of(i as int, radius as nat, D as nat);
            while k < D
                invariant
                    k <= D,
                    x@.len() == D,
                    delta@.len() == D,
                    in_cube(ints(x@), D as nat, 2 * h),
                    in_cube(ints(delta@), D as nat, base as int),
                    ints(delta@) =~= unflat(i as int, base as int, D as nat),
                    off == offset_of(i as int, radius as nat, D as nat),
                    h == self.quarter,
                    4 * h <= usize::MAX,
                    radius <= h,
                    base == 2 * radius + 1,
                    p == vec_add(ints(x@), fill(D as nat, h)),
                    coords@.len() == k,
                    forall|j: int|
                        0 <= j < k ==> (#[trigger] coords@[j]) == p[j] + off[j] && 0 <= p[j]
                            + off[j] < 4 * h,
                decreases D - k,
            {
                proof {
                    assert(ints(x@)[k as int] == x@[k as int]);
                    assert(ints(delta@)[k as int] == delta@[k as int]);
                    assert(off[k as int] == unflat(i as int, base as int, D as nat)[k as int]
                        - radius);
                }
                let q = x[k] + self.quarter - radius + delta[k];
                coords.push(q);
                k += 1;
            }
            proof {
                assert(ints(coords@) =~= vec_add(p, off));
                assert(in_cube(ints(coords@), D as nat, side(self.min_layer as nat)));
                lemma_pow2_unfold((self.min_layer - 1) as nat);
            }
            let c = cache.cell_small(node, &coords, 2 * self.quarter);
            around.push(c);
            i += 1;
        }
        proof {
            assert(around@ =~= neighborhood(grid, p, radius as nat));
        }
        self.rule.transition(&around)
    }

    /// The node of layer `layer` that shows, from `origin` on, the inner
    /// region of a node of the minimum layer after one generation, computed
    /// cell by cell.
    fn build_next(
        &self,
        cache: &mut NodeCache<D>,
        node: NodeId,
        layer: usize,
        half: usize,
        origin: &Vec<usize>,
        Ghost(grid): Ghost<Grid>,
    ) -> (r: NodeId)
        requires
            self.wf(),
            old(cache).wf(),
            old(cache).valid(node),
            old(cache).layer_of(node) == self.min_layer,
            grid == node_grid(old(cache), node),
            1 <= layer < self.min_layer,
            half == pow2((layer - 1) as nat),
            origin@.len() == D,
            forall|k: int|
                0 <= k < D ==> (#[trigger] origin@[k]) + 2 * half <= side(
                    (self.min_layer - 1) as nat,
                ),
        ensures
            final(cache).wf(),
            final(cache).extends(old(cache)),
            final(cache).same_results(old(cache)),
            shows(
                final(cache),
                r,
                layer as nat,
                step_grid(&self.rule, grid),
                vec_add(ints(origin@), fill(D as nat, self.quarter as int)),
            ),
        decreases layer,
    {
        let n = NodeCache::<D>::branching_factor();
        let ghost at = vec_add(ints(origin@), fill(D as nat, self.quarter as int));
        let ghost next = step_grid(&self.rule, grid);
        let ghost start = *cache;
        proof {
            lemma_pow2_unfold(layer as nat);
            lemma_side_mono(self.min_layer as nat, self.min_layer as nat, D as nat);
            lemma_pow2_unfold(self.min_layer as nat);
            vstd::arithmetic::power2::lemma2_to64();
        }
        if layer == 1 {
            let mut cells: Vec<Cell> = Vec::new();
            let mut c: usize = 0;
            while c < n
                invariant
                    self.wf(),
                    cache.wf(),
                    *cache == start,
                    cache.valid(node),
                    cache.layer_of(node) == self.min_layer,
                    grid == node_grid(cache, node),
                    next == step_grid(&self.rule, grid),
                    n == pow2(D as nat),
                    layer == 1,
                    half == 1,
                    origin@.len() == D,
                    forall|k: int|
                        0 <= k < D ==> (#[trigger] origin@[k]) + 2 <= side(
                            (self.min_layer - 1) as nat,
                        ),
                    side((self.min_layer - 1) as nat) <= usize::MAX,
                    at == vec_add(ints(origin@), fill(D as nat, self.quarter as int)),
                    c <= n,
                    cells@.len() == c,
                    forall|j: int|
                        0 <= j < c ==> #[trigger] cells@[j] == next(
                            vec_add(unflat(j, 2, D as nat), at),
                        ),
                decreases n - c,
            {
                let cd = decode(c, 2, D);
                proof {
                    assert forall|k: int| 0 <= k < D implies origin@[k] + (#[trigger] cd@[k]) * 1
                        <= usize::MAX by {
                        assert(ints(cd@)[k] < 2);
                        assert(origin@[k] + 2 <= side((self.min_layer - 1) as nat));
                    }
                }
                let x = add_digits::<D>(origin, &cd, 1);
                proof {
                    assert(in_cube(ints(x@), D as nat, side((self.min_layer - 1) as nat))) by {
                        assert forall|k: int| 0 <= k < D implies 0 <= #[trigger] ints(x@)[k]
                            < side((self.min_layer - 1) as nat) by {
                            assert(ints(cd@)[k] < 2);
                            assert(origin@[k] + 2 <= side((self.min_layer - 1) as nat));
                        }
                    }
                    let lhs = vec_add(ints(x@), fill(D as nat, self.quarter as int));
                    let rhs = vec_add(unflat(c as int, 2, D as nat), at);
                    assert forall|k: int| 0 <= k < D implies #[trigger] lhs[k] == rhs[k] by {
                        assert(ints(cd@)[k] == unflat(c as int, 2, D as nat)[k]);
                        assert(ints(cd@)[k] * 1 == ints(cd@)[k]);
                        assert(ints(x@)[k] == origin@[k] + cd@[k] * 1);
                    }
                    assert(lhs =~= rhs);
                }
                let cell = self.next_cell(cache, node, &x);
                cells.push(cell);
                c += 1;
            }
            let r = cache.intern_leaf(cells);
            proof {
                crate::region::lemma_shows_leaf(cache, r, next, at);
            }
            r
        } else {
            let mut kids: Vec<NodeId> = Vec::new();
            let mut c: usize = 0;
            while c < n
                invariant
                    self.wf(),
                    cache.wf(),
                    start.wf(),
                    cache.extends(&start),
                    cache.same_results(&start),
                    start.valid(node),
                    start.layer_of(node) == self.min_layer,
                    grid == node_grid(&start, node),
                    next == step_grid(&self.rule, grid),
                    n == pow2(D as nat),
                    2 <= layer < self.min_layer,
                    half == pow2((layer - 1) as nat),
                    origin@.len() == D,
                    forall|k: int|
                        0 <= k < D ==> (#[trigger] origin@[k]) + 2 * half <= side(
                            (self.min_layer - 1) as nat,
                        ),
                    side((self.min_layer - 1) as nat) <= usize::MAX,
                    at == vec_add(ints(origin@), fill(D as nat, self.quarter as int)),
                    c <= n,
                    kids@.len() == c,
                    forall|j: int|
                        0 <= j < c ==> shows(
                            cache,
                            #[trigger] kids@[j],
                            (layer - 1) as nat,
                            next,
                            vec_add(at, scaled(unflat(j, 2, D as nat), half as int)),
                        ),
                decreases n - c,
            {
                let cd = decode(c, 2, D);
                proof {
                    lemma_pow2_unfold((layer - 1) as nat);
                    assert forall|k: int| 0 <= k < D implies origin@[k] + (#[trigger] cd@[k])
                        * half + half <= side((self.min_layer - 1) as nat) by {
                        assert(ints(cd@)[k] < 2);
                        assert(cd@[k] * half <= half) by (nonlinear_arith)
                            requires
                                cd@[k] <= 1,
                                half >= 0,
                        ;
                        assert(origin@[k] + 2 * half <= side((self.min_layer - 1) as nat));
                    }
                }
                let sub_origin = add_digits::<D>(origin, &cd, half);
                let ghost before = *cache;
                proof {
                    lemma_node_grid_extends(cache, &start, node);
                    assert forall|k: int| 0 <= k < D implies (#[trigger] sub_origin@[k]) + 2 * (half
                        / 2) <= side((self.min_layer - 1) as nat) by {
                        assert(ints(sub_origin@)[k] == origin@[k] + cd@[k] * half);
                    }
                }
                let kid = self.build_next(cache, node, layer - 1, half / 2, &sub_origin, Ghost(grid));
                proof {
                    assert forall|j: int| 0 <= j < c implies shows(
                        cache,
                        #[trigger] kids@[j],
                        (layer - 1) as nat,
                        next,
                        vec_add(at, scaled(unflat(j, 2, D as nat), half as int)),
                    ) by {
                        lemma_shows_extends(
                            cache,
                            &before,
                            kids@[j],
                            (layer - 1) as nat,
                            next,
                            vec_add(at, scaled(unflat(j, 2, D as nat), half as int)),
                        );
                    }
                    let lhs = vec_add(ints(sub_origin@), fill(D as nat, self.quarter as int));
                    let rhs = vec_add(at, scaled(unflat(c as int, 2, D as nat), half as int));
                    assert forall|k: int| 0 <= k < D implies #[trigger] lhs[k] == rhs[k] by {
                        assert(ints(sub_origin@)[k] == origin@[k] + cd@[k] * half);
                        assert(ints(cd@)[k] == unflat(c as int, 2, D as nat)[k]);
                    }
                    assert(lhs =~= rhs);
                }
                kids.push(kid);
                c += 1;
            }
            proof {
                lemma_pow2_pos(D as nat);
                crate::region::lemma_shows_valid(
                    cache,
                    kids@[0],
                    (layer - 1) as nat,
                    next,
                    vec_add(at, scaled(unflat(0, 2, D as nat), half as int)),
                );
                assert forall|j: int| 0 <= j < kids@.len() implies cache.valid(#[trigger] kids@[j])
                    && cache.layer_of(kids@[j]) == (layer - 1) as nat by {
                    crate::region::lemma_shows_valid(
                        cache,
                        kids@[j],
                        (layer - 1) as nat,
                        next,
                        vec_add(at, scaled(unflat(j, 2, D as nat), half as int)),
                    );
                }
            }
            let ghost before = *cache;
            let r = cache.intern_node(kids);
            proof {
                assert forall|j: int| 0 <= j < pow2(D as nat) implies shows(
                    cache,
                    #[trigger] cache.children_of(r)[j],
                    (layer - 1) as nat,
                    next,
                    vec_add(at, scaled(unflat(j, 2, D as nat), side((layer - 1) as nat))),
                ) by {
                    lemma_shows_extends(
                        cache,
                        &before,
                        kids@[j],
                        (layer - 1) as nat,
                        next,
                        vec_add(at, scaled(unflat(j, 2, D as nat), half as int)),
                    );
                }
                lemma_shows_join(cache, r, (layer - 1) as nat, next, at);
            }
            r
        }
    }

    /// The centred inner node of a node of the minimum layer after one
    /// generation, computed cell by cell from the node.
    fn advance_once(&self, cache: &mut NodeCache<D>, node: NodeId) -> (r: NodeId)
        requires
            self.wf(),
            old(cache).wf(),
            old(cache).valid(node),
            old(cache).layer_of(node) == self.min_layer,
            self.memo_sound(old(cache)),
        ensures
            final(cache).wf(),
            final(cache).extends(old(cache)),
            self.memo_sound(final(cache)),
            self.advanced(final(cache), node, r, 1),
    {
        let mut origin: Vec<usize> = Vec::new();
        let mut k: usize = 0;
        while k < D
            invariant
                k <= D,
                origin@.len() == k,
                forall|j: int| 0 <= j < k ==> origin@[j] == 0,
            decreases D - k,
        {
            origin.push(0);
            k += 1;
        }
        let ghost grid = node_grid(cache, node);
        proof {
            lemma_pow2_unfold((self.min_layer - 1) as nat);
        }
        let r = self.build_next(
            cache,
            node,
            self.min_layer - 1,
            self.quarter,
            &origin,
            Ghost(grid),
        );
        proof {
            self.lemma_memo_extends(cache, old(cache));
            lemma_node_grid_extends(cache, old(cache), node);
            assert(vec_add(ints(origin@), fill(D as nat, self.quarter as int)) =~= fill(
                D as nat,
                side((self.min_layer - 2) as nat),
            ));
            assert(evolve(&self.rule, grid, 1) == step_grid(&self.rule, grid)) by {
                assert(evolve(&self.rule, grid, 0) == grid);
            }
        }
        r
    }

    /// The centred inner node of a node, not advanced at all.
    fn advance_none(&self, cache: &mut NodeCache<D>, node: NodeId) -> (r: NodeId)
        requires
            self.wf(),
            old(cache).wf(),
            old(cache).valid(node),
            old(cache).layer_of(node) >= 2,
            self.memo_sound(old(cache)),
        ensures
            final(cache).wf(),
            final(cache).extends(old(cache)),
            self.memo_sound(final(cache)),
            self.advanced(final(cache), node, r, 0),
    {
        let ghost grid = node_grid(cache, node);
        let ghost layer = cache.layer_of(node);
        let r = cache.centered_inner(node);
        proof {
            self.lemma_memo_extends(cache, old(cache));
            let ones = Seq::new(D as nat, |k: int| 1int);
            let h = side((layer - 2) as nat);
            lemma_shows_self(old(cache), node);
            assert forall|x: Seq<int>|
                in_cube(x, D as nat, side((layer - 1) as nat)) implies #[trigger] cache.cell(r, x)
                == old(cache).cell(node, vec_add(x, scaled(ones, h))) by {
                assert(vec_add(x, scaled(ones, h)) =~= shifted(x, h)) by {
                    assert forall|k: int| 0 <= k < D implies #[trigger] vec_add(
                        x,
                        scaled(ones, h),
                    )[k] == shifted(x, h)[k] by {
                        assert(scaled(ones, h)[k] == 1 * h);
                    }
                }
            }
            lemma_shows_window(cache, old(cache), node, r, ones, grid, fill(D as nat, 0));
            assert(vec_add(fill(D as nat, 0), scaled(ones, h)) =~= fill(D as nat, h)) by {
                assert forall|k: int| 0 <= k < D implies #[trigger] vec_add(
                    fill(D as nat, 0),
                    scaled(ones, h),
                )[k] == fill(D as nat, h)[k] by {
                    assert(scaled(ones, h)[k] == 1 * h);
                }
            }
            lemma_node_grid_extends(cache, old(cache), node);
        }
        r
    }

    /// The centred inner node of an empty node under a rule that leaves
    /// empty space empty, after any number of generations: the empty node
    /// one layer down, which is the first child of the node. Nothing is
    /// interned.
    fn advance_empty(&self, cache: &NodeCache<D>, node: NodeId, Ghost(n): Ghost<nat>) -> (r:
        NodeId)
        requires
            self.wf(),
            !self.b0,
            cache.wf(),
            cache.valid(node),
            cache.layer_of(node) >= 2,
            cache.population_of(node) == 0,
        ensures
            r == cache.children_of(node)[0],
            cache.valid(r),
            cache.population_of(r) == 0,
            self.advanced(cache, node, r, n as int),
    {
        let layer = cache.layer(node);
        proof {
            vstd::arithmetic::power2::lemma_pow2_pos(D as nat);
        }
        let r = cache.child(node, 0);
        proof {
            Self::lemma_first_child_empty(cache, node);
            reveal(shows);
            let grid = node_grid(cache, node);
            let h = side((layer - 2) as nat);
            assert forall|x: Seq<int>|
                in_cube(x, D as nat, side((layer - 1) as nat)) implies #[trigger] cache.cell(r, x)
                == evolve(&self.rule, grid, n)(vec_add(x, fill(D as nat, h))) by {
                let y = vec_add(x, fill(D as nat, h));
                assert forall|q: Seq<int>| #[trigger]
                    within(q, y, reach(&self.rule, n)) implies grid(q) == 0 by {
                    crate::cache::lemma_zero_population(cache.nodes@, D as nat, node as int, q);
                }
                lemma_evolve_far(&self.rule, grid, n, y);
                crate::cache::lemma_zero_population(cache.nodes@, D as nat, r as int, x);
            }
        }
        r
    }

    /// The first child of a node without population is the empty node one
    /// layer down.
    pub proof fn lemma_first_child_empty(cache: &NodeCache<D>, node: NodeId)
        requires
            cache.wf(),
            cache.valid(node),
            cache.layer_of(node) >= 2,
            cache.population_of(node) == 0,
        ensures
            cache.valid(cache.children_of(node)[0]),
            cache.layer_of(cache.children_of(node)[0]) == cache.layer_of(node) - 1,
            cache.population_of(cache.children_of(node)[0]) == 0,
    {
        assert(crate::cache::entry_wf(cache.nodes@, node as int, D as nat));
        vstd::arithmetic::power2::lemma_pow2_pos(D as nat);
        let kids = cache.children_of(node);
        assert(kids[0] < node);
        crate::cache::lemma_populations_non_negative(cache.nodes@, D as nat, node as int);
        crate::cache::lemma_seq_sum_non_negative(crate::cache::child_pops(cache.nodes@, kids));
        assert(crate::cache::child_pops(cache.nodes@, kids)[0] == 0);
    }

    /// Under a rule that leaves empty space empty, whatever is the
    /// advanced inner node of a node without population is the first child
    /// of that node.
    pub proof fn lemma_empty_result(
        &self,
        cache: &NodeCache<D>,
        node: NodeId,
        r: NodeId,
        generations: int,
    )
        requires
            self.wf(),
            !self.b0,
            cache.wf(),
            cache.valid(node),
            cache.population_of(node) == 0,
            self.advanced(cache, node, r, generations),
        ensures
            r == cache.children_of(node)[0],
    {
        reveal(shows);
        let layer = cache.layer_of(node);
        let n = generations as nat;
        let grid = node_grid(cache, node);
        let h = side((layer - 2) as nat);
        Self::lemma_first_child_empty(cache, node);
        assert forall|x: Seq<int>|
            in_cube(x, D as nat, side(cache.layer_of(r))) implies #[trigger] crate::cache::node_cell(
            cache.nodes@,
            r as int,
            x,
        ) == 0 by {
            let y = vec_add(x, fill(D as nat, h));
            assert(cache.cell(r, x) == evolve(&self.rule, grid, n)(y));
            assert forall|q: Seq<int>| #[trigger]
                within(q, y, reach(&self.rule, n)) implies grid(q) == 0 by {
                crate::cache::lemma_zero_population(cache.nodes@, D as nat, node as int, q);
            }
            lemma_evolve_far(&self.rule, grid, n, y);
        }
        crate::laws::lemma_zero_cells_zero_population(cache.nodes@, D as nat, r as int);
        crate::laws::lemma_empty_node_unique(cache, r, cache.children_of(node)[0]);
    }

    /// The centred inner node of `node`, advanced by `generations`.
    ///
    /// A node of side `n` can be advanced by `t` generations from its own
    /// cells where `n / 4` is no less than `t` times the radius of the rule:
    /// nothing from outside the node then reaches its inner node.
    ///
    /// The cases, in the order in which they are tried: a result memoized
    /// in the cache is returned; an empty node, under a rule that leaves
    /// empty space empty, gives its first child, the empty node one layer
    /// down, after any number of generations and without interning
    /// anything; no generations at all leave the centred inner node as it
    /// is, which for an empty node is again that child; at the minimum layer
    /// the one generation that remains is computed cell by cell with the
    /// transition function; and any other node is split into windows of half
    /// its side, which are advanced by half the time each, twice over.
    /// Leaves take part in the split like any other node, so that a node
    /// whose grandchildren are leaves needs no case of its own. The result
    /// is memoized before it is returned.
    pub fn advance_inner_node(
        &self,
        cache: &mut NodeCache<D>,
        node: NodeId,
        generations: &BigNum,
    ) -> (r: NodeId)
        requires
            self.wf(),
            old(cache).wf(),
            old(cache).valid(node),
            old(cache).layer_of(node) >= self.min_layer,
            0 <= generations@,
            generations@ <= pow2((old(cache).layer_of(node) - self.min_layer) as nat) || (
            !self.b0 && old(cache).population_of(node) == 0),
            self.memo_sound(old(cache)),
        ensures
            final(cache).wf(),
            final(cache).extends(old(cache)),
            final(cache).valid(r),
            final(cache).layer_of(r) == old(cache).layer_of(node) - 1,
            self.memo_sound(final(cache)),
            self.advanced(final(cache), node, r, generations@),
            !self.b0 && old(cache).population_of(node) == 0 ==> final(cache).nodes@ == old(cache).nodes@ && final(cache).empties@ == old(cache).empties@ && r == old(cache).children_of(node)[0] && final(cache).population_of(r) == 0,
        decreases old(cache).layer_of(node), 2nat,
    {
        let layer = cache.layer(node);
        let empty = !self.b0 && cache.is_empty(node);
        match cache.get_result(node, generations) {
            Some(r) => {
                proof {
                    let j = crate::cache::lemma_memo_lookup_some(
                        cache.results@[node as int]@,
                        generations@,
                    );
                    assert(self.advanced(
                        cache,
                        node,
                        cache.results@[node as int]@[j].result,
                        cache.results@[node as int]@[j].generations@,
                    ));
                    if empty {
                        self.lemma_empty_result(cache, node, r, generations@);
                        Self::lemma_first_child_empty(cache, node);
                    }
                }
                return r;
            },
            None => {},
        }
        let r = if empty {
            self.advance_empty(cache, node, Ghost(generations@ as nat))
        } else if generations.is_zero() {
            self.advance_none(cache, node)
        } else if layer == self.min_layer {
            proof {
                vstd::arithmetic::power2::lemma2_to64();
            }
            self.advance_once(cache, node)
        } else {
            self.advance_split(cache, node, generations)
        };
        proof {
            crate::region::lemma_shows_valid(
                cache,
                r,
                (layer - 1) as nat,
                evolve(&self.rule, node_grid(cache, node), generations@ as nat),
                fill(D as nat, side((layer - 2) as nat)),
            );
        }
        let ghost before = *cache;
        cache.set_result(node, generations.copy(), r);
        proof {
            self.lemma_memo_set(cache, &before, node, r, generations@);
        }
        r
    }

    /// The memoized results stay sound when one that is sound is added.
    pub proof fn lemma_memo_set(
        &self,
        new: &NodeCache<D>,
        old: &NodeCache<D>,
        id: NodeId,
        result: NodeId,
        generations: int,
    )
        requires
            old.wf(),
            old.valid(id),
            self.memo_sound(old),
            self.advanced(old, id, result, generations),
            new.nodes@ == old.nodes@,
            new.empties@ == old.empties@,
            new.results@.len() == old.results@.len(),
            new.results@[id as int]@.len() == old.results@[id as int]@.len() + 1,
            forall|j: int|
                0 <= j < old.results@[id as int]@.len() ==> new.results@[id as int]@[j]
                    == old.results@[id as int]@[j],
            new.results@[id as int]@.last().result == result,
            new.results@[id as int]@.last().generations@ == generations,
            forall|n: int|
                0 <= n < old.results@.len() && n != id ==> new.results@[n] == old.results@[n],
        ensures
            self.memo_sound(new),
            self.advanced(new, id, result, generations),
    {
        assert(new.extends(old));
        assert forall|n: NodeId, j: int|
            n < new.results@.len() && 0 <= j < new.results@[n as int]@.len()
                implies self.advanced(
            new,
            n,
            (#[trigger] new.results@[n as int]@[j]).result,
            new.results@[n as int]@[j].generations@,
        ) by {
            assert(old.results@.len() == old.nodes@.len());
            if n == id && j == old.results@[n as int]@.len() {
                self.lemma_advanced_extends(new, old, id, result, generations);
            } else {
                let e = old.results@[n as int]@[j];
                assert(new.results@[n as int]@[j] == e);
                assert(self.advanced(old, n, e.result, e.generations@));
                self.lemma_advanced_extends(new, old, n, e.result, e.generations@);
            }
        }
        self.lemma_advanced_extends(new, old, id, result, generations);
    }

    /// The recursive case: the node is cut into a cube of 3 by 3 by ...
    /// windows of half its side, the inner node of each is advanced by half
    /// the time, the results are joined into a cube of 2 by 2 by ... nodes,
    /// the inner node of each of these is advanced by the rest of the time,
    /// and those results are joined.
    fn advance_split(&self, cache: &mut NodeCache<D>, node: NodeId, generations: &BigNum) -> (r:
        NodeId)
        requires
            self.wf(),
            old(cache).wf(),
            old(cache).valid(node),
            old(cache).layer_of(node) > self.min_layer,
            0 <= generations@ <= pow2((old(cache).layer_of(node) - self.min_layer) as nat),
            self.memo_sound(old(cache)),
        ensures
            final(cache).wf(),
            final(cache).extends(old(cache)),
            self.memo_sound(final(cache)),
            self.advanced(final(cache), node, r, generations@),
        decreases old(cache).layer_of(node), 1nat,
    {
        let layer = cache.layer(node);
        let t_inner = generations.shr(1);
        let t_outer = generations.sub(&t_inner);
        let ghost grid = node_grid(cache, node);
        let ghost first = evolve(&self.rule, grid, t_inner@ as nat);
        let ghost second = evolve(&self.rule, first, t_outer@ as nat);
        proof {
            vstd::arithmetic::power2::lemma2_to64();
            lemma_pow2_unfold((layer - self.min_layer) as nat);
            lemma_evolve_add(&self.rule, grid, t_inner@ as nat, t_outer@ as nat);
        }
        let thirds = self.advance_thirds(cache, node, &t_inner, Ghost(grid));
        let halves = self.advance_halves(cache, &thirds, layer, &t_outer, Ghost(first));
        let ghost before = *cache;
        proof {
            lemma_pow2_pos(D as nat);
            let h = side((layer - 2) as nat);
            assert forall|j: int| 0 <= j < halves@.len() implies cache.valid(
                #[trigger] halves@[j],
            ) && cache.layer_of(halves@[j]) == (layer - 2) as nat by {
                crate::region::lemma_shows_valid(
                    cache,
                    halves@[j],
                    (layer - 2) as nat,
                    second,
                    vec_add(fill(D as nat, h), scaled(unflat(j, 2, D as nat), h)),
                );
            }
        }
        let r = cache.join(halves);
        proof {
            let h = side((layer - 2) as nat);
            assert forall|j: int| 0 <= j < pow2(D as nat) implies shows(
                cache,
                #[trigger] cache.children_of(r)[j],
                (layer - 2) as nat,
                second,
                vec_add(fill(D as nat, h), scaled(unflat(j, 2, D as nat), h)),
            ) by {
                lemma_shows_extends(
                    cache,
                    &before,
                    halves@[j],
                    (layer - 2) as nat,
                    second,
                    vec_add(fill(D as nat, h), scaled(unflat(j, 2, D as nat), h)),
                );
            }
            lemma_shows_join(cache, r, (layer - 2) as nat, second, fill(D as nat, h));
            lemma_node_grid_extends(cache, old(cache), node);
            self.lemma_memo_extends(cache, &before);
        }
        r
    }

    /// The inner nodes of the `3^D` windows of half the side of `node`,
    /// each advanced by `t_inner`; window `j` starts where the digits of
    /// `j` in base 3 say, in quarters of the side.
    fn advance_thirds(
        &self,
        cache: &mut NodeCache<D>,
        node: NodeId,
        t_inner: &BigNum,
        Ghost(grid): Ghost<Grid>,
    ) -> (thirds: Vec<NodeId>)
        requires
            self.wf(),
            old(cache).wf(),
            old(cache).valid(node),
            old(cache).layer_of(node) > self.min_layer,
            0 <= t_inner@ <= pow2((old(cache).layer_of(node) - 1 - self.min_layer) as nat),
            self.memo_sound(old(cache)),
            grid == node_grid(old(cache), node),
        ensures
            final(cache).wf(),
            final(cache).extends(old(cache)),
            self.memo_sound(final(cache)),
            thirds@.len() == pow(3, D as nat),
            forall|j: int|
                0 <= j < thirds@.len() ==> shows(
                    final(cache),
                    #[trigger] thirds@[j],
                    (old(cache).layer_of(node) - 2) as nat,
                    evolve(&self.rule, grid, t_inner@ as nat),
                    third_at(j, D as nat, old(cache).layer_of(node)),
                ),
        decreases old(cache).layer_of(node), 0nat,
    {
        let layer = cache.layer(node);
        let count = three_to::<D>();
        let ghost first = evolve(&self.rule, grid, t_inner@ as nat);
        let ghost h = side((layer - 2) as nat);
        let ghost e = side((layer - 3) as nat);
        let mut thirds: Vec<NodeId> = Vec::new();
        let mut j: usize = 0;
        while j < count
            invariant
                self.wf(),
                cache.wf(),
                old(cache).wf(),
                cache.extends(old(cache)),
                self.memo_sound(cache),
                old(cache).valid(node),
                old(cache).layer_of(node) == layer,
                layer > self.min_layer,
                0 <= t_inner@ <= pow2((layer - 1 - self.min_layer) as nat),
                grid == node_grid(old(cache), node),
                first == evolve(&self.rule, grid, t_inner@ as nat),
                h == side((layer - 2) as nat),
                e == side((layer - 3) as nat),
                count == pow(3, D as nat),
                j <= count,
                thirds@.len() == j,
                forall|i: int|
                    0 <= i < j ==> shows(
                        cache,
                        #[trigger] thirds@[i],
                        (layer - 2) as nat,
                        first,
                        third_at(i, D as nat, layer as nat),
                    ),
            decreases count - j,
        {
            let p = decode(j, 3, D);
            let ghost before = *cache;
            let ghost at = scaled(ints(p@), h);
            let sub = cache.subnode(node, &p);
            proof {
                lemma_shows_self(old(cache), node);
                lemma_shows_extends(
                    &before,
                    old(cache),
                    node,
                    layer as nat,
                    grid,
                    fill(D as nat, 0),
                );
                assert forall|x: Seq<int>|
                    in_cube(
                        x,
                        D as nat,
                        side((layer - 1) as nat),
                    ) implies #[trigger] cache.cell(sub, x) == before.cell(
                    node,
                    vec_add(x, scaled(ints(p@), side((layer - 2) as nat))),
                ) by {}
                lemma_shows_window(cache, &before, node, sub, ints(p@), grid, fill(D as nat, 0));
                assert(vec_add(fill(D as nat, 0), at) =~= at);
                self.lemma_memo_extends(cache, &before);
            }
            let ghost mid = *cache;
            let r = self.advance_inner_node(cache, sub, t_inner);
            proof {
                lemma_shows_extends(cache, &mid, sub, (layer - 1) as nat, grid, at);
                self.lemma_reach_bound((layer - 1) as nat, t_inner@ as nat);
                lemma_shows_advanced(&self.rule, cache, sub, r, grid, at, t_inner@ as nat);
                assert(vec_add(at, fill(D as nat, e)) =~= third_at(
                    j as int,
                    D as nat,
                    layer as nat,
                ));
                assert forall|i: int| 0 <= i < j implies shows(
                    cache,
                    #[trigger] thirds@[i],
                    (layer - 2) as nat,
                    first,
                    third_at(i, D as nat, layer as nat),
                ) by {
                    lemma_shows_extends(
                        cache,
                        &before,
                        thirds@[i],
                        (layer - 2) as nat,
                        first,
                        third_at(i, D as nat, layer as nat),
                    );
                }
            }
            thirds.push(r);
            j += 1;
        }
        thirds
    }

    /// From the advanced inner nodes of the `3^D` windows: the `2^D` nodes
    /// that each join a cube of 2 by 2 by ... neighbours among them, with
    /// their inner nodes advanced by `t_outer`.
    fn advance_halves(
        &self,
        cache: &mut NodeCache<D>,
        thirds: &Vec<NodeId>,
        layer: usize,
        t_outer: &BigNum,
        Ghost(first): Ghost<Grid>,
    ) -> (halves: Vec<NodeId>)
        requires
            self.wf(),
            old(cache).wf(),
            layer > self.min_layer,
            0 <= t_outer@ <= pow2((layer - 1 - self.min_layer) as nat),
            self.memo_sound(old(cache)),
            thirds@.len() == pow(3, D as nat),
            forall|j: int|
                0 <= j < thirds@.len() ==> shows(
                    old(cache),
                    #[trigger] thirds@[j],
                    (layer - 2) as nat,
                    first,
                    third_at(j, D as nat, layer as nat),
                ),
        ensures
            final(cache).wf(),
            final(cache).extends(old(cache)),
            self.memo_sound(final(cache)),
            halves@.len() == pow2(D as nat),
            forall|q: int|
                0 <= q < halves@.len() ==> shows(
                    final(cache),
                    #[trigger] halves@[q],
                    (layer - 2) as nat,
                    evolve(&self.rule, first, t_outer@ as nat),
                    vec_add(
                        fill(D as nat, side((layer - 2) as nat)),
                        scaled(unflat(q, 2, D as nat), side((layer - 2) as nat)),
                    ),
                ),
        decreases layer, 0nat,
    {
        let n = NodeCache::<D>::branching_factor();
        let ghost second = evolve(&self.rule, first, t_outer@ as nat);
        let ghost h = side((layer - 2) as nat);
        let ghost e = side((layer - 3) as nat);
        let mut halves: Vec<NodeId> = Vec::new();
        let mut q: usize = 0;
        while q < n
            invariant
                self.wf(),
                cache.wf(),
                old(cache).wf(),
                cache.extends(old(cache)),
                self.memo_sound(cache),
                layer > self.min_layer,
                0 <= t_outer@ <= pow2((layer - 1 - self.min_layer) as nat),
                second == evolve(&self.rule, first, t_outer@ as nat),
                h == side((layer - 2) as nat),
                e == side((layer - 3) as nat),
                n == pow2(D as nat),
                thirds@.len() == pow(3, D as nat),
                forall|j: int|
                    0 <= j < thirds@.len() ==> shows(
                        old(cache),
                        #[trigger] thirds@[j],
                        (layer - 2) as nat,
                        first,
                        third_at(j, D as nat, layer as nat),
                    ),
                q <= n,
                halves@.len() == q,
                forall|i: int|
                    0 <= i < q ==> shows(
                        cache,
                        #[trigger] halves@[i],
                        (layer - 2) as nat,
                        second,
                        vec_add(fill(D as nat, h), scaled(unflat(i, 2, D as nat), h)),
                    ),
            decreases n - q,
        {
            let ghost before = *cache;
            let ghost at = vec_add(scaled(unflat(q as int, 2, D as nat), h), fill(D as nat, e));
            let kids = gather_thirds::<D>(thirds, q);
            proof {
                lemma_pow2_pos(D as nat);
                crate::index::lemma_unflat_in_cube(q as int, 2, D as nat);
                lemma_pow2_unfold((layer - 2) as nat);
                assert forall|c: int| 0 <= c < kids@.len() implies cache.valid(#[trigger] kids@[c])
                    && cache.layer_of(kids@[c]) == (layer - 2) as nat && shows(
                    cache,
                    kids@[c],
                    (layer - 2) as nat,
                    first,
                    vec_add(at, scaled(unflat(c, 2, D as nat), h)),
                ) by {
                    let j = third_index(q as int, c, D as nat);
                    assert(gathered(thirds@, kids@[c], q as int, c, D as nat));
                    lemma_third_index(q as int, c, D as nat, layer as nat);
                    lemma_shows_extends(
                        cache,
                        old(cache),
                        thirds@[j],
                        (layer - 2) as nat,
                        first,
                        third_at(j, D as nat, layer as nat),
                    );
                    crate::region::lemma_shows_valid(
                        cache,
                        thirds@[j],
                        (layer - 2) as nat,
                        first,
                        third_at(j, D as nat, layer as nat),
                    );
                }
            }
            let joined = cache.join(kids);
            proof {
                assert forall|c: int| 0 <= c < pow2(D as nat) implies shows(
                    cache,
                    #[trigger] cache.children_of(joined)[c],
                    (layer - 2) as nat,
                    first,
                    vec_add(at, scaled(unflat(c, 2, D as nat), side((layer - 2) as nat))),
                ) by {
                    lemma_shows_extends(
                        cache,
                        &before,
                        kids@[c],
                        (layer - 2) as nat,
                        first,
                        vec_add(at, scaled(unflat(c, 2, D as nat), h)),
                    );
                }
                lemma_shows_join(cache, joined, (layer - 2) as nat, first, at);
                self.lemma_memo_extends(cache, &before);
            }
            let ghost mid = *cache;
            let r = self.advance_inner_node(cache, joined, t_outer);
            proof {
                lemma_shows_extends(cache, &mid, joined, (layer - 1) as nat, first, at);
                self.lemma_reach_bound((layer - 1) as nat, t_outer@ as nat);
                lemma_shows_advanced(&self.rule, cache, joined, r, first, at, t_outer@ as nat);
                let lhs = vec_add(at, fill(D as nat, e));
                let rhs = vec_add(fill(D as nat, h), scaled(unflat(q as int, 2, D as nat), h));
                assert forall|k: int| 0 <= k < D implies #[trigger] lhs[k] == rhs[k] by {
                    assert(h == 2 * e);
                }
                assert(lhs =~= rhs);
                assert forall|i: int| 0 <= i < q implies shows(
                    cache,
                    #[trigger] halves@[i],
                    (layer - 2) as nat,
                    second,
                    vec_add(fill(D as nat, h), scaled(unflat(i, 2, D as nat), h)),
                ) by {
                    lemma_shows_extends(
                        cache,
                        &before,
                        halves@[i],
                        (layer - 2) as nat,
                        second,
                        vec_add(fill(D as nat, h), scaled(unflat(i, 2, D as nat), h)),
                    );
                }
            }
            halves.push(r);
            q += 1;
        }
        halves
    }

    /// The step size is positive, and the layer that the tree has to reach
    /// for it can be named by the machine.
    pub open spec fn step_fits(&self, step_size: int) -> bool {
        crate::big::bit_length(step_size) + self.min_layer - 2 <= usize::MAX
    }

    /// The binary logarithm of the margin that a step of `step_size`
    /// generations needs around the pattern: that of the radius, rounded up
    /// to a power of two, plus the number of binary digits of the step
    /// size. The step is refused where the step size is not positive, or
    /// the margin too wide for the machine.
    pub fn step_shift(&self, step_size: &BigNum) -> (r: Result<usize, SimError>)
        requires
            self.wf(),
        ensures
            step_size@ <= 0 ==> r == Err::<usize, SimError>(SimError::InvalidStepSize),
            step_size@ > 0 && !self.step_fits(step_size@) ==> r == Err::<usize, SimError>(
                SimError::CacheExhausted,
            ),
            r is Ok <==> step_size@ > 0 && self.step_fits(step_size@),
            r matches Ok(shift) ==> shift == crate::big::bit_length(step_size@) + self.min_layer
                - 2 && step_size@ < pow2(crate::big::bit_length(step_size@)),
    {
        if !step_size.is_positive() {
            return Err(SimError::InvalidStepSize);
        }
        let bits = step_size.bits();
        let room = usize::MAX - (self.min_layer - 2);
        if bits > room as u64 {
            return Err(SimError::CacheExhausted);
        }
        Ok(bits as usize + (self.min_layer - 2))
    }

    /// The layer of the node that a step of `step_size` generations
    /// computes for a tree whose root is of layer `first`, before the tree
    /// is shrunk: the tree is expanded at least once, and until its layer
    /// exceeds the binary logarithm of the margin by two.
    pub open spec fn stepped_layer(&self, first: nat, step_size: int) -> nat {
        let shift = (crate::big::bit_length(step_size) + self.min_layer - 2) as nat;
        if shift + 2 > first + 1 {
            shift + 2
        } else {
            first + 1
        }
    }

    /// Whatever the stepped tree leaves out of the cube that the step
    /// computed is empty in the grid after the step: the cube of the new
    /// root lies in the cube of layer `stepped_layer` around the centre of
    /// the old tree, and every point of that cube outside the new root
    /// holds zero after `step_size` generations.
    pub open spec fn left_out_is_empty(
        &self,
        before: &NdTree<D>,
        old_cache: &NodeCache<D>,
        after: &NdTree<D>,
        new_cache: &NodeCache<D>,
        step_size: int,
    ) -> bool {
        &&& after.layer(new_cache) <= self.stepped_layer(before.layer(old_cache), step_size)
        &&& forall|p: Seq<int>|
            p.len() == D && #[trigger] crate::ndtree::box_contains(
                before.centre(old_cache),
                self.stepped_layer(before.layer(old_cache), step_size),
                p,
            ) && !after.contains(new_cache, p) ==> evolve(
                &self.rule,
                before.grid(old_cache),
                step_size as nat,
            )(p) == 0
    }

    /// The layer at which the expansions stop: the margin `2^x - 2^a`
    /// reaches `2^s` at `x`, and did not at `x - 1` unless `x - 1` is `a`,
    /// exactly where `x` is the greater of `s + 1` and `a + 1`.
    pub proof fn lemma_stepped(a: nat, s: nat, x: nat)
        requires
            x >= a + 1,
            pow2(x) - pow2(a) >= pow2(s),
            x > a + 1 ==> pow2((x - 1) as nat) - pow2(a) < pow2(s),
        ensures
            x == (if s + 1 > a + 1 {
                s + 1
            } else {
                a + 1
            }),
    {
        lemma_pow2_pos(a);
        lemma_pow2_pos(s);
        lemma_pow2_unfold(x);
        if x == a + 1 {
            if s > a {
                lemma_pow2_strictly_increases(a, s);
            }
        } else {
            lemma_pow2_unfold((x - 1) as nat);
            if x - 2 > a {
                lemma_pow2_strictly_increases(a, (x - 2) as nat);
            }
            if x - 2 > s {
                lemma_pow2_strictly_increases(s, (x - 2) as nat);
            }
            if x < s {
                lemma_pow2_strictly_increases(x, s);
            }
        }
    }

    /// Expands the tree until everything that the pattern can reach within
    /// `target` cells lies in the root, and once more, so that it lies in
    /// the inner node of the root. Returns the width of the margin that was
    /// gained before the last expansion.
    fn expand_for(
        &self,
        tree: &mut NdTree<D>,
        cache: &mut NodeCache<D>,
        target: &BigNum,
        Ghost(shift): Ghost<nat>,
    ) -> (dist: BigNum)
        requires
            old(tree).wf(old(cache)),
            target@ == pow2(shift),
        ensures
            final(tree).layer(final(cache)) == (if shift + 2 > old(tree).layer(old(cache)) + 1 {
                shift + 2
            } else {
                old(tree).layer(old(cache)) + 1
            }) + 1,
            old(tree).population_of(old(cache)) == 0 ==> final(cache).only_empty_added(old(cache)),
            final(tree).population_of(final(cache)) == old(tree).population_of(old(cache)),
            final(tree).wf(final(cache)),
            final(cache).extends(old(cache)),
            final(cache).same_results(old(cache)),
            forall|p: Seq<int>| #[trigger]
                final(tree).cell(final(cache), p) == old(tree).cell(old(cache), p),
            dist@ >= target@,
            final(tree).centre(final(cache)) == old(tree).centre(old(cache)),
            final(tree).layer(final(cache)) >= 3,
            pow2((final(tree).layer(final(cache)) - 2) as nat) == dist@ + pow2(
                (old(tree).layer(old(cache)) - 1) as nat,
            ),
            forall|k: int|
                0 <= k < D ==> final(tree).offset@[k] == old(tree).offset@[k] - dist@ - pow2(
                    (final(tree).layer(final(cache)) - 2) as nat,
                ),
    {
        let mut dist = BigNum::zero();
        let ghost first = old(tree).layer(old(cache));
        let ghost empty = old(tree).population_of(old(cache)) == 0;
        proof {
            cache.lemma_layer_bound(tree.root);
            lemma_pow2_pos(shift);
        }
        while dist.lt(target)
            invariant
                tree.wf(cache),
                cache.extends(old(cache)),
                cache.same_results(old(cache)),
                target@ == pow2(shift),
                tree.population_of(cache) == old(tree).population_of(old(cache)),
                empty == (old(tree).population_of(old(cache)) == 0),
                empty ==> cache.only_empty_added(old(cache)),
                tree.layer(cache) > first + 1 ==> pow2((tree.layer(cache) - 2) as nat) - pow2(
                    (first - 1) as nat,
                ) < target@,
                forall|p: Seq<int>| #[trigger]
                    tree.cell(cache, p) == old(tree).cell(old(cache), p),
                first == old(tree).layer(old(cache)),
                first >= 1,
                tree.layer(cache) >= first,
                tree.centre(cache) == old(tree).centre(old(cache)),
                dist@ >= 0,
                dist@ == 0 <==> tree.layer(cache) == first,
                dist@ + pow2((first - 1) as nat) == pow2((tree.layer(cache) - 1) as nat),
                forall|k: int| 0 <= k < D ==> tree.offset@[k] == old(tree).offset@[k] - dist@,
            decreases
                    (if target@ > dist@ {
                        target@ - dist@
                    } else {
                        0
                    }),
        {
            let ghost cells = *tree;
            let ghost nodes = *cache;
            let ghost layer = tree.layer(cache);
            tree.expand(cache);
            let margin = BigNum::pow2(tree.root_layer(cache) - 2);
            dist = dist.add(&margin);
            proof {
                if empty {
                    cache.lemma_only_empty_twice(&nodes, old(cache));
                }
                lemma_pow2_pos((layer - 1) as nat);
                lemma_pow2_unfold(layer);
                assert forall|p: Seq<int>| #[trigger]
                    tree.cell(cache, p) == old(tree).cell(old(cache), p) by {
                    assert(tree.cell(cache, p) == cells.cell(&nodes, p));
                }
            }
        }
        let ghost cells = *tree;
        let ghost nodes = *cache;
        let ghost layer = tree.layer(cache);
        tree.expand(cache);
        proof {
            if empty {
                cache.lemma_only_empty_twice(&nodes, old(cache));
            }
            lemma_pow2_pos((first - 1) as nat);
            Self::lemma_stepped((first - 1) as nat, shift, (layer - 1) as nat);
            assert forall|p: Seq<int>| #[trigger]
                tree.cell(cache, p) == old(tree).cell(old(cache), p) by {
                assert(tree.cell(cache, p) == cells.cell(&nodes, p));
            }
        }
        dist
    }

    /// Advances the tree by `step_size` generations and keeps what the
    /// cache has memoized.
    ///
    /// The tree is expanded so far that nothing within the time reaches the
    /// border of the inner node of its root; the inner node is advanced and
    /// becomes the root; and the tree is shrunk as far as it goes. Every
    /// cell in the cube of the new root is the cell of the old grid after
    /// `step_size` generations; what the shrinking left out of the cube
    /// that was computed is empty in that grid; and under a rule that leaves
    /// empty space empty every cell outside the new root is. Where the tree
    /// is empty under such a rule, every node that is interned is an empty
    /// node.
    pub fn step_with_memo(
        &self,
        tree: &mut NdTree<D>,
        cache: &mut NodeCache<D>,
        step_size: &BigNum,
    ) -> (r: Result<(), SimError>)
        requires
            self.wf(),
            old(tree).wf(old(cache)),
            self.memo_sound(old(cache)),
        ensures
            final(tree).wf(final(cache)),
            final(cache).extends(old(cache)),
            self.memo_sound(final(cache)),
            step_size@ <= 0 ==> r == Err::<(), SimError>(SimError::InvalidStepSize),
            step_size@ > 0 && !self.step_fits(step_size@) ==> r == Err::<(), SimError>(
                SimError::CacheExhausted,
            ),
            r is Ok <==> step_size@ > 0 && self.step_fits(step_size@),
            r is Err ==> *final(tree) == *old(tree) && *final(cache) == *old(cache),
            r is Ok ==> final(tree).centre(final(cache)) == old(tree).centre(old(cache))
                && final(tree).is_shrunk(final(cache)),
            r is Ok ==> self.left_out_is_empty(
                old(tree),
                old(cache),
                final(tree),
                final(cache),
                step_size@,
            ),
            r is Ok && !self.b0 && old(tree).population_of(old(cache)) == 0 ==> final(cache).only_empty_added(old(cache)),
            r is Ok ==> forall|p: Seq<int>|
                p.len() == D && #[trigger] final(tree).contains(final(cache), p) ==> final(tree).cell(
                    final(cache),
                    p,
                ) == evolve(&self.rule, old(tree).grid(old(cache)), step_size@ as nat)(p),
            r is Ok && !self.b0 ==> forall|p: Seq<int>|
                p.len() == D ==> #[trigger] final(tree).cell(final(cache), p) == evolve(
                    &self.rule,
                    old(tree).grid(old(cache)),
                    step_size@ as nat,
                )(p),
    {
        let shift = match self.step_shift(step_size) {
            Ok(shift) => shift,
            Err(e) => {
                return Err(e);
            },
        };
        let target = BigNum::pow2(shift);
        let ghost before = old(tree).grid(old(cache));
        let ghost start = *old(tree);
        let ghost t = step_size@ as nat;
        proof {
            lemma_pow2_pos(shift as nat);
        }
        let dist = self.expand_for(tree, cache, &target, Ghost(shift as nat));
        let root = tree.root;
        let layer = cache.layer(root);
        let ghost wide = *tree;
        let ghost nodes = *cache;
        proof {
            self.lemma_memo_extends(cache, old(cache));
            old(cache).lemma_layer_bound(start.root);
            self.lemma_step_layer(
                step_size@,
                shift as nat,
                dist@,
                layer as nat,
                start.layer(old(cache)),
            );
        }
        let ghost empty = !self.b0 && start.population_of(old(cache)) == 0;
        let result = self.advance_inner_node(cache, root, step_size);
        proof {
            if empty {
                assert(cache.only_empty_added(old(cache)));
            }
        }
        let quarter = BigNum::pow2(layer - 2);
        tree.offset = tree.offset.add_scalar(&quarter);
        tree.root = result;
        let ghost moved = *tree;
        let ghost grown = *cache;
        proof {
            lemma_pow2_unfold((layer - 1) as nat);
            assert(moved.centre(&grown) =~= wide.centre(&nodes)) by {
                crate::region::lemma_shows_valid(
                    cache,
                    result,
                    (layer - 1) as nat,
                    evolve(&self.rule, node_grid(cache, root), t),
                    fill(D as nat, side((layer - 2) as nat)),
                );
            }
            crate::region::lemma_shows_valid(
                cache,
                result,
                (layer - 1) as nat,
                evolve(&self.rule, node_grid(cache, root), t),
                fill(D as nat, side((layer - 2) as nat)),
            );
            assert forall|p: Seq<int>| p.len() == D implies (moved.contains(&grown, p)
                ==> #[trigger] moved.cell(&grown, p) == evolve(&self.rule, before, t)(p)) && (
            !self.b0 ==> moved.cell(&grown, p) == evolve(&self.rule, before, t)(p)) by {
                lemma_node_grid_extends(&grown, &nodes, root);
                self.lemma_step_point(
                    &start,
                    old(cache),
                    &wide,
                    &nodes,
                    &moved,
                    &grown,
                    step_size@,
                    shift as nat,
                    dist@,
                    p,
                );
            }
        }
        tree.shrink(cache);
        proof {
            self.lemma_memo_extends(cache, &grown);
            if empty {
                cache.lemma_only_empty_twice(&grown, old(cache));
            }
            assert(moved.layer(&grown) == self.stepped_layer(
                start.layer(old(cache)),
                step_size@,
            ));
            assert forall|p: Seq<int>|
                p.len() == D && #[trigger] crate::ndtree::box_contains(
                    start.centre(old(cache)),
                    self.stepped_layer(start.layer(old(cache)), step_size@),
                    p,
                ) && !tree.contains(cache, p) implies evolve(&self.rule, before, t)(p) == 0 by {
                moved.lemma_contains_box(&grown, p);
                assert(moved.contains(&grown, p));
                assert(tree.cell(cache, p) == moved.cell(&grown, p));
            }
            assert forall|p: Seq<int>| p.len() == D && #[trigger] tree.contains(cache, p)
                implies tree.cell(cache, p) == evolve(&self.rule, before, t)(p) by {
                assert(moved.contains(&grown, p));
                assert(tree.cell(cache, p) == moved.cell(&grown, p));
            }
            if !self.b0 {
                assert forall|p: Seq<int>| p.len() == D implies #[trigger] tree.cell(cache, p)
                    == evolve(&self.rule, before, t)(p) by {
                    assert(tree.cell(cache, p) == moved.cell(&grown, p));
                }
            }
        }
        Ok(())
    }

    /// Advances the tree by `step_size` generations, which must be
    /// positive. What the cache had memoized is forgotten first, so that no
    /// result of another rule is taken for one of this rule. Where the step
    /// is refused, nothing changes.
    pub fn step(&self, tree: &mut NdTree<D>, cache: &mut NodeCache<D>, step_size: &BigNum) -> (r:
        Result<(), SimError>)
        requires
            self.wf(),
            old(tree).wf(old(cache)),
        ensures
            final(tree).wf(final(cache)),
            final(cache).extends(old(cache)),
            step_size@ <= 0 ==> r == Err::<(), SimError>(SimError::InvalidStepSize),
            step_size@ > 0 && !self.step_fits(step_size@) ==> r == Err::<(), SimError>(
                SimError::CacheExhausted,
            ),
            r is Ok <==> step_size@ > 0 && self.step_fits(step_size@),
            r is Err ==> *final(tree) == *old(tree) && *final(cache) == *old(cache),
            r is Ok ==> self.memo_sound(final(cache)),
            r is Ok ==> final(tree).centre(final(cache)) == old(tree).centre(old(cache))
                && final(tree).is_shrunk(final(cache)),
            r is Ok ==> self.left_out_is_empty(
                old(tree),
                old(cache),
                final(tree),
                final(cache),
                step_size@,
            ),
            r is Ok && !self.b0 && old(tree).population_of(old(cache)) == 0 ==> final(cache).only_empty_added(old(cache)),
            r is Ok ==> forall|p: Seq<int>|
                p.len() == D && #[trigger] final(tree).contains(final(cache), p) ==> final(tree).cell(
                    final(cache),
                    p,
                ) == evolve(&self.rule, old(tree).grid(old(cache)), step_size@ as nat)(p),
            r is Ok && !self.b0 ==> forall|p: Seq<int>|
                p.len() == D ==> #[trigger] final(tree).cell(final(cache), p) == evolve(
                    &self.rule,
                    old(tree).grid(old(cache)),
                    step_size@ as nat,
                )(p),
    {
        match self.step_shift(step_size) {
            Ok(_) => {},
            Err(e) => {
                return Err(e);
            },
        }
        cache.clear_results();
        let ghost cleared = *cache;
        proof {
            assert(tree.grid(cache) =~= old(tree).grid(old(cache)));
            assert(tree.centre(cache) =~= old(tree).centre(old(cache)));
        }
        let r = self.step_with_memo(tree, cache, step_size);
        proof {
            if r is Ok {
                if !self.b0 && old(tree).population_of(old(cache)) == 0 {
                    assert(cache.only_empty_added(&cleared));
                    assert(cache.only_empty_added(old(cache)));
                }
            }
        }
        r
    }

    /// After the expansions the root is large enough for the step: its
    /// layer is at least the minimum layer, the step size is no more than
    /// `2^(layer - min_layer)`, and nothing reaches further within the time
    /// than the margin gained.
    pub proof fn lemma_step_layer(
        &self,
        step_size: int,
        shift: nat,
        dist: int,
        layer: nat,
        first: nat,
    )
        requires
            self.wf(),
            step_size > 0,
            shift == crate::big::bit_length(step_size) + self.min_layer - 2,
            step_size < pow2(crate::big::bit_length(step_size)),
            dist >= pow2(shift),
            layer >= 3,
            first >= 1,
            pow2((layer - 2) as nat) == dist + pow2((first - 1) as nat),
        ensures
            layer >= self.min_layer,
            step_size <= pow2((layer - self.min_layer) as nat),
            reach(&self.rule, step_size as nat) <= dist,
    {
        let bits = crate::big::bit_length(step_size);
        let quarter = (self.min_layer - 2) as nat;
        lemma_pow2_pos((first - 1) as nat);
        lemma_pow2_adds(quarter, bits);
        if layer - 2 <= shift {
            if layer - 2 < shift {
                lemma_pow2_strictly_increases((layer - 2) as nat, shift);
            }
        }
        assert(layer - 2 > shift);
        if bits < layer - self.min_layer {
            lemma_pow2_strictly_increases(bits, (layer - self.min_layer) as nat);
        }
        let r = self.rule.radius_spec() as int;
        let a = pow2(quarter) as int;
        let b = pow2(bits) as int;
        assert(r * step_size <= a * b) by (nonlinear_arith)
            requires
                0 <= r <= a,
                0 <= step_size <= b,
        ;
    }

    /// The heart of the step: at a point `p`, the tree whose root is the
    /// advanced inner node holds the cell of the old grid after the step,
    /// where `p` lies in its cube, and everywhere under a rule that leaves
    /// empty space empty.
    pub proof fn lemma_step_point(
        &self,
        start: &NdTree<D>,
        first: &NodeCache<D>,
        wide: &NdTree<D>,
        nodes: &NodeCache<D>,
        moved: &NdTree<D>,
        grown: &NodeCache<D>,
        step_size: int,
        shift: nat,
        dist: int,
        p: Seq<int>,
    )
        requires
            self.wf(),
            step_size > 0,
            p.len() == D,
            start.wf(first),
            wide.wf(nodes),
            nodes.extends(first),
            grown.wf(),
            grown.extends(nodes),
            forall|q: Seq<int>| #[trigger] wide.cell(nodes, q) == start.cell(first, q),
            wide.layer(nodes) >= 3,
            pow2((wide.layer(nodes) - 2) as nat) == dist + pow2((start.layer(first) - 1) as nat),
            forall|k: int|
                0 <= k < D ==> wide.offset@[k] == start.offset@[k] - dist - pow2(
                    (wide.layer(nodes) - 2) as nat,
                ),
            reach(&self.rule, step_size as nat) <= dist,
            self.advanced(grown, wide.root, moved.root, step_size),
            node_grid(grown, wide.root) == node_grid(nodes, wide.root),
            moved.offset.wf(),
            forall|k: int|
                0 <= k < D ==> moved.offset@[k] == wide.offset@[k] + pow2(
                    (wide.layer(nodes) - 2) as nat,
                ),
        ensures
            moved.contains(grown, p) ==> moved.cell(grown, p) == evolve(
                &self.rule,
                start.grid(first),
                step_size as nat,
            )(p),
            !self.b0 ==> moved.cell(grown, p) == evolve(
                &self.rule,
                start.grid(first),
                step_size as nat,
            )(p),
    {
        reveal(shows);
        let t = step_size as nat;
        let before = start.grid(first);
        let own = node_grid(nodes, wide.root);
        let layer = wide.layer(nodes);
        let h = side((layer - 2) as nat);
        let back = Seq::new(D as nat, |k: int| -wide.offset@[k]);
        lemma_pow2_pos((layer - 2) as nat);
        lemma_pow2_unfold((layer - 1) as nat);
        lemma_pow2_unfold(layer);
        first.lemma_layer_bound(start.root);
        lemma_pow2_unfold(start.layer(first));
        assert forall|q: Seq<int>| #[trigger]
            within(q, p, reach(&self.rule, t)) implies before(q) == own(vec_add(q, back)) by {
            assert(vec_add(q, back) =~= vec_sub(q, wide.offset@));
            assert(before(q) == wide.cell(nodes, q));
        }
        lemma_evolve_local(&self.rule, before, own, back, t, p);
        let rel = vec_sub(p, moved.offset@);
        if moved.contains(grown, p) {
            assert(vec_add(rel, fill(D as nat, h)) =~= vec_add(p, back));
        } else if !self.b0 {
            assert forall|q: Seq<int>| #[trigger]
                within(q, p, reach(&self.rule, t)) implies before(q) == 0 by {
                if start.contains(first, q) {
                    let inner = vec_sub(q, start.offset@);
                    assert forall|k: int| 0 <= k < D implies 0 <= #[trigger] rel[k] < side(
                        (layer - 1) as nat,
                    ) by {
                        assert(0 <= inner[k] < side(start.layer(first)));
                        assert(-reach(&self.rule, t) <= q[k] - p[k] <= reach(&self.rule, t));
                        assert(rel[k] == p[k] - moved.offset@[k]);
                        assert(inner[k] == q[k] - start.offset@[k]);
                    }
                    assert(false);
                }
            }
            lemma_evolve_far(&self.rule, before, t, p);
        }
    }
}

/// Where the advanced inner node of window `j` lies: the start of the
/// window, `digit * side / 4` along each axis, and an eighth of the side
/// further in.
pub open spec fn third_at(j: int, d: nat, layer: nat) -> Seq<int> {
    vec_add(scaled(unflat(j, 3, d), side((layer - 2) as nat)), fill(d, side((layer - 3) as nat)))
}

/// The number of the window that child `c` of the joined node `q` comes
/// from: the digits of `q` and of `c` added.
pub open spec fn third_index(q: int, c: int, d: nat) -> int {
    crate::index::flat(Seq::new(d, |k: int| unflat(q, 2, d)[k] + unflat(c, 2, d)[k]), 3)
}

/// The window that child `c` of the joined node `q` comes from lies where
/// that child lies.
pub proof fn lemma_third_index(q: int, c: int, d: nat, layer: nat)
    requires
        layer >= 3,
    ensures
        0 <= third_index(q, c, d) < pow(3, d),
        third_at(third_index(q, c, d), d, layer) =~= vec_add(
            vec_add(scaled(unflat(q, 2, d), side((layer - 2) as nat)), fill(d, side((layer - 3) as nat))),
            scaled(unflat(c, 2, d), side((layer - 2) as nat)),
        ),
{
    let h = side((layer - 2) as nat);
    let qd = unflat(q, 2, d);
    let cd = unflat(c, 2, d);
    let sum = Seq::new(d, |k: int| unflat(q, 2, d)[k] + unflat(c, 2, d)[k]);
    crate::index::lemma_unflat_in_cube(q, 2, d);
    crate::index::lemma_unflat_in_cube(c, 2, d);
    assert(in_cube(sum, d, 3));
    crate::index::lemma_flat_bound(sum, 3);
    crate::index::lemma_unflat_flat(sum, 3);
    let lhs = third_at(third_index(q, c, d), d, layer);
    let rhs = vec_add(
        vec_add(scaled(qd, h), fill(d, side((layer - 3) as nat))),
        scaled(cd, h),
    );
    assert forall|k: int| 0 <= k < d implies #[trigger] lhs[k] == rhs[k] by {
        assert(sum[k] == qd[k] + cd[k]);
        assert((qd[k] + cd[k]) * h == qd[k] * h + cd[k] * h) by (nonlinear_arith);
    }
}

/// `kid` is the advanced inner node of the window that child `c` of joined
/// node `q` comes from.
pub open spec fn gathered(thirds: Seq<NodeId>, kid: NodeId, q: int, c: int, d: nat) -> bool {
    &&& 0 <= third_index(q, c, d) < thirds.len()
    &&& kid == thirds[third_index(q, c, d)]
}

/// `3^D`.
fn three_to<const D: usize>() -> (n: usize)
    requires
        1 <= D <= 6,
    ensures
        n == pow(3, D as nat),
{
    proof {
        reveal_with_fuel(pow, 7);
    }
    if D == 1 {
        3
    } else if D == 2 {
        9
    } else if D == 3 {
        27
    } else if D == 4 {
        81
    } else if D == 5 {
        243
    } else {
        729
    }
}

/// The advanced inner nodes of the windows that joined node `q` is made
/// of, in the order of its children.
fn gather_thirds<const D: usize>(thirds: &Vec<NodeId>, q: usize) -> (kids: Vec<NodeId>)
    requires
        1 <= D <= 6,
        thirds@.len() == pow(3, D as nat),
        q < pow2(D as nat),
    ensures
        kids@.len() == pow2(D as nat),
        forall|c: int|
            0 <= c < pow2(D as nat) ==> gathered(thirds@, #[trigger] kids@[c], q as int, c, D as nat),
{
    let n = NodeCache::<D>::branching_factor();
    let qd = decode(q, 2, D);
    let mut kids: Vec<NodeId> = Vec::new();
    let mut c: usize = 0;
    while c < n
        invariant
            1 <= D <= 6,
            n == pow2(D as nat),
            thirds@.len() == pow(3, D as nat),
            qd@.len() == D,
            ints(qd@) =~= unflat(q as int, 2, D as nat),
            in_cube(ints(qd@), D as nat, 2),
            c <= n,
            kids@.len() == c,
            forall|i: int|
                0 <= i < c ==> gathered(thirds@, #[trigger] kids@[i], q as int, i, D as nat),
        decreases n - c,
    {
        let cd = decode(c, 2, D);
        let mut sum: Vec<usize> = Vec::new();
        let mut k: usize = 0;
        while k < D
            invariant
                k <= D,
                qd@.len() == D,
                cd@.len() == D,
                in_cube(ints(qd@), D as nat, 2),
                in_cube(ints(cd@), D as nat, 2),
                sum@.len() == k,
                forall|i: int| 0 <= i < k ==> #[trigger] sum@[i] == qd@[i] + cd@[i],
            decreases D - k,
        {
            assert(ints(qd@)[k as int] < 2 && ints(cd@)[k as int] < 2);
            sum.push(qd[k] + cd[k]);
            k += 1;
        }
        proof {
            let spec_sum = Seq::new(
                D as nat,
                |k: int| unflat(q as int, 2, D as nat)[k] + unflat(c as int, 2, D as nat)[k],
            );
            assert forall|i: int| 0 <= i < D implies #[trigger] ints(sum@)[i] == spec_sum[i]
                && 0 <= ints(sum@)[i] < 3 by {
                assert(ints(qd@)[i] == unflat(q as int, 2, D as nat)[i]);
                assert(ints(cd@)[i] == unflat(c as int, 2, D as nat)[i]);
            }
            assert(ints(sum@) =~= spec_sum);
            crate::index::lemma_flat_bound(spec_sum, 3);
            assert(pow(3, D as nat) <= 729) by {
                reveal_with_fuel(pow, 7);
            }
            assert(third_index(q as int, c as int, D as nat) == crate::index::flat(spec_sum, 3));
        }
        let j = encode(&sum, 3);
        let ghost prior = kids@;
        kids.push(thirds[j]);
        proof {
            assert(gathered(thirds@, kids@[c as int], q as int, c as int, D as nat));
            assert forall|i: int| 0 <= i < c + 1 implies gathered(
                thirds@,
                #[trigger] kids@[i],
                q as int,
                i,
                D as nat,
            ) by {
                if i < c {
                    assert(prior[i] == kids@[i]);
                }
            }
        }
        c += 1;
    }
    kids
}

/// The point `origin + digits * step`.
fn add_digits<const D: usize>(origin: &Vec<usize>, digits: &Vec<usize>, step: usize) -> (r: Vec<
    usize,
>)
    requires
        origin@.len() == D,
        digits@.len() == D,
        forall|k: int| 0 <= k < D ==> origin@[k] + digits@[k] * step <= usize::MAX,
    ensures
        r@.len() == D,
        forall|k: int| 0 <= k < D ==> #[trigger] ints(r@)[k] == origin@[k] + digits@[k] * step,
{
    let mut r: Vec<usize> = Vec::new();
    let mut k: usize = 0;
    while k < D
        invariant
            k <= D,
            origin@.len() == D,
            digits@.len() == D,
            forall|k: int| 0 <= k < D ==> origin@[k] + digits@[k] * step <= usize::MAX,
            r@.len() == k,
            forall|j: int| 0 <= j < k ==> #[trigger] r@[j] == origin@[j] + digits@[j] * step,
        decreases D - k,
    {
        assert(origin@[k as int] + digits@[k as int] * step <= usize::MAX);
        assert(digits@[k as int] * step >= 0) by (nonlinear_arith)
            requires
                digits@[k as int] >= 0,
                step >= 0,
        ;
        r.push(origin[k] + digits[k] * step);
        k += 1;
    }
    r
}

} // verus!
