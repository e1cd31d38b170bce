//! The tree handle: a root node placed in the infinite grid.
//!
//! A tree names a root node of a cache and the position of the root's lower
//! corner. It stands for the grid that holds the cells of the root inside
//! the root's cube and zero everywhere else. The cache is handed to every
//! operation, so that several trees can share one.

use crate::big::BigNum;
use crate::cache::{lemma_node_cell_extends, Cell, NodeCache, NodeId};
use crate::index::{
    child_index, decode, in_cube, ints, same_low, scaled, shifted, side, unflat, vec_add,
    vec_sub,
};
use crate::ndrect::BigRect;
use crate::ndvec::BigVec;
use crate::node::{child_index_of, lemma_inner_population, live};
use vstd::arithmetic::power2::{lemma_pow2_pos, lemma_pow2_unfold, pow2};
use vstd::prelude::*;

verus! {

/// An N-dimensional generalization of a quadtree: a root node and the
/// position of its lower corner.
#[derive(Debug)]
pub struct NdTree<const D: usize> {
    /// The root node.
    pub root: NodeId,
    /// The position of the lower corner of the root.
    pub offset: BigVec<D>,
}

/// The point `p` lies in the cube of a root of layer `layer` with the
/// given centre.
pub open spec fn box_contains(centre: Seq<int>, layer: nat, p: Seq<int>) -> bool {
    &&& p.len() == centre.len()
    &&& forall|k: int|
        0 <= k < centre.len() ==> -side((layer - 1) as nat) <= #[trigger] p[k] - centre[k] < side(
            (layer - 1) as nat,
        )
}

/// How far `r` lies outside `0..s`: zero inside.
pub open spec fn axis_excess(r: int, s: int) -> int {
    if r < 0 {
        -r
    } else if r >= s {
        r - s + 1
    } else {
        0
    }
}

/// The sum over the axes of how far `rel` lies outside the cube of side `s`.
pub open spec fn excess(rel: Seq<int>, s: int) -> int {
    crate::cache::seq_sum(Seq::new(rel.len(), |k: int| axis_excess(rel[k], s)))
}

/// Two points of a cube that agree modulo its side are the same point.
pub proof fn lemma_same_low_in_cube(a: Seq<int>, b: Seq<int>, layer: nat)
    requires
        in_cube(a, a.len(), side(layer)),
        in_cube(b, a.len(), side(layer)),
    ensures
        same_low(a, b, layer) <==> a =~= b,
{
    if same_low(a, b, layer) {
        assert forall|k: int| 0 <= k < a.len() implies a[k] == b[k] by {
            vstd::arithmetic::div_mod::lemma_small_mod(a[k] as nat, pow2(layer));
            vstd::arithmetic::div_mod::lemma_small_mod(b[k] as nat, pow2(layer));
        }
    }
}

/// Growing a cube of side `2h` by `h` on every side makes a point lie no
/// further outside, and nearer where it was outside.
pub proof fn lemma_excess_shrinks(rel: Seq<int>, h: int)
    requires
        h >= 1,
    ensures
        0 <= excess(shifted(rel, h), 4 * h) <= excess(rel, 2 * h),
        !in_cube(rel, rel.len(), 2 * h) ==> excess(shifted(rel, h), 4 * h) < excess(rel, 2 * h),
        in_cube(rel, rel.len(), 2 * h) ==> in_cube(shifted(rel, h), rel.len(), 4 * h),
{
    let before = Seq::new(rel.len(), |k: int| axis_excess(rel[k], 2 * h));
    let moved = shifted(rel, h);
    let after = Seq::new(moved.len(), |k: int| axis_excess(moved[k], 4 * h));
    assert forall|k: int| 0 <= k < before.len() implies #[trigger] after[k] <= before[k] && 0
        <= after[k] by {
        assert(moved[k] == rel[k] + h);
    }
    crate::cache::lemma_seq_sum_pointwise(before, after);
    crate::cache::lemma_seq_sum_non_negative(after);
    if !in_cube(rel, rel.len(), 2 * h) {
        let k = choose|k: int| 0 <= k < rel.len() && !(0 <= #[trigger] rel[k] < 2 * h);
        assert(moved[k] == rel[k] + h);
        assert(after[k] < before[k]);
    }
}

impl<const D: usize> NdTree<D> {
    /// The tree names a node of the cache, and its offset has `D`
    /// coordinates.
    pub open spec fn wf(&self, cache: &NodeCache<D>) -> bool {
        &&& cache.wf()
        &&& cache.valid(self.root)
        &&& self.offset.wf()
    }

    /// The layer of the root.
    pub open spec fn layer(&self, cache: &NodeCache<D>) -> nat {
        cache.layer_of(self.root)
    }

    /// The point `p` lies in the cube of the root.
    pub open spec fn contains(&self, cache: &NodeCache<D>, p: Seq<int>) -> bool {
        in_cube(vec_sub(p, self.offset@), D as nat, side(self.layer(cache)))
    }

    /// The state of the cell at `p` in the grid that the tree stands for.
    pub open spec fn cell(&self, cache: &NodeCache<D>, p: Seq<int>) -> Cell {
        if self.contains(cache, p) {
            cache.cell(self.root, vec_sub(p, self.offset@))
        } else {
            0
        }
    }

    /// The centre of the cube of the root.
    pub open spec fn centre(&self, cache: &NodeCache<D>) -> Seq<int> {
        Seq::new(D as nat, |k: int| self.offset@[k] + side((self.layer(cache) - 1) as nat))
    }

    /// The point `p` lies in the inner half, along every axis, of the cube
    /// of the root.
    pub open spec fn inner_contains(&self, cache: &NodeCache<D>, p: Seq<int>) -> bool {
        in_cube(
            shifted(vec_sub(p, self.offset@), -side((self.layer(cache) - 2) as nat)),
            D as nat,
            side((self.layer(cache) - 1) as nat),
        )
    }

    /// The tree cannot be halved without the loss of a cell that is not
    /// zero: its root is of layer 1, or holds such a cell outside its inner
    /// half.
    pub open spec fn is_shrunk(&self, cache: &NodeCache<D>) -> bool {
        self.layer(cache) == 1 || exists|p: Seq<int>|
            #[trigger] self.contains(cache, p) && self.cell(cache, p) != 0 && !self.inner_contains(
                cache,
                p,
            )
    }

    /// The grid that the tree stands for.
    pub open spec fn grid(&self, cache: &NodeCache<D>) -> crate::evolve::Grid {
        |p: Seq<int>| self.cell(cache, p)
    }

    /// The number of cells of the tree that are not zero.
    pub open spec fn population_of(&self, cache: &NodeCache<D>) -> int {
        cache.population_of(self.root)
    }

    /// An empty tree of layer 1 centred on the origin.
    pub fn new(cache: &mut NodeCache<D>) -> (tree: Self)
        requires
            old(cache).wf(),
        ensures
            final(cache).wf(),
            final(cache).extends(old(cache)),
            final(cache).same_results(old(cache)),
            tree.wf(final(cache)),
            tree.layer(final(cache)) == 1,
            forall|k: int| 0 <= k < D ==> tree.offset@[k] == -1,
            forall|p: Seq<int>| #[trigger] tree.cell(final(cache), p) == 0,
            tree.population_of(final(cache)) == 0,
    {
        let root = cache.get_empty(1);
        let minus_one = BigNum::from_i64(-1);
        let offset = BigVec::repeat(&minus_one);
        NdTree { root, offset }
    }

    /// The root node.
    pub fn get_root(&self) -> (root: NodeId)
        ensures
            root == self.root,
    {
        self.root
    }

    /// Replaces the root node and keeps the offset.
    pub fn set_root(&mut self, new_root: NodeId)
        ensures
            final(self).root == new_root,
            final(self).offset == old(self).offset,
    {
        self.root = new_root;
    }

    /// Replaces the root node and moves the offset so that the centre of
    /// the root stays where it was.
    pub fn set_root_centered(&mut self, cache: &NodeCache<D>, new_root: NodeId)
        requires
            old(self).wf(cache),
            cache.valid(new_root),
        ensures
            final(self).wf(cache),
            final(self).root == new_root,
            forall|k: int|
                0 <= k < D ==> final(self).offset@[k] == old(self).offset@[k] + side(
                    (cache.layer_of(old(self).root) - 1) as nat,
                ) - side((cache.layer_of(new_root) - 1) as nat),
    {
        let old_half = BigNum::pow2(cache.layer(self.root) - 1);
        let new_half = BigNum::pow2(cache.layer(new_root) - 1);
        let delta = old_half.sub(&new_half);
        self.offset = self.offset.add_scalar(&delta);
        self.root = new_root;
    }

    /// The layer of the root.
    pub fn root_layer(&self, cache: &NodeCache<D>) -> (layer: usize)
        requires
            self.wf(cache),
        ensures
            layer == self.layer(cache),
            layer >= 1,
    {
        cache.layer(self.root)
    }

    /// The side of the cube of the root.
    pub fn len(&self, cache: &NodeCache<D>) -> (n: BigNum)
        requires
            self.wf(cache),
        ensures
            n@ == side(self.layer(cache)),
    {
        BigNum::pow2(cache.layer(self.root))
    }

    /// The number of cells of the tree that are not zero.
    pub fn population(&self, cache: &NodeCache<D>) -> (n: BigNum)
        requires
            self.wf(cache),
        ensures
            n@ == self.population_of(cache),
    {
        cache.population(self.root)
    }

    /// The rectangle that the cube of the root covers.
    pub fn rect(&self, cache: &NodeCache<D>) -> (r: BigRect<D>)
        requires
            self.wf(cache),
        ensures
            r.wf(),
            r.min@ == self.offset@,
            forall|k: int|
                0 <= k < D ==> #[trigger] r.max@[k] == self.offset@[k] + side(self.layer(cache))
                    - 1,
            forall|p: Seq<int>| #[trigger] r.contains(p) <==> self.contains(cache, p),
    {
        let edge = BigNum::pow2(cache.layer(self.root)).sub(&BigNum::from_i64(1));
        let min = self.offset.copy();
        let max = self.offset.add_scalar(&edge);
        let r = BigRect { min, max };
        proof {
            lemma_pow2_pos(self.layer(cache));
            assert forall|p: Seq<int>| #[trigger] r.contains(p) <==> self.contains(cache, p) by {
                let rel = vec_sub(p, self.offset@);
                if r.contains(p) {
                    assert forall|k: int| 0 <= k < D implies 0 <= #[trigger] rel[k] < side(
                        self.layer(cache),
                    ) by {
                        assert(r.min@[k] <= p[k] <= r.max@[k]);
                    }
                }
                if self.contains(cache, p) {
                    assert forall|k: int| 0 <= k < D implies r.min@[k] <= #[trigger] p[k]
                        <= r.max@[k] by {
                        assert(0 <= rel[k] < side(self.layer(cache)));
                    }
                }
            }
        }
        r
    }

    /// Whether `pos` lies in the cube of the root.
    pub fn contains_pos(&self, cache: &NodeCache<D>, pos: &BigVec<D>) -> (r: bool)
        requires
            self.wf(cache),
            pos.wf(),
        ensures
            r == self.contains(cache, pos@),
    {
        let rel = pos.sub(&self.offset);
        proof {
            assert(rel@ =~= vec_sub(pos@, self.offset@));
        }
        rel.in_cube(cache.layer(self.root))
    }

    /// A point lies in the cube of the root exactly when it lies in the
    /// cube of the layer of the root around the centre of the root.
    pub proof fn lemma_contains_box(&self, cache: &NodeCache<D>, p: Seq<int>)
        requires
            self.wf(cache),
        ensures
            self.contains(cache, p) <==> box_contains(self.centre(cache), self.layer(cache), p),
    {
        cache.lemma_layer_bound(self.root);
        lemma_pow2_unfold(self.layer(cache));
        let rel = vec_sub(p, self.offset@);
        let c = self.centre(cache);
        if self.contains(cache, p) {
            assert forall|k: int| 0 <= k < c.len() implies -side((self.layer(cache) - 1) as nat)
                <= #[trigger] p[k] - c[k] < side((self.layer(cache) - 1) as nat) by {
                assert(rel[k] == p[k] - self.offset@[k]);
            }
        }
        if box_contains(c, self.layer(cache), p) {
            assert forall|k: int| 0 <= k < rel.len() implies 0 <= #[trigger] rel[k] < side(
                self.layer(cache),
            ) by {
                assert(-side((self.layer(cache) - 1) as nat) <= p[k] - c[k]);
            }
        }
    }

    /// Where the offset moves back by `h` along every axis, a point moves
    /// forward by `h` relative to it; a point of the cube of side `2h` then
    /// lies in the middle of the cube of side `4h`.
    pub proof fn lemma_expand_point(p: Seq<int>, before: Seq<int>, after: Seq<int>, h: int)
        requires
            h >= 1,
            before.len() == D,
            after.len() == D,
            forall|k: int| 0 <= k < D ==> after[k] == before[k] - h,
        ensures
            p.len() == D ==> vec_sub(p, after) =~= shifted(vec_sub(p, before), h),
            p.len() == D ==> shifted(vec_sub(p, after), -h) =~= vec_sub(p, before),
            in_cube(vec_sub(p, before), D as nat, 2 * h) ==> in_cube(
                vec_sub(p, after),
                D as nat,
                4 * h,
            ),
            in_cube(shifted(vec_sub(p, after), -h), D as nat, 2 * h) ==> in_cube(
                vec_sub(p, after),
                D as nat,
                4 * h,
            ),
    {
        let rel = vec_sub(p, before);
        let moved = vec_sub(p, after);
        if in_cube(rel, D as nat, 2 * h) {
            assert forall|k: int| 0 <= k < D implies 0 <= #[trigger] moved[k] < 4 * h by {
                assert(moved[k] == rel[k] + h);
            }
        }
        if in_cube(shifted(moved, -h), D as nat, 2 * h) {
            assert forall|k: int| 0 <= k < D implies 0 <= #[trigger] moved[k] < 4 * h by {
                assert(shifted(moved, -h)[k] == moved[k] - h);
            }
        }
    }

    /// "Zooms out" of the tree by a factor of two: the root is replaced by
    /// a node one layer up that holds the old root in its centre, with a
    /// quarter of its side of empty space on every side.
    pub fn expand(&mut self, cache: &mut NodeCache<D>)
        requires
            old(self).wf(old(cache)),
        ensures
            final(self).wf(final(cache)),
            final(cache).extends(old(cache)),
            final(cache).same_results(old(cache)),
            final(self).layer(final(cache)) == old(self).layer(old(cache)) + 1,
            final(self).population_of(final(cache)) == old(self).population_of(old(cache)),
            final(self).centre(final(cache)) == old(self).centre(old(cache)),
            old(self).population_of(old(cache)) == 0 ==> final(cache).only_empty_added(old(cache)),
            forall|k: int|
                0 <= k < D ==> final(self).offset@[k] == old(self).offset@[k] - side(
                    (old(self).layer(old(cache)) - 1) as nat,
                ),
            forall|p: Seq<int>| #[trigger]
                final(self).cell(final(cache), p) == old(self).cell(old(cache), p),
            forall|p: Seq<int>|
                old(self).contains(old(cache), p) ==> #[trigger] final(self).contains(
                    final(cache),
                    p,
                ),
    {
        let layer = cache.layer(self.root);
        let new_root = cache.expand_node(self.root);
        let quarter = BigNum::pow2(layer - 1);
        let ghost before = self.offset@;
        self.offset = self.offset.sub_scalar(&quarter);
        self.root = new_root;
        proof {
            let h = side((layer - 1) as nat);
            lemma_pow2_pos((layer - 1) as nat);
            lemma_pow2_unfold(layer as nat);
            lemma_pow2_unfold((layer + 1) as nat);
            assert(self.centre(cache) =~= old(self).centre(old(cache)));
            assert forall|p: Seq<int>|
                (#[trigger] self.cell(cache, p)) == old(self).cell(old(cache), p) by {
                Self::lemma_expand_point(p, before, self.offset@, h);
            }
            assert forall|p: Seq<int>| old(self).contains(old(cache), p) implies #[trigger]
                self.contains(cache, p) by {
                Self::lemma_expand_point(p, before, self.offset@, h);
            }
        }
    }

    /// "Zooms out" until `pos` lies in the cube of the root, and returns
    /// the number of expansions that took.
    pub fn expand_to(&mut self, cache: &mut NodeCache<D>, pos: &BigVec<D>) -> (count: usize)
        requires
            old(self).wf(old(cache)),
            pos.wf(),
        ensures
            final(self).wf(final(cache)),
            final(cache).extends(old(cache)),
            final(cache).same_results(old(cache)),
            final(self).contains(final(cache), pos@),
            final(self).layer(final(cache)) == old(self).layer(old(cache)) + count,
            final(self).population_of(final(cache)) == old(self).population_of(old(cache)),
            final(self).centre(final(cache)) == old(self).centre(old(cache)),
            count == 0 <==> old(self).contains(old(cache), pos@),
            forall|j: nat|
                j < count ==> !#[trigger] box_contains(
                    old(self).centre(old(cache)),
                    old(self).layer(old(cache)) + j,
                    pos@,
                ),
            forall|p: Seq<int>| #[trigger]
                final(self).cell(final(cache), p) == old(self).cell(old(cache), p),
    {
        let mut count: usize = 0;
        while !self.contains_pos(cache, pos)
            invariant
                self.wf(cache),
                pos.wf(),
                cache.extends(old(cache)),
                cache.same_results(old(cache)),
                self.layer(cache) == old(self).layer(old(cache)) + count,
                self.population_of(cache) == old(self).population_of(old(cache)),
                count == 0 ==> self.contains(cache, pos@) == old(self).contains(old(cache), pos@),
                count > 0 ==> !old(self).contains(old(cache), pos@),
                self.centre(cache) == old(self).centre(old(cache)),
                forall|j: nat|
                    j < count ==> !#[trigger] box_contains(
                        old(self).centre(old(cache)),
                        old(self).layer(old(cache)) + j,
                        pos@,
                    ),
                forall|p: Seq<int>| #[trigger]
                    self.cell(cache, p) == old(self).cell(old(cache), p),
            decreases excess(vec_sub(pos@, self.offset@), side(self.layer(cache))),
        {
            let ghost rel = vec_sub(pos@, self.offset@);
            let ghost layer = self.layer(cache);
            let ghost cells = *self;
            let ghost nodes = *cache;
            proof {
                cache.lemma_layer_bound(self.root);
                self.lemma_contains_box(cache, pos@);
            }
            self.expand(cache);
            proof {
                let h = side((layer - 1) as nat);
                lemma_pow2_pos((layer - 1) as nat);
                lemma_pow2_unfold(layer);
                lemma_pow2_unfold(layer + 1);
                assert(vec_sub(pos@, self.offset@) =~= shifted(rel, h));
                lemma_excess_shrinks(rel, h);
                assert forall|p: Seq<int>| #[trigger]
                    self.cell(cache, p) == old(self).cell(old(cache), p) by {
                    assert(self.cell(cache, p) == cells.cell(&nodes, p));
                }
            }
            count += 1;
        }
        count
    }

    /// "Zooms in" as long as no cell that is not zero is lost: while the
    /// root is above layer 1 and its centred inner node has its whole
    /// population, that node becomes the root. Returns the number of times
    /// the tree was halved.
    pub fn shrink(&mut self, cache: &mut NodeCache<D>) -> (count: usize)
        requires
            old(self).wf(old(cache)),
        ensures
            final(self).wf(final(cache)),
            final(cache).extends(old(cache)),
            final(cache).same_results(old(cache)),
            final(self).layer(final(cache)) + count == old(self).layer(old(cache)),
            final(self).population_of(final(cache)) == old(self).population_of(old(cache)),
            final(self).centre(final(cache)) == old(self).centre(old(cache)),
            final(self).is_shrunk(final(cache)),
            old(self).population_of(old(cache)) == 0 ==> final(cache).only_empty_added(old(cache)),
            forall|p: Seq<int>| #[trigger]
                final(self).cell(final(cache), p) == old(self).cell(old(cache), p),
            forall|p: Seq<int>| #[trigger]
                final(self).contains(final(cache), p) ==> old(self).contains(old(cache), p),
    {
        let mut count: usize = 0;
        let mut layer = cache.layer(self.root);
        while layer > 1
            invariant
                layer == self.layer(cache),
                layer >= 1,
                self.wf(cache),
                self.centre(cache) == old(self).centre(old(cache)),
                cache.extends(old(cache)),
                cache.same_results(old(cache)),
                layer + count == old(self).layer(old(cache)),
                self.layer(cache) + count == old(self).layer(old(cache)),
                self.population_of(cache) == old(self).population_of(old(cache)),
                old(self).population_of(old(cache)) == 0 ==> cache.only_empty_added(old(cache)),
                forall|p: Seq<int>| #[trigger]
                    self.cell(cache, p) == old(self).cell(old(cache), p),
                forall|p: Seq<int>| #[trigger]
                    self.contains(cache, p) ==> old(self).contains(old(cache), p),
            ensures
                self.is_shrunk(cache),
            decreases layer,
        {
            let ghost cells = *self;
            let ghost nodes = *cache;
            let inner = cache.centered_inner(self.root);
            proof {
                if nodes.population_of(self.root) == 0 {
                    assert forall|x: Seq<int>|
                        in_cube(
                            x,
                            D as nat,
                            side(cache.layer_of(inner)),
                        ) implies #[trigger] crate::cache::node_cell(cache.nodes@, inner as int, x)
                        == 0 by {
                        let y = shifted(x, side((layer - 2) as nat));
                        assert(cache.cell(inner, x) == nodes.cell(self.root, y));
                        crate::cache::lemma_zero_population(
                            nodes.nodes@,
                            D as nat,
                            self.root as int,
                            y,
                        );
                    }
                    crate::laws::lemma_zero_cells_zero_population(
                        cache.nodes@,
                        D as nat,
                        inner as int,
                    );
                    cache.lemma_only_empty_step(&nodes, old(cache), inner);
                }
            }
            let same = cache.nodes[inner].population.equals(&cache.nodes[self.root].population);
            if !same {
                proof {
                    assert forall|p: Seq<int>| #[trigger]
                        self.cell(cache, p) == old(self).cell(old(cache), p) by {
                        lemma_node_cell_extends(
                            cache.nodes@,
                            nodes.nodes@,
                            D as nat,
                            self.root as int,
                            vec_sub(p, self.offset@),
                        );
                        assert(self.cell(cache, p) == cells.cell(&nodes, p));
                    }
                    assert forall|p: Seq<int>| #[trigger]
                        self.contains(cache, p) implies old(self).contains(old(cache), p) by {
                        assert(cells.contains(&nodes, p));
                    }
                    assert(self.centre(cache) =~= cells.centre(&nodes));
                    let q = crate::node::lemma_outer_cell(
                        cache.nodes@,
                        D as nat,
                        self.root as int,
                        inner as int,
                    );
                    let p = vec_add(q, self.offset@);
                    assert(vec_sub(p, self.offset@) =~= q);
                    assert(self.contains(cache, p) && self.cell(cache, p) != 0
                        && !self.inner_contains(cache, p));
                }
                break ;
            }
            let ghost root = self.root;
            let ghost before = self.offset@;
            self.set_root_centered(cache, inner);
            proof {
                let h = side((layer - 2) as nat);
                lemma_pow2_pos((layer - 2) as nat);
                lemma_pow2_unfold((layer - 1) as nat);
                lemma_pow2_unfold(layer as nat);
                assert(self.centre(cache) =~= cells.centre(&nodes));
                assert forall|p: Seq<int>|
                    (#[trigger] self.cell(cache, p)) == old(self).cell(old(cache), p) by {
                    let rel = vec_sub(p, before);
                    let moved = vec_sub(p, self.offset@);
                    lemma_node_cell_extends(cache.nodes@, nodes.nodes@, D as nat, root as int, rel);
                    assert(cells.cell(&nodes, p) == old(self).cell(old(cache), p));
                    Self::lemma_expand_point(p, self.offset@, before, h);
                    if p.len() == D {
                        if !in_cube(moved, D as nat, 2 * h) && in_cube(rel, D as nat, 4 * h) {
                            lemma_inner_population(
                                cache.nodes@,
                                D as nat,
                                root as int,
                                inner as int,
                                rel,
                            );
                        }
                    }
                }
                assert forall|p: Seq<int>| #[trigger]
                    self.contains(cache, p) implies old(self).contains(old(cache), p) by {
                    Self::lemma_expand_point(p, self.offset@, before, h);
                    assert(cells.contains(&nodes, p));
                }
            }
            layer -= 1;
            count += 1;
        }
        count
    }

    /// Moves the whole grid so that `pos` becomes the origin.
    pub fn recenter(&mut self, cache: &NodeCache<D>, pos: &BigVec<D>)
        requires
            old(self).wf(cache),
            pos.wf(),
        ensures
            final(self).wf(cache),
            final(self).root == old(self).root,
            forall|k: int| 0 <= k < D ==> final(self).offset@[k] == old(self).offset@[k] - pos@[k],
            forall|p: Seq<int>| #[trigger]
                final(self).cell(cache, p) == old(self).cell(cache, vec_add(p, pos@)),
    {
        let ghost before = self.offset@;
        self.offset = self.offset.sub(pos);
        proof {
            assert forall|p: Seq<int>| #[trigger]
                self.cell(cache, p) == old(self).cell(cache, vec_add(p, pos@)) by {
                if p.len() == D {
                    assert(vec_sub(p, self.offset@) =~= vec_sub(vec_add(p, pos@), before));
                } else {
                    assert(vec_add(p, pos@).len() == p.len());
                }
            }
        }
    }

    /// The state of the cell at `pos`: zero outside the cube of the root.
    pub fn get_cell(&self, cache: &NodeCache<D>, pos: &BigVec<D>) -> (c: Cell)
        requires
            self.wf(cache),
            pos.wf(),
        ensures
            c == self.cell(cache, pos@),
    {
        let rel = pos.sub(&self.offset);
        proof {
            assert(rel@ =~= vec_sub(pos@, self.offset@));
        }
        if rel.in_cube(cache.layer(self.root)) {
            cache.cell_at(self.root, &rel)
        } else {
            0
        }
    }

    /// Sets the state of the cell at `pos`: the tree is expanded until its
    /// root holds `pos`, and the path from the root to the cell is rebuilt.
    pub fn set_cell(&mut self, cache: &mut NodeCache<D>, pos: &BigVec<D>, state: Cell)
        requires
            old(self).wf(old(cache)),
            pos.wf(),
        ensures
            final(self).wf(final(cache)),
            final(cache).extends(old(cache)),
            final(cache).same_results(old(cache)),
            forall|p: Seq<int>| #[trigger]
                final(self).cell(final(cache), p) == (if p == pos@ {
                    state
                } else {
                    old(self).cell(old(cache), p)
                }),
            final(self).population_of(final(cache)) == old(self).population_of(old(cache)) - live(
                old(self).cell(old(cache), pos@),
            ) + live(state),
            final(self).centre(final(cache)) == old(self).centre(old(cache)),
            final(self).layer(final(cache)) >= old(self).layer(old(cache)),
            final(self).contains(final(cache), pos@),
            forall|j: nat|
                old(self).layer(old(cache)) + j < final(self).layer(final(cache))
                    ==> !#[trigger] box_contains(
                    old(self).centre(old(cache)),
                    old(self).layer(old(cache)) + j,
                    pos@,
                ),
    {
        self.expand_to(cache, pos);
        let rel = pos.sub(&self.offset);
        let ghost cells = *self;
        let ghost nodes = *cache;
        let ghost layer = self.layer(cache);
        proof {
            assert(rel@ =~= vec_sub(pos@, self.offset@));
            assert(cells.cell(&nodes, pos@) == old(self).cell(old(cache), pos@));
        }
        let new_root = cache.with_cell(self.root, &rel, state);
        self.root = new_root;
        proof {
            assert forall|p: Seq<int>| #[trigger]
                self.cell(cache, p) == (if p == pos@ {
                    state
                } else {
                    old(self).cell(old(cache), p)
                }) by {
                assert(cells.cell(&nodes, p) == old(self).cell(old(cache), p));
                let r = vec_sub(p, self.offset@);
                if in_cube(r, D as nat, side(layer)) {
                    lemma_same_low_in_cube(r, rel@, layer);
                    if r =~= rel@ {
                        assert(p =~= pos@) by {
                            assert forall|k: int| 0 <= k < D implies p[k] == pos@[k] by {
                                assert(r[k] == rel@[k]);
                            }
                        }
                    }
                } else {
                    assert(p != pos@);
                }
            }
        }
    }

    /// The smallest subtree whose cube holds the whole of `rect`: the tree
    /// itself where its root does not hold both corners of `rect`. The
    /// slice is a tree of its own on the same cache; nothing is changed.
    pub fn slice_containing(&self, cache: &NodeCache<D>, rect: &BigRect<D>) -> (slice: NdTree<D>)
        requires
            self.wf(cache),
            rect.wf(),
        ensures
            slice.wf(cache),
            self.contains(cache, rect.min@) && self.contains(cache, rect.max@) ==> forall|
                p: Seq<int>,
            | #[trigger] rect.contains(p) ==> slice.contains(cache, p),
            slice_of(self, cache, &slice, rect.min@, rect.max@),
    {
        let slice = self.slice_between(cache, &rect.min, &rect.max);
        proof {
            if self.contains(cache, rect.min@) && self.contains(cache, rect.max@) {
                assert forall|p: Seq<int>| #[trigger] rect.contains(p) implies slice.contains(
                    cache,
                    p,
                ) by {
                    let low = vec_sub(rect.min@, slice.offset@);
                    let high = vec_sub(rect.max@, slice.offset@);
                    let rel = vec_sub(p, slice.offset@);
                    assert forall|k: int| 0 <= k < D implies 0 <= #[trigger] rel[k] < side(
                        slice.layer(cache),
                    ) by {
                        assert(rect.min@[k] <= p[k] <= rect.max@[k]);
                        assert(0 <= low[k]);
                        assert(high[k] < side(slice.layer(cache)));
                    }
                }
            }
        }
        slice
    }

    /// The smallest subtree whose cube holds both `min` and `max`: the
    /// tree itself where its root does not hold both, else the node reached
    /// from the root by going down for as long as both lie in the same
    /// child.
    pub fn slice_between(&self, cache: &NodeCache<D>, min: &BigVec<D>, max: &BigVec<D>) -> (slice:
        NdTree<D>)
        requires
            self.wf(cache),
            min.wf(),
            max.wf(),
        ensures
            slice.wf(cache),
            slice.layer(cache) <= self.layer(cache),
            on_lattice(slice.offset@, self.offset@, slice.layer(cache)),
            forall|p: Seq<int>| #[trigger]
                slice.contains(cache, p) ==> self.contains(cache, p) && slice.cell(cache, p)
                    == self.cell(cache, p),
            !(self.contains(cache, min@) && self.contains(cache, max@)) ==> slice.root == self.root
                && slice.offset@ == self.offset@,
            self.contains(cache, min@) && self.contains(cache, max@) ==> {
                &&& slice.contains(cache, min@)
                &&& slice.contains(cache, max@)
                &&& slice.layer(cache) == 1 || child_index(
                    vec_sub(min@, slice.offset@),
                    slice.layer(cache),
                ) != child_index(vec_sub(max@, slice.offset@), slice.layer(cache))
            },
    {
        let mut layer = cache.layer(self.root);
        let mut node = self.root;
        let mut offset = self.offset.copy();
        let mut low = min.sub(&offset);
        let mut high = max.sub(&offset);
        proof {
            assert(low@ =~= vec_sub(min@, self.offset@));
            assert(high@ =~= vec_sub(max@, self.offset@));
        }
        proof {
            lemma_pow2_pos(layer as nat);
            vstd::arithmetic::div_mod::lemma_small_mod(0, pow2(layer as nat));
            assert forall|k: int| 0 <= k < D implies ((#[trigger] offset@[k]) - self.offset@[k])
                % side(layer as nat) == 0 && offset@[k] >= self.offset@[k] by {
                assert(offset@[k] == self.offset@[k]);
            }
        }
        if !(low.in_cube(layer) && high.in_cube(layer)) {
            return NdTree { root: node, offset };
        }
        proof {
            assert forall|x: Seq<int>|
                in_cube(x, D as nat, side(layer as nat)) implies held(self, cache, node, offset@, x) by {
                assert(vec_sub(vec_add(x, offset@), self.offset@) =~= x);
            }
        }
        while layer > 1
            invariant
                self.wf(cache),
                min.wf(),
                max.wf(),
                offset.wf(),
                low.wf(),
                high.wf(),
                cache.valid(node),
                cache.layer_of(node) == layer,
                layer >= 1,
                layer <= self.layer(cache),
                low@ == vec_sub(min@, offset@),
                high@ == vec_sub(max@, offset@),
                on_lattice(offset@, self.offset@, layer as nat),
                in_cube(low@, D as nat, side(layer as nat)),
                in_cube(high@, D as nat, side(layer as nat)),
                self.contains(cache, min@),
                self.contains(cache, max@),
                forall|x: Seq<int>|
                    in_cube(x, D as nat, side(layer as nat)) ==> #[trigger] held(
                        self,
                        cache,
                        node,
                        offset@,
                        x,
                    ),
            ensures
                layer == 1 || child_index(low@, layer as nat) != child_index(high@, layer as nat),
            decreases layer,
        {
            let a = child_index_of(&low, layer);
            let b = child_index_of(&high, layer);
            if a != b {
                break ;
            }
            let digits = decode(a, 2, D);
            let half = BigNum::pow2(layer - 1);
            let zero = BigNum::zero();
            let mut step: Vec<BigNum> = Vec::new();
            let mut k: usize = 0;
            while k < D
                invariant
                    k <= D,
                    digits@.len() == D,
                    in_cube(ints(digits@), D as nat, 2),
                    half@ == side((layer - 1) as nat),
                    zero@ == 0,
                    step@.len() == k,
                    forall|j: int|
                        0 <= j < k ==> (#[trigger] step@[j])@ == digits@[j] * side(
                            (layer - 1) as nat,
                        ),
                decreases D - k,
            {
                assert(ints(digits@)[k as int] < 2);
                assert(1 * side((layer - 1) as nat) == side((layer - 1) as nat));
                assert(0 * side((layer - 1) as nat) == 0);
                if digits[k] == 1 {
                    step.push(half.copy());
                } else {
                    step.push(zero.copy());
                }
                k += 1;
            }
            let delta = BigVec::<D> { coords: step };
            let ghost before = offset@;
            let ghost h = side((layer - 1) as nat);
            let ghost moved = scaled(unflat(a as int, 2, D as nat), h);
            proof {
                assert(delta@ =~= moved) by {
                    assert forall|j: int| 0 <= j < D implies #[trigger] delta@[j] == moved[j] by {
                        assert(ints(digits@)[j] == unflat(a as int, 2, D as nat)[j]);
                    }
                }
                assert(crate::cache::entry_wf(cache.nodes@, node as int, D as nat));
            }
            let kid = cache.child(node, a);
            offset = offset.add(&delta);
            let ghost old_low = low@;
            let ghost old_high = high@;
            low = min.sub(&offset);
            high = max.sub(&offset);
            proof {
                assert(low@ =~= vec_sub(min@, offset@));
                assert(high@ =~= vec_sub(max@, offset@));
                lemma_pow2_pos((layer - 1) as nat);
                lemma_pow2_unfold(layer as nat);
                crate::index::lemma_unflat_in_cube(a as int, 2, D as nat);
                assert forall|j: int| 0 <= j < D implies ((#[trigger] offset@[j])
                    - self.offset@[j]) % h == 0 && offset@[j] >= self.offset@[j] by {
                    assert(offset@[j] == before[j] + moved[j]);
                    assert(moved[j] == unflat(a as int, 2, D as nat)[j] * h);
                    lemma_half_lattice(
                        before[j] - self.offset@[j],
                        unflat(a as int, 2, D as nat)[j],
                        h,
                    );
                }
                lemma_half_point(old_low, a as int, (layer - 1) as nat, D as nat);
                lemma_half_point(old_high, a as int, (layer - 1) as nat, D as nat);
                assert(low@ =~= vec_sub(old_low, moved));
                assert(high@ =~= vec_sub(old_high, moved));
                assert forall|x: Seq<int>|
                    in_cube(x, D as nat, side((layer - 1) as nat)) implies #[trigger] held(
                    self,
                    cache,
                    kid,
                    offset@,
                    x,
                ) by {
                    let y = vec_add(x, moved);
                    crate::index::lemma_child_point(x, a as int, (layer - 1) as nat, D as nat);
                    assert(held(self, cache, node, before, y));
                    assert(cache.cell(node, y) == cache.cell(kid, y));
                    crate::cache::lemma_node_cell_low(cache.nodes@, D as nat, kid as int, y, x);
                    assert(vec_add(y, before) =~= vec_add(x, offset@));
                }
            }
            node = kid;
            layer -= 1;
        }
        let slice = NdTree { root: node, offset };
        proof {
            assert forall|p: Seq<int>| #[trigger] slice.contains(cache, p) implies self.contains(
                cache,
                p,
            ) && slice.cell(cache, p) == self.cell(cache, p) by {
                let x = vec_sub(p, slice.offset@);
                assert(vec_add(x, slice.offset@) =~= p);
                assert(held(self, cache, node, offset@, x));
            }
        }
        slice
    }

    /// Sets the cells at the given positions to the given states, in
    /// order.
    pub fn set_cells(&mut self, cache: &mut NodeCache<D>, writes: &Vec<(BigVec<D>, Cell)>)
        requires
            old(self).wf(old(cache)),
            forall|i: int| 0 <= i < writes@.len() ==> (#[trigger] writes@[i]).0.wf(),
        ensures
            final(self).wf(final(cache)),
            final(cache).extends(old(cache)),
            final(cache).same_results(old(cache)),
            final(self).grid(final(cache)) == crate::laws::written(
                old(self).grid(old(cache)),
                writes_view(writes@),
            ),
    {
        let ghost start = old(self).grid(old(cache));
        let ghost all = writes_view(writes@);
        let mut i: usize = 0;
        proof {
            assert(all.subrange(0, 0) =~= Seq::<(Seq<int>, Cell)>::empty());
            assert(self.grid(cache) =~= start);
        }
        while i < writes.len()
            invariant
                self.wf(cache),
                cache.extends(old(cache)),
                cache.same_results(old(cache)),
                forall|i: int| 0 <= i < writes@.len() ==> (#[trigger] writes@[i]).0.wf(),
                all == writes_view(writes@),
                start == old(self).grid(old(cache)),
                i <= writes@.len(),
                self.grid(cache) == crate::laws::written(start, all.subrange(0, i as int)),
            decreases writes@.len() - i,
        {
            let ghost before = self.grid(cache);
            self.set_cell(cache, &writes[i].0, writes[i].1);
            proof {
                let done = all.subrange(0, i + 1);
                assert(done.drop_last() =~= all.subrange(0, i as int));
                assert(done.last() == (writes@[i as int].0@, writes@[i as int].1));
                assert(self.grid(cache) =~= crate::laws::written(start, done));
            }
            i += 1;
        }
        proof {
            assert(all.subrange(0, i as int) =~= all);
        }
    }
}

/// Along every axis, `offset` lies a whole number of sides of a node of
/// layer `layer` above `base`.
pub open spec fn on_lattice(offset: Seq<int>, base: Seq<int>, layer: nat) -> bool {
    &&& offset.len() == base.len()
    &&& forall|k: int|
        0 <= k < base.len() ==> ((#[trigger] offset[k]) - base[k]) % side(layer) == 0 && offset[k]
            >= base[k]
}

/// A multiple of `2h`, moved up by `h` or not at all, is a multiple of `h`.
pub proof fn lemma_half_lattice(a: int, d: int, h: int)
    requires
        h > 0,
        a >= 0,
        a % (2 * h) == 0,
        0 <= d <= 1,
    ensures
        (a + d * h) % h == 0,
        a + d * h >= 0,
{
    vstd::arithmetic::div_mod::lemma_fundamental_div_mod(a, 2 * h);
    let q = a / (2 * h);
    assert(a + d * h == (2 * q + d) * h) by (nonlinear_arith)
        requires
            a == (2 * h) * q,
    ;
    vstd::arithmetic::div_mod::lemma_mod_multiples_basic(2 * q + d, h);
    assert(d * h >= 0) by (nonlinear_arith)
        requires
            d >= 0,
            h > 0,
    ;
}

/// `slice` is the smallest subtree of `tree` whose cube holds both `min`
/// and `max`: a tree on the same cache that holds what `tree` holds
/// wherever its cube reaches, and lies where a node beneath the root of
/// `tree` lies, a whole number of its own sides from the corner of `tree`;
/// `tree` itself where the root of `tree` does not hold both points; and
/// else a node of layer 1, or one whose children do not hold both.
pub open spec fn slice_of<const D: usize>(
    tree: &NdTree<D>,
    cache: &NodeCache<D>,
    slice: &NdTree<D>,
    min: Seq<int>,
    max: Seq<int>,
) -> bool {
    &&& slice.wf(cache)
    &&& slice.layer(cache) <= tree.layer(cache)
    &&& on_lattice(slice.offset@, tree.offset@, slice.layer(cache))
    &&& forall|p: Seq<int>| #[trigger]
        slice.contains(cache, p) ==> tree.contains(cache, p) && slice.cell(cache, p) == tree.cell(
            cache,
            p,
        )
    &&& !(tree.contains(cache, min) && tree.contains(cache, max)) ==> slice.root == tree.root
        && slice.offset@ == tree.offset@
    &&& tree.contains(cache, min) && tree.contains(cache, max) ==> {
        &&& slice.contains(cache, min)
        &&& slice.contains(cache, max)
        &&& slice.layer(cache) == 1 || child_index(
            vec_sub(min, slice.offset@),
            slice.layer(cache),
        ) != child_index(vec_sub(max, slice.offset@), slice.layer(cache))
    }
}

/// The point at `x` within a node placed at `offset` lies in the cube of
/// the tree, and the node holds there what the tree holds.
pub open spec fn held<const D: usize>(
    tree: &NdTree<D>,
    cache: &NodeCache<D>,
    node: NodeId,
    offset: Seq<int>,
    x: Seq<int>,
) -> bool {
    &&& tree.contains(cache, vec_add(x, offset))
    &&& cache.cell(node, x) == tree.cell(cache, vec_add(x, offset))
}

/// A point of a cube of side `2 * 2^b` that lies in child `a` lies, moved
/// back by the corner of that child, in the cube of side `2^b`.
pub proof fn lemma_half_point(x: Seq<int>, a: int, b: nat, d: nat)
    requires
        in_cube(x, d, side(b + 1)),
        child_index(x, b + 1) == a,
    ensures
        in_cube(vec_sub(x, scaled(unflat(a, 2, d), side(b))), d, side(b)),
{
    let h = side(b);
    let digits = unflat(a, 2, d);
    let bits = crate::index::bits_at(x, b);
    lemma_pow2_pos(b);
    lemma_pow2_unfold(b + 1);
    crate::index::lemma_bits_in_cube(x, b);
    crate::index::lemma_unflat_flat(bits, 2);
    let low = vec_sub(x, scaled(digits, h));
    assert forall|k: int| 0 <= k < d implies 0 <= #[trigger] low[k] < h by {
        crate::index::lemma_moved_digits(x[k], 0, b);
        vstd::arithmetic::div_mod::lemma_fundamental_div_mod(x[k], h);
        vstd::arithmetic::div_mod::lemma_mod_bound(x[k], h);
        assert(digits[k] == bits[k]);
        assert(bits[k] == x[k] / h);
        assert(digits[k] * h == h * (x[k] / h)) by (nonlinear_arith)
            requires
                digits[k] == x[k] / h,
        ;
    }
}

/// The positions and states of a list of writes.
pub open spec fn writes_view<const D: usize>(writes: Seq<(BigVec<D>, Cell)>) -> Seq<
    (Seq<int>, Cell),
> {
    Seq::new(writes.len(), |i: int| (writes[i].0@, writes[i].1))
}

} // verus!
