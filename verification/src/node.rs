//! Reading and rebuilding nodes: the cell at a point, a node with one cell
//! changed, and the node that covers a half-sized window of another.

use crate::big::BigNum;
use crate::cache::{
    cell_counts, cells_seq, child_pops, children_seq, entry_wf, lemma_node_cell_extends,
    lemma_node_cell_low, lemma_seq_sum_update, node_cell, nodes_wf, seq_sum, Cell, NodeBody,
    NodeCache, NodeEntry, NodeId,
};
use crate::index::{
    bits_at, child_index, decode, encode, flat, in_cube, ints, lemma_flat_bound,
    lemma_pow2_is_pow, lemma_quarter_indices, lemma_same_low_step, lemma_same_low_zero,
    non_negative, quarter_child, quarter_parent, same_low, scaled, shifted, side, unflat, vec_add,
};
use crate::ndvec::BigVec;
use vstd::arithmetic::power2::{lemma_pow2_pos, lemma_pow2_unfold, pow2};
use vstd::prelude::*;

verus! {

/// One where the cell is not zero, else zero.
pub open spec fn live(c: Cell) -> int {
    if c != 0 {
        1
    } else {
        0
    }
}

/// The index of the child, at a node of layer `layer`, that holds the point
/// `rel`.
pub fn child_index_of<const D: usize>(rel: &BigVec<D>, layer: usize) -> (i: usize)
    requires
        1 <= D <= 6,
        rel.wf(),
        non_negative(rel@),
        layer >= 1,
    ensures
        i == child_index(rel@, layer as nat),
        i < pow2(D as nat),
{
    let mut k: usize = D;
    let mut acc: usize = 0;
    let ghost bits = bits_at(rel@, (layer - 1) as nat);
    proof {
        assert(bits.subrange(D as int, D as int) =~= Seq::<int>::empty());
        vstd::arithmetic::power2::lemma2_to64();
    }
    while k > 0
        invariant
            1 <= D <= 6,
            rel.wf(),
            non_negative(rel@),
            layer >= 1,
            bits == bits_at(rel@, (layer - 1) as nat),
            k <= D,
            acc == flat(bits.subrange(k as int, D as int), 2),
            acc < pow2((D - k) as nat),
        decreases k,
    {
        proof {
            let hi = bits.subrange(k as int, D as int);
            let next = bits.subrange(k - 1, D as int);
            assert(next.drop_first() =~= hi);
            assert(next[0] == bits[k - 1]);
            lemma_pow2_unfold((D - k + 1) as nat);
            vstd::arithmetic::power2::lemma2_to64();
        }
        k -= 1;
        let bit = rel.coords[k].bit(layer - 1);
        acc = acc * 2 + (if bit {
            1
        } else {
            0
        });
    }
    proof {
        assert(bits.subrange(0, D as int) =~= bits);
    }
    acc
}

/// The index of the child, at a node of layer `layer` and half side
/// `half`, that holds the point `pos` of machine integers.
pub fn child_index_small<const D: usize>(pos: &Vec<usize>, half: usize, Ghost(layer): Ghost<nat>) -> (i:
    usize)
    requires
        1 <= D <= 6,
        pos@.len() == D,
        layer >= 1,
        half == pow2((layer - 1) as nat),
    ensures
        i == child_index(ints(pos@), layer),
        i < pow2(D as nat),
{
    let mut k: usize = D;
    let mut acc: usize = 0;
    let ghost bits = bits_at(ints(pos@), (layer - 1) as nat);
    proof {
        assert(bits.subrange(D as int, D as int) =~= Seq::<int>::empty());
        vstd::arithmetic::power2::lemma2_to64();
        lemma_pow2_pos((layer - 1) as nat);
    }
    while k > 0
        invariant
            1 <= D <= 6,
            pos@.len() == D,
            layer >= 1,
            half == pow2((layer - 1) as nat),
            half >= 1,
            bits == bits_at(ints(pos@), (layer - 1) as nat),
            k <= D,
            acc == flat(bits.subrange(k as int, D as int), 2),
            acc < pow2((D - k) as nat),
        decreases k,
    {
        proof {
            let hi = bits.subrange(k as int, D as int);
            let next = bits.subrange(k - 1, D as int);
            assert(next.drop_first() =~= hi);
            assert(next[0] == bits[k - 1]);
            lemma_pow2_unfold((D - k + 1) as nat);
            vstd::arithmetic::power2::lemma2_to64();
        }
        k -= 1;
        acc = acc * 2 + (pos[k] / half) % 2;
    }
    proof {
        assert(bits.subrange(0, D as int) =~= bits);
    }
    acc
}

impl<const D: usize> NodeCache<D> {
    /// The state of the cell at the point `pos` of machine integers
    /// beneath a node of half side `half`.
    pub fn cell_small(&self, id: NodeId, pos: &Vec<usize>, half: usize) -> (c: Cell)
        requires
            self.wf(),
            self.valid(id),
            pos@.len() == D,
            half == pow2((self.layer_of(id) - 1) as nat),
        ensures
            c == self.cell(id, ints(pos@)),
    {
        let mut node = id;
        let mut layer = self.layer(id);
        let mut half = half;
        while layer > 1
            invariant
                self.wf(),
                self.valid(node),
                self.layer_of(node) == layer,
                layer >= 1,
                pos@.len() == D,
                half == pow2((layer - 1) as nat),
                self.cell(node, ints(pos@)) == self.cell(id, ints(pos@)),
            decreases layer,
        {
            let i = child_index_small::<D>(pos, half, Ghost(layer as nat));
            proof {
                assert(entry_wf(self.nodes@, node as int, D as nat));
                lemma_pow2_unfold((layer - 1) as nat);
            }
            node = self.child(node, i);
            layer -= 1;
            half = half / 2;
        }
        let i = child_index_small::<D>(pos, half, Ghost(1));
        proof {
            assert(entry_wf(self.nodes@, node as int, D as nat));
        }
        self.leaf_cell(node, i)
    }

    /// The state of the cell at `rel` beneath a node. Only the `layer`
    /// lowest binary digits of each coordinate are read.
    pub fn cell_at(&self, id: NodeId, rel: &BigVec<D>) -> (c: Cell)
        requires
            self.wf(),
            self.valid(id),
            rel.wf(),
            non_negative(rel@),
        ensures
            c == self.cell(id, rel@),
    {
        let mut node = id;
        let mut layer = self.layer(id);
        while layer > 1
            invariant
                self.wf(),
                self.valid(node),
                self.layer_of(node) == layer,
                layer >= 1,
                rel.wf(),
                non_negative(rel@),
                self.cell(node, rel@) == self.cell(id, rel@),
            decreases layer,
        {
            let i = child_index_of(rel, layer);
            proof {
                assert(entry_wf(self.nodes@, node as int, D as nat));
            }
            node = self.child(node, i);
            layer -= 1;
        }
        let i = child_index_of(rel, 1);
        proof {
            assert(entry_wf(self.nodes@, node as int, D as nat));
        }
        self.leaf_cell(node, i)
    }

    /// The cells of node `id`; empty for a node with children.
    pub open spec fn leaf_cells_of(&self, id: NodeId) -> Seq<Cell> {
        match self.nodes@[id as int].body {
            NodeBody::Leaf(c) => c@,
            NodeBody::Branch(_) => Seq::empty(),
        }
    }

    /// The leaf that differs from leaf `id` in cell `i` alone, which holds
    /// `state`.
    pub fn replace_leaf_cell(&mut self, id: NodeId, i: usize, state: Cell) -> (r: NodeId)
        requires
            old(self).wf(),
            old(self).valid(id),
            old(self).layer_of(id) == 1,
            i < pow2(D as nat),
        ensures
            final(self).wf(),
            final(self).extends(old(self)),
            final(self).same_results(old(self)),
            final(self).empties@ == old(self).empties@,
            final(self).is_leaf_with(r, old(self).leaf_cells_of(id).update(i as int, state)),
            final(self).layer_of(r) == 1,
            final(self).population_of(r) == old(self).population_of(id) - live(
                old(self).leaf_cells_of(id)[i as int],
            ) + live(state),
    {
        let n = Self::branching_factor();
        let mut cells: Vec<Cell> = Vec::new();
        let mut k: usize = 0;
        let ghost before = self.leaf_cells_of(id);
        proof {
            assert(entry_wf(self.nodes@, id as int, D as nat));
        }
        while k < n
            invariant
                self.wf(),
                self.valid(id),
                self.layer_of(id) == 1,
                n == pow2(D as nat),
                k <= n,
                before == self.leaf_cells_of(id),
                before.len() == n,
                cells@.len() == k,
                forall|j: int|
                    0 <= j < k ==> #[trigger] cells@[j] == (if j == i {
                        state
                    } else {
                        before[j]
                    }),
            decreases n - k,
        {
            let c = if k == i {
                state
            } else {
                self.leaf_cell(id, k)
            };
            cells.push(c);
            k += 1;
        }
        proof {
            assert(cells@ =~= before.update(i as int, state));
            assert(cell_counts(cells@) =~= cell_counts(before).update(i as int, live(state)));
            lemma_seq_sum_update(cell_counts(before), i as int, live(state));
        }
        let r = self.intern_leaf(cells);
        proof {
            assert(entry_wf(self.nodes@, r as int, D as nat));
        }
        r
    }

    /// The node that differs from node `id` in child `i` alone, which is
    /// `new_child`.
    pub fn replace_child(&mut self, id: NodeId, i: usize, new_child: NodeId) -> (r: NodeId)
        requires
            old(self).wf(),
            old(self).valid(id),
            old(self).layer_of(id) >= 2,
            i < pow2(D as nat),
            old(self).valid(new_child),
            old(self).layer_of(new_child) + 1 == old(self).layer_of(id),
        ensures
            final(self).wf(),
            final(self).extends(old(self)),
            final(self).same_results(old(self)),
            final(self).empties@ == old(self).empties@,
            final(self).is_branch_with(r, old(self).children_of(id).update(i as int, new_child)),
            final(self).layer_of(r) == old(self).layer_of(id),
            final(self).population_of(r) == old(self).population_of(id) - old(self).population_of(
                old(self).children_of(id)[i as int],
            ) + old(self).population_of(new_child),
    {
        let n = Self::branching_factor();
        let mut children: Vec<NodeId> = Vec::new();
        let mut k: usize = 0;
        let ghost kids = self.children_of(id);
        proof {
            assert(entry_wf(self.nodes@, id as int, D as nat));
        }
        while k < n
            invariant
                self.wf(),
                self.valid(id),
                self.layer_of(id) >= 2,
                n == pow2(D as nat),
                k <= n,
                kids == self.children_of(id),
                kids.len() == n,
                children@.len() == k,
                forall|j: int|
                    0 <= j < k ==> #[trigger] children@[j] == (if j == i {
                        new_child
                    } else {
                        kids[j]
                    }),
            decreases n - k,
        {
            let c = if k == i {
                new_child
            } else {
                self.child(id, k)
            };
            children.push(c);
            k += 1;
        }
        proof {
            assert(children@ =~= kids.update(i as int, new_child));
            assert forall|j: int| 0 <= j < children@.len() implies self.valid(
                #[trigger] children@[j],
            ) && self.layer_of(children@[j]) == (self.layer_of(id) - 1) as nat by {
                if j != i {
                    assert(kids[j] < id);
                }
            }
            assert(child_pops(self.nodes@, children@) =~= child_pops(self.nodes@, kids).update(
                i as int,
                self.population_of(new_child),
            ));
            lemma_seq_sum_update(
                child_pops(self.nodes@, kids),
                i as int,
                self.population_of(new_child),
            );
        }
        let ghost before = *self;
        let r = self.intern_node(children);
        proof {
            assert(entry_wf(self.nodes@, r as int, D as nat));
            assert(child_pops(self.nodes@, kids.update(i as int, new_child)) =~= child_pops(
                before.nodes@,
                kids.update(i as int, new_child),
            ));
        }
        r
    }

    /// The node that differs from node `id` in the cell at `rel` alone,
    /// which holds `state`: the path from the node to the cell is copied,
    /// and each copy interned.
    pub fn with_cell(&mut self, id: NodeId, rel: &BigVec<D>, state: Cell) -> (r: NodeId)
        requires
            old(self).wf(),
            old(self).valid(id),
            rel.wf(),
            non_negative(rel@),
        ensures
            final(self).wf(),
            final(self).extends(old(self)),
            final(self).same_results(old(self)),
            final(self).empties@ == old(self).empties@,
            final(self).valid(r),
            final(self).layer_of(r) == old(self).layer_of(id),
            forall|p: Seq<int>|
                p.len() == D && non_negative(p) ==> #[trigger] final(self).cell(r, p) == (if same_low(
                    p,
                    rel@,
                    old(self).layer_of(id),
                ) {
                    state
                } else {
                    old(self).cell(id, p)
                }),
            final(self).population_of(r) == old(self).population_of(id) - live(
                old(self).cell(id, rel@),
            ) + live(state),
        decreases id,
    {
        let layer = self.layer(id);
        let i = child_index_of(rel, layer);
        let ghost start = *self;
        proof {
            assert(entry_wf(self.nodes@, id as int, D as nat));
        }
        if layer == 1 {
            let r = self.replace_leaf_cell(id, i, state);
            proof {
                assert(entry_wf(self.nodes@, r as int, D as nat));
                assert(start.cell(id, rel@) == start.leaf_cells_of(id)[i as int]);
                assert forall|p: Seq<int>| p.len() == D && non_negative(p) implies #[trigger] self.cell(
                    r,
                    p,
                ) == (if same_low(p, rel@, 1) {
                    state
                } else {
                    start.cell(id, p)
                }) by {
                    lemma_node_cell_extends(self.nodes@, start.nodes@, D as nat, id as int, p);
                    lemma_leaf_update(self.nodes@, D as nat, id as int, r as int, rel@, state, p);
                }
            }
            r
        } else {
            let child = self.child(id, i);
            let new_child = self.with_cell(child, rel, state);
            let ghost mid = *self;
            let r = self.replace_child(id, i, new_child);
            proof {
                assert(entry_wf(self.nodes@, r as int, D as nat));
                assert(start.cell(id, rel@) == start.cell(child, rel@));
                assert forall|p: Seq<int>| p.len() == D && non_negative(p) implies #[trigger] self.cell(
                    r,
                    p,
                ) == (if same_low(p, rel@, layer as nat) {
                    state
                } else {
                    start.cell(id, p)
                }) by {
                    lemma_node_cell_extends(self.nodes@, start.nodes@, D as nat, id as int, p);
                    lemma_node_cell_extends(self.nodes@, start.nodes@, D as nat, child as int, p);
                    lemma_node_cell_extends(self.nodes@, mid.nodes@, D as nat, new_child as int, p);
                    assert(mid.cell(new_child, p) == (if same_low(p, rel@, (layer - 1) as nat) {
                        state
                    } else {
                        start.cell(child, p)
                    }));
                    lemma_branch_update(
                        self.nodes@,
                        D as nat,
                        id as int,
                        r as int,
                        new_child,
                        rel@,
                        state,
                        p,
                    );
                }
            }
            r
        }
    }

    /// The node one layer down that covers the window of node `id` which
    /// starts `p[k]` quarters of its side in along axis `k`: a child for
    /// `p` in `{0, 2}`, the centred inner node for `p` all ones. It is put
    /// together from the grandchildren of `id`.
    pub fn subnode(&mut self, id: NodeId, p: &Vec<usize>) -> (r: NodeId)
        requires
            old(self).wf(),
            old(self).valid(id),
            old(self).layer_of(id) >= 2,
            in_cube(ints(p@), D as nat, 3),
        ensures
            final(self).wf(),
            final(self).extends(old(self)),
            final(self).same_results(old(self)),
            final(self).empties@ == old(self).empties@,
            final(self).valid(r),
            final(self).layer_of(r) == old(self).layer_of(id) - 1,
            final(self).nodes@.len() <= old(self).nodes@.len() + 1,
            old(self).valid(r) <==> final(self).nodes@.len() == old(self).nodes@.len(),
            is_window(final(self).nodes@, D as nat, id as int, r as int, ints(p@)),
            forall|x: Seq<int>|
                in_cube(x, D as nat, side((old(self).layer_of(id) - 1) as nat))
                    ==> #[trigger] final(self).cell(r, x) == old(self).cell(
                    id,
                    vec_add(x, scaled(ints(p@), side((old(self).layer_of(id) - 2) as nat))),
                ),
    {
        let layer = self.layer(id);
        let (cells, kids) = self.window_parts(id, p);
        let ghost pv = ints(p@);
        let ghost before = *self;
        proof {
            assert(entry_wf(self.nodes@, id as int, D as nat));
            vstd::arithmetic::power2::lemma_pow2_pos(D as nat);
        }
        let r = if layer == 2 {
            self.intern_leaf(cells)
        } else {
            assert(self.valid(kids@[0]) && self.layer_of(kids@[0]) == layer - 2);
            self.intern_node(kids)
        };
        assert(self.layer_of(r) == layer - 1);
        proof {
            assert(entry_wf(self.nodes@, r as int, D as nat));
            assert(is_window(self.nodes@, D as nat, id as int, r as int, pv)) by {
                reveal(is_window);
                if layer == 2 {
                    assert(cells_seq(self.nodes@[r as int].body) == cells@);
                    assert forall|j: int| 0 <= j < pow2(D as nat) implies #[trigger] cells_seq(
                        self.nodes@[r as int].body,
                    )[j] == grandcell(
                        self.nodes@,
                        id as int,
                        quarter_parent(pv, j, D as nat),
                        quarter_child(pv, j, D as nat),
                    ) by {
                        lemma_quarter_bounds(pv, j, D as nat);
                        assert(cells@[j] == grandcell(
                            before.nodes@,
                            id as int,
                            quarter_parent(pv, j, D as nat),
                            quarter_child(pv, j, D as nat),
                        ));
                        let kid = children_seq(before.nodes@[id as int].body)[quarter_parent(
                            pv,
                            j,
                            D as nat,
                        )];
                        assert(kid < id);
                    }
                } else {
                    assert(children_seq(self.nodes@[r as int].body) == kids@);
                    assert forall|j: int| 0 <= j < pow2(D as nat) implies #[trigger] children_seq(
                        self.nodes@[r as int].body,
                    )[j] == grandchild(
                        self.nodes@,
                        id as int,
                        quarter_parent(pv, j, D as nat),
                        quarter_child(pv, j, D as nat),
                    ) by {
                        lemma_quarter_bounds(pv, j, D as nat);
                        assert(kids@[j] == grandchild(
                            before.nodes@,
                            id as int,
                            quarter_parent(pv, j, D as nat),
                            quarter_child(pv, j, D as nat),
                        ));
                        let kid = children_seq(before.nodes@[id as int].body)[quarter_parent(
                            pv,
                            j,
                            D as nat,
                        )];
                        assert(kid < id);
                    }
                }
            }
            assert forall|x: Seq<int>|
                in_cube(
                    x,
                    D as nat,
                    side((layer - 1) as nat),
                ) implies #[trigger] self.cell(r, x) == before.cell(
                id,
                vec_add(x, scaled(pv, side((layer - 2) as nat))),
            ) by {
                let y = vec_add(x, scaled(pv, side((layer - 2) as nat)));
                lemma_node_cell_extends(self.nodes@, before.nodes@, D as nat, id as int, y);
                lemma_window_cell(self.nodes@, D as nat, id as int, r as int, pv, x);
            }
        }
        r
    }

    /// The cells (one layer above the leaves) or the grandchildren (higher
    /// up) of node `id` that lie in the window which starts `p` quarters
    /// in, in the order of the children of the window.
    fn window_parts(&self, id: NodeId, p: &Vec<usize>) -> (r: (Vec<Cell>, Vec<NodeId>))
        requires
            self.wf(),
            self.valid(id),
            self.layer_of(id) >= 2,
            in_cube(ints(p@), D as nat, 3),
        ensures
            self.layer_of(id) == 2 ==> r.0@.len() == pow2(D as nat) && forall|j: int|
                0 <= j < pow2(D as nat) ==> #[trigger] r.0@[j] == grandcell(
                    self.nodes@,
                    id as int,
                    quarter_parent(ints(p@), j, D as nat),
                    quarter_child(ints(p@), j, D as nat),
                ),
            self.layer_of(id) > 2 ==> r.1@.len() == pow2(D as nat) && forall|j: int|
                0 <= j < pow2(D as nat) ==> #[trigger] r.1@[j] == grandchild(
                    self.nodes@,
                    id as int,
                    quarter_parent(ints(p@), j, D as nat),
                    quarter_child(ints(p@), j, D as nat),
                ),
            self.layer_of(id) > 2 ==> self.all_at_layer(r.1@, (self.layer_of(id) - 2) as nat),
    {
        let layer = self.layer(id);
        let n = Self::branching_factor();
        let mut cells: Vec<Cell> = Vec::new();
        let mut kids: Vec<NodeId> = Vec::new();
        let mut c: usize = 0;
        let ghost pv = ints(p@);
        proof {
            assert(entry_wf(self.nodes@, id as int, D as nat));
        }
        while c < n
            invariant
                self.wf(),
                self.valid(id),
                self.layer_of(id) == layer,
                layer >= 2,
                n == pow2(D as nat),
                pv == ints(p@),
                in_cube(pv, D as nat, 3),
                c <= n,
                layer == 2 ==> cells@.len() == c,
                layer > 2 ==> kids@.len() == c,
                layer == 2 ==> forall|j: int|
                    0 <= j < c ==> #[trigger] cells@[j] == grandcell(
                        self.nodes@,
                        id as int,
                        quarter_parent(pv, j, D as nat),
                        quarter_child(pv, j, D as nat),
                    ),
                layer > 2 ==> forall|j: int|
                    0 <= j < c ==> #[trigger] kids@[j] == grandchild(
                        self.nodes@,
                        id as int,
                        quarter_parent(pv, j, D as nat),
                        quarter_child(pv, j, D as nat),
                    ),
                layer > 2 ==> forall|j: int|
                    0 <= j < c ==> self.valid(#[trigger] kids@[j]) && self.layer_of(kids@[j])
                        == layer - 2,
            decreases n - c,
        {
            let (a, b) = quarter_indices::<D>(p, c);
            let kid = self.child(id, a);
            if layer == 2 {
                let cell = self.leaf_cell(kid, b);
                cells.push(cell);
            } else {
                let g = self.child(kid, b);
                kids.push(g);
            }
            c += 1;
        }
        (cells, kids)
    }

    /// The centred inner node of a node: the node one layer down that
    /// covers its middle half along every axis.
    pub fn centered_inner(&mut self, id: NodeId) -> (r: NodeId)
        requires
            old(self).wf(),
            old(self).valid(id),
            old(self).layer_of(id) >= 2,
        ensures
            final(self).wf(),
            final(self).extends(old(self)),
            final(self).same_results(old(self)),
            final(self).empties@ == old(self).empties@,
            final(self).valid(r),
            final(self).layer_of(r) == old(self).layer_of(id) - 1,
            final(self).nodes@.len() <= old(self).nodes@.len() + 1,
            old(self).valid(r) <==> final(self).nodes@.len() == old(self).nodes@.len(),
            is_window(final(self).nodes@, D as nat, id as int, r as int, Seq::new(D as nat, |k: int| 1int)),
            forall|x: Seq<int>|
                in_cube(x, D as nat, side((old(self).layer_of(id) - 1) as nat))
                    ==> #[trigger] final(self).cell(r, x) == old(self).cell(
                    id,
                    shifted(x, side((old(self).layer_of(id) - 2) as nat)),
                ),
    {
        let mut p: Vec<usize> = Vec::new();
        let mut k: usize = 0;
        while k < D
            invariant
                k <= D,
                p@.len() == k,
                forall|j: int| 0 <= j < k ==> p@[j] == 1,
            decreases D - k,
        {
            p.push(1);
            k += 1;
        }
        proof {
            assert(ints(p@) =~= Seq::new(D as nat, |k: int| 1int));
        }
        let ghost layer = self.layer_of(id);
        let r = self.subnode(id, &p);
        proof {
            assert forall|x: Seq<int>|
                in_cube(
                    x,
                    D as nat,
                    side((layer - 1) as nat),
                ) implies #[trigger] self.cell(r, x) == old(self).cell(
                id,
                shifted(x, side((layer - 2) as nat)),
            ) by {
                let h = side((layer - 2) as nat);
                assert(vec_add(x, scaled(ints(p@), h)) =~= shifted(x, h)) by {
                    assert forall|k: int| 0 <= k < D implies vec_add(x, scaled(ints(p@), h))[k]
                        == shifted(x, h)[k] by {
                        assert(scaled(ints(p@), h)[k] == 1 * h);
                    }
                }
            }
        }
        r
    }

    /// The node of the layer of node `id` that holds child `c` of `id` in
    /// the slot opposite to `c`, and `filler`, a node without population,
    /// in every other slot. For a leaf `id` the slots are cells, and the
    /// other cells are zero.
    fn wrap_child(&mut self, id: NodeId, c: usize, filler: NodeId) -> (w: NodeId)
        requires
            old(self).wf(),
            old(self).valid(id),
            c < pow2(D as nat),
            old(self).layer_of(id) > 1 ==> old(self).valid(filler) && old(self).layer_of(filler)
                + 1 == old(self).layer_of(id) && old(self).population_of(filler) == 0,
        ensures
            final(self).wf(),
            final(self).extends(old(self)),
            final(self).same_results(old(self)),
            final(self).empties@ == old(self).empties@,
            final(self).valid(w),
            final(self).layer_of(w) == old(self).layer_of(id),
            final(self).nodes@.len() <= old(self).nodes@.len() + 1,
            old(self).valid(w) <==> final(self).nodes@.len() == old(self).nodes@.len(),
            is_wrap(final(self).nodes@, D as nat, id as int, w as int, c as int),
            final(self).population_of(w) == (if old(self).layer_of(id) == 1 {
                live(old(self).leaf_cells_of(id)[c as int])
            } else {
                old(self).population_of(old(self).children_of(id)[c as int])
            }),
    {
        let layer = self.layer(id);
        let n = Self::branching_factor();
        let slot = n - 1 - c;
        let mut k: usize = 0;
        let ghost before = *self;
        proof {
            assert(entry_wf(self.nodes@, id as int, D as nat));
        }
        if layer == 1 {
            let cell = self.leaf_cell(id, c);
            let mut cells: Vec<Cell> = Vec::new();
            while k < n
                invariant
                    k <= n,
                    slot < n,
                    cells@.len() == k,
                    forall|j: int|
                        0 <= j < k ==> #[trigger] cells@[j] == (if j == slot {
                            cell
                        } else {
                            0
                        }),
                decreases n - k,
            {
                cells.push(
                    if k == slot {
                        cell
                    } else {
                        0
                    },
                );
                k += 1;
            }
            proof {
                let zeros = Seq::new(n as nat, |j: int| 0int);
                assert(cell_counts(cells@) =~= zeros.update(slot as int, live(cell)));
                lemma_seq_sum_update(zeros, slot as int, live(cell));
                crate::cache::lemma_seq_sum_zero(zeros);
            }
            let w = self.intern_leaf(cells);
            proof {
                assert(entry_wf(self.nodes@, w as int, D as nat));
                reveal(is_wrap);
            }
            w
        } else {
            let kid = self.child(id, c);
            let mut kids: Vec<NodeId> = Vec::new();
            while k < n
                invariant
                    k <= n,
                    slot < n,
                    kids@.len() == k,
                    forall|j: int|
                        0 <= j < k ==> #[trigger] kids@[j] == (if j == slot {
                            kid
                        } else {
                            filler
                        }),
                decreases n - k,
            {
                kids.push(
                    if k == slot {
                        kid
                    } else {
                        filler
                    },
                );
                k += 1;
            }
            proof {
                let zeros = Seq::new(n as nat, |j: int| 0int);
                assert(child_pops(self.nodes@, kids@) =~= zeros.update(
                    slot as int,
                    self.population_of(kid),
                ));
                lemma_seq_sum_update(zeros, slot as int, self.population_of(kid));
                crate::cache::lemma_seq_sum_zero(zeros);
                assert(self.valid(kids@[0]) && self.layer_of(kids@[0]) == layer - 1);
            }
            let w = self.intern_node(kids);
            proof {
                assert(entry_wf(self.nodes@, w as int, D as nat));
                assert(child_pops(self.nodes@, kids@) =~= child_pops(before.nodes@, kids@));
                reveal(is_wrap);
            }
            w
        }
    }

    /// The node one layer up that holds node `id` in its centre and
    /// nothing else: each child of `id` sits in the opposite corner of a
    /// node that is otherwise empty, and those nodes are the children of the
    /// result. Where `id` is empty, whatever is interned is an empty node.
    pub fn expand_node(&mut self, id: NodeId) -> (r: NodeId)
        requires
            old(self).wf(),
            old(self).valid(id),
        ensures
            final(self).wf(),
            final(self).extends(old(self)),
            final(self).same_results(old(self)),
            final(self).valid(r),
            final(self).layer_of(r) == old(self).layer_of(id) + 1,
            final(self).population_of(r) == old(self).population_of(id),
            old(self).population_of(id) == 0 ==> final(self).only_empty_added(old(self)),
            forall|q: Seq<int>|
                in_cube(q, D as nat, side(old(self).layer_of(id) + 1)) ==> #[trigger] final(self).cell(r, q) == (if in_cube(
                    shifted(q, -side((old(self).layer_of(id) - 1) as nat)),
                    D as nat,
                    side(old(self).layer_of(id)),
                ) {
                    old(self).cell(id, shifted(q, -side((old(self).layer_of(id) - 1) as nat)))
                } else {
                    0
                }),
    {
        let layer = self.layer(id);
        let n = Self::branching_factor();
        let filler = if layer > 1 {
            self.get_empty(layer - 1)
        } else {
            id
        };
        let ghost start = *self;
        let ghost empty = old(self).population_of(id) == 0;
        let ghost pops = if layer == 1 {
            cell_counts(self.leaf_cells_of(id))
        } else {
            child_pops(self.nodes@, self.children_of(id))
        };
        proof {
            assert(entry_wf(self.nodes@, id as int, D as nat));
            if empty {
                assert(self.nodes@[id as int] == old(self).nodes@[id as int]);
                if layer > 1 {
                    crate::cache::lemma_populations_non_negative(
                        self.nodes@,
                        D as nat,
                        id as int,
                    );
                }
                crate::cache::lemma_seq_sum_non_negative(pops);
            }
        }
        let mut outer: Vec<NodeId> = Vec::new();
        let mut c: usize = 0;
        while c < n
            invariant
                self.wf(),
                self.extends(&start),
                self.same_results(&start),
                start.wf(),
                start.valid(id),
                start.layer_of(id) == layer,
                old(self).nodes@.len() <= start.nodes@.len(),
                empty ==> self.only_empty_added(old(self)),
                empty ==> forall|j: int| 0 <= j < pops.len() ==> #[trigger] pops[j] == 0,
                self.valid(id),
                self.layer_of(id) == layer,
                n == pow2(D as nat),
                c <= n,
                pops.len() == n,
                layer > 1 ==> self.valid(filler) && self.layer_of(filler) + 1 == layer
                    && self.population_of(filler) == 0,
                layer == 1 ==> pops == cell_counts(self.leaf_cells_of(id)),
                layer > 1 ==> pops == child_pops(self.nodes@, self.children_of(id)),
                outer@.len() == c,
                forall|j: int|
                    0 <= j < c ==> self.valid(#[trigger] outer@[j]) && self.layer_of(outer@[j])
                        == layer && self.population_of(outer@[j]) == pops[j] && is_wrap(
                        self.nodes@,
                        D as nat,
                        id as int,
                        outer@[j] as int,
                        j,
                    ),
            decreases n - c,
        {
            let ghost before = *self;
            let w = self.wrap_child(id, c, filler);
            proof {
                if empty {
                    assert(pops[c as int] == 0);
                    self.lemma_only_empty_step(&before, old(self), w);
                }
                assert(entry_wf(before.nodes@, id as int, D as nat));
                assert(self.nodes@[id as int] == before.nodes@[id as int]);
                assert forall|j: int| 0 <= j < c implies self.nodes@[(#[trigger] outer@[j]) as int]
                    == before.nodes@[outer@[j] as int] by {}
                assert forall|j: int| 0 <= j < c implies is_wrap(
                    self.nodes@,
                    D as nat,
                    id as int,
                    (#[trigger] outer@[j]) as int,
                    j,
                ) by {
                    lemma_wrap_extends(
                        self.nodes@,
                        before.nodes@,
                        D as nat,
                        id as int,
                        outer@[j] as int,
                        j,
                    );
                }
                if layer > 1 {
                    assert forall|j: int| 0 <= j < n implies child_pops(
                        self.nodes@,
                        self.children_of(id),
                    )[j] == child_pops(before.nodes@, before.children_of(id))[j] by {
                        assert(before.children_of(id)[j] < id);
                    }
                    assert(child_pops(self.nodes@, self.children_of(id)) =~= child_pops(
                        before.nodes@,
                        before.children_of(id),
                    ));
                }
            }
            outer.push(w);
            c += 1;
        }
        proof {
            vstd::arithmetic::power2::lemma_pow2_pos(D as nat);
            assert(self.valid(outer@[0]) && self.layer_of(outer@[0]) == layer);
            assert(child_pops(self.nodes@, outer@) =~= pops);
        }
        let ghost before = *self;
        let r = self.intern_node(outer);
        proof {
            assert(entry_wf(self.nodes@, r as int, D as nat));
            assert(child_pops(self.nodes@, outer@) =~= child_pops(before.nodes@, outer@));
            assert(start.nodes@[id as int] == old(self).nodes@[id as int]);
            if empty {
                self.lemma_only_empty_step(&before, old(self), r);
            }
            assert forall|j: int| 0 <= j < pow2(D as nat) implies is_wrap(
                self.nodes@,
                D as nat,
                id as int,
                (#[trigger] children_seq(self.nodes@[r as int].body)[j]) as int,
                j,
            ) by {
                lemma_wrap_extends(
                    self.nodes@,
                    before.nodes@,
                    D as nat,
                    id as int,
                    outer@[j] as int,
                    j,
                );
            }
            assert forall|q: Seq<int>|
                in_cube(q, D as nat, side(layer as nat + 1)) implies #[trigger] self.cell(r, q) == (
            if in_cube(shifted(q, -side((layer - 1) as nat)), D as nat, side(layer as nat)) {
                old(self).cell(id, shifted(q, -side((layer - 1) as nat)))
            } else {
                0
            }) by {
                let m = shifted(q, -side((layer - 1) as nat));
                lemma_node_cell_extends(self.nodes@, old(self).nodes@, D as nat, id as int, m);
                lemma_expand_cell(self.nodes@, D as nat, id as int, r as int, q);
            }
        }
        r
    }
}

/// Node `w`, of the layer of node `id`, holds child `c` of `id` in the slot
/// opposite to `c` and nodes without population in every other slot; for a
/// leaf `id` the slots are cells, and the other cells are zero.
#[verifier::opaque]
pub open spec fn is_wrap(nodes: Seq<NodeEntry>, d: nat, id: int, w: int, c: int) -> bool {
    &&& 0 <= id < nodes.len()
    &&& 0 <= w < nodes.len()
    &&& nodes[w].layer == nodes[id].layer
    &&& 0 <= c < pow2(d)
    &&& nodes[id].layer == 1 ==> forall|j: int|
        0 <= j < pow2(d) ==> #[trigger] cells_seq(nodes[w].body)[j] == (if j == pow2(d) - 1 - c {
            cells_seq(nodes[id].body)[c]
        } else {
            0
        })
    &&& nodes[id].layer > 1 ==> forall|j: int|
        0 <= j < pow2(d) ==> (if j == pow2(d) - 1 - c {
            #[trigger] children_seq(nodes[w].body)[j] == children_seq(nodes[id].body)[c]
        } else {
            nodes[children_seq(nodes[w].body)[j] as int].population@ == 0
        })
}

/// A wrap stays one when the arena grows.
pub proof fn lemma_wrap_extends(
    new: Seq<NodeEntry>,
    old: Seq<NodeEntry>,
    d: nat,
    id: int,
    w: int,
    c: int,
)
    requires
        nodes_wf(old, d),
        crate::cache::seq_extends(new, old),
        is_wrap(old, d, id, w, c),
    ensures
        is_wrap(new, d, id, w, c),
{
    reveal(is_wrap);
    assert(entry_wf(old, w, d));
    assert(entry_wf(old, id, d));
    if old[id].layer > 1 {
        assert forall|j: int| 0 <= j < pow2(d) implies (if j == pow2(d) - 1 - c {
            #[trigger] children_seq(new[w].body)[j] == children_seq(new[id].body)[c]
        } else {
            new[children_seq(new[w].body)[j] as int].population@ == 0
        }) by {
            let k = children_seq(old[w].body)[j];
            assert(k < w);
        }
    }
}

/// The cell at `q` beneath the expansion `r` of node `id` is the cell of
/// `id` at `q` moved back by a quarter of the side of `r`, where that lies
/// within `id`, and zero elsewhere.
pub proof fn lemma_expand_cell(nodes: Seq<NodeEntry>, d: nat, id: int, r: int, q: Seq<int>)
    requires
        nodes_wf(nodes, d),
        0 <= id < nodes.len(),
        0 <= r < nodes.len(),
        nodes[r].layer == nodes[id].layer + 1,
        forall|j: int|
            0 <= j < pow2(d) ==> is_wrap(
                nodes,
                d,
                id,
                (#[trigger] children_seq(nodes[r].body)[j]) as int,
                j,
            ),
        in_cube(q, d, side(nodes[id].layer as nat + 1)),
    ensures
        node_cell(nodes, r, q) == (if in_cube(
            shifted(q, -side((nodes[id].layer - 1) as nat)),
            d,
            side(nodes[id].layer as nat),
        ) {
            node_cell(nodes, id, shifted(q, -side((nodes[id].layer - 1) as nat)))
        } else {
            0
        }),
{
    reveal(is_wrap);
    assert(entry_wf(nodes, id, d));
    assert(entry_wf(nodes, r, d));
    let layer = nodes[id].layer as nat;
    let b = (layer - 1) as nat;
    let m = shifted(q, -side(b));
    crate::index::lemma_middle_indices(q, b, d);
    let hi = child_index(q, b + 2);
    let lo = child_index(q, b + 1);
    let w = children_seq(nodes[r].body)[hi];
    assert(is_wrap(nodes, d, id, w as int, hi));
    assert(w < r);
    assert(entry_wf(nodes, w as int, d));
    assert(node_cell(nodes, r, q) == node_cell(nodes, w as int, q));
    if layer == 1 {
        assert(node_cell(nodes, w as int, q) == cells_seq(nodes[w as int].body)[lo]);
        if in_cube(m, d, side(layer)) {
            assert(node_cell(nodes, id, m) == cells_seq(nodes[id].body)[hi]);
        }
    } else {
        let k = children_seq(nodes[w as int].body)[lo];
        assert(k < w);
        assert(node_cell(nodes, w as int, q) == node_cell(nodes, k as int, q));
        if in_cube(m, d, side(layer)) {
            let kid = children_seq(nodes[id].body)[hi];
            assert(kid < id);
            assert(node_cell(nodes, id, m) == node_cell(nodes, kid as int, m));
            assert(k == kid);
            lemma_node_cell_low(nodes, d, kid as int, m, q);
        } else {
            crate::cache::lemma_zero_population(nodes, d, k as int, q);
        }
    }
}

impl<const D: usize> NodeCache<D> {
    /// The number of cells that a node covers: `2^(layer * D)`.
    pub fn big_num_cells(&self, id: NodeId) -> (n: BigNum)
        requires
            self.wf(),
            self.valid(id),
        ensures
            n@ == vstd::arithmetic::power::pow(side(self.layer_of(id)), D as nat),
    {
        let layer = self.layer(id);
        let mut n = BigNum::from_usize(1);
        let mut k: usize = 0;
        proof {
            vstd::arithmetic::power::lemma_pow0(side(layer as nat));
        }
        while k < D
            invariant
                k <= D,
                n@ == vstd::arithmetic::power::pow(side(layer as nat), k as nat),
            decreases D - k,
        {
            proof {
                let s = side(layer as nat);
                let before = vstd::arithmetic::power::pow(s, k as nat);
                assert(vstd::arithmetic::power::pow(s, (k + 1) as nat) == s * before) by {
                    reveal(vstd::arithmetic::power::pow);
                }
                assert(before * s == s * before) by (nonlinear_arith);
            }
            n = n.shl(layer);
            k += 1;
        }
        n
    }

    /// Every cell in the cube of node `id` holds `c`.
    pub open spec fn all_cells(&self, id: NodeId, c: Cell) -> bool {
        forall|x: Seq<int>|
            in_cube(x, D as nat, side(self.layer_of(id))) ==> #[trigger] self.cell(id, x) == c
    }

    /// Where every cell of a node holds `c`, every cell of each of its
    /// children does.
    pub proof fn lemma_all_cells_child(&self, id: NodeId, i: int, c: Cell)
        requires
            self.wf(),
            self.valid(id),
            self.layer_of(id) >= 2,
            0 <= i < pow2(D as nat),
            self.all_cells(id, c),
        ensures
            self.valid(self.children_of(id)[i]),
            self.layer_of(self.children_of(id)[i]) == self.layer_of(id) - 1,
            self.all_cells(self.children_of(id)[i], c),
    {
        assert(entry_wf(self.nodes@, id as int, D as nat));
        let kid = self.children_of(id)[i];
        assert(kid < id);
        assert forall|x: Seq<int>|
            in_cube(x, D as nat, side(self.layer_of(id))) implies #[trigger] node_cell(
            self.nodes@,
            id as int,
            x,
        ) == c by {
            assert(self.cell(id, x) == c);
        }
        lemma_child_all_cells(self.nodes@, D as nat, id as int, i, c);
        assert(self.children_of(id) == children_seq(self.nodes@[id as int].body));
        assert(self.layer_of(kid) == self.layer_of(id) - 1);
        assert forall|x: Seq<int>|
            in_cube(x, D as nat, side(self.layer_of(kid))) implies #[trigger] self.cell(kid, x)
            == c by {
            assert(in_cube(x, D as nat, side((self.nodes@[id as int].layer - 1) as nat)));
            assert(node_cell(
                self.nodes@,
                children_seq(self.nodes@[id as int].body)[i] as int,
                x,
            ) == c);
        }
    }

    /// Two nodes of one layer whose cells all hold `c` are the same node.
    pub proof fn lemma_all_cells_same(&self, a: NodeId, b: NodeId, c: Cell)
        requires
            self.wf(),
            self.valid(a),
            self.valid(b),
            self.layer_of(a) == self.layer_of(b),
            self.all_cells(a, c),
            self.all_cells(b, c),
        ensures
            a == b,
    {
        assert forall|x: Seq<int>|
            in_cube(x, D as nat, side(self.layer_of(a))) implies #[trigger] node_cell(
            self.nodes@,
            a as int,
            x,
        ) == node_cell(self.nodes@, b as int, x) by {
            assert(self.cell(a, x) == c);
            assert(self.cell(b, x) == c);
        }
        crate::laws::lemma_same_cells_same_node(self.nodes@, D as nat, a as int, b as int);
    }

    /// The one state that every cell of a node holds, if there is one.
    pub fn single_state(&self, id: NodeId) -> (r: Option<Cell>)
        requires
            self.wf(),
            self.valid(id),
        ensures
            match r {
                Some(c) => self.all_cells(id, c),
                None => forall|c: Cell| !#[trigger] self.all_cells(id, c),
            },
        decreases id,
    {
        let layer = self.layer(id);
        let n = Self::branching_factor();
        proof {
            assert(entry_wf(self.nodes@, id as int, D as nat));
            vstd::arithmetic::power2::lemma_pow2_pos(D as nat);
        }
        if layer == 1 {
            let first = self.leaf_cell(id, 0);
            let mut k: usize = 1;
            while k < n
                invariant
                    self.wf(),
                    self.valid(id),
                    self.layer_of(id) == 1,
                    n == pow2(D as nat),
                    1 <= k <= n,
                    first == self.leaf_cells_of(id)[0],
                    forall|j: int| 0 <= j < k ==> #[trigger] self.leaf_cells_of(id)[j] == first,
                decreases n - k,
            {
                if self.leaf_cell(id, k) != first {
                    proof {
                        assert forall|c: Cell| !#[trigger] self.all_cells(id, c) by {
                            crate::laws::lemma_leaf_point(self.nodes@, D as nat, id as int, 0);
                            crate::laws::lemma_leaf_point(
                                self.nodes@,
                                D as nat,
                                id as int,
                                k as int,
                            );
                            if self.all_cells(id, c) {
                                assert(self.cell(id, unflat(0, 2, D as nat)) == c);
                                assert(self.cell(id, unflat(k as int, 2, D as nat)) == c);
                            }
                        }
                    }
                    return None;
                }
                k += 1;
            }
            proof {
                assert forall|x: Seq<int>|
                    in_cube(x, D as nat, side(1)) implies #[trigger] self.cell(id, x) == first by {
                    crate::index::lemma_child_index_bound(x, 1);
                }
            }
            Some(first)
        } else {
            let first = self.child(id, 0);
            let mut k: usize = 1;
            while k < n
                invariant
                    self.wf(),
                    self.valid(id),
                    self.layer_of(id) == layer,
                    layer >= 2,
                    n == pow2(D as nat),
                    1 <= k <= n,
                    first == self.children_of(id)[0],
                    forall|j: int| 0 <= j < k ==> #[trigger] self.children_of(id)[j] == first,
                decreases n - k,
            {
                if self.child(id, k) != first {
                    proof {
                        assert forall|c: Cell| !#[trigger] self.all_cells(id, c) by {
                            if self.all_cells(id, c) {
                                self.lemma_all_cells_child(id, 0, c);
                                self.lemma_all_cells_child(id, k as int, c);
                                self.lemma_all_cells_same(
                                    first,
                                    self.children_of(id)[k as int],
                                    c,
                                );
                            }
                        }
                    }
                    return None;
                }
                k += 1;
            }
            let r = self.single_state(first);
            proof {
                match r {
                    Some(c) => {
                        assert forall|x: Seq<int>|
                            in_cube(
                                x,
                                D as nat,
                                side(layer as nat),
                            ) implies #[trigger] self.cell(id, x) == c by {
                            crate::index::lemma_child_index_bound(x, layer as nat);
                            let i = child_index(x, layer as nat);
                            assert(self.children_of(id)[i] == first);
                            lemma_point_in_child(x, (layer - 1) as nat, D as nat);
                            let low = Seq::new(
                                D as nat,
                                |k: int| x[k] % side((layer - 1) as nat),
                            );
                            lemma_node_cell_low(self.nodes@, D as nat, first as int, x, low);
                            assert(self.cell(first, low) == c);
                        }
                    },
                    None => {
                        assert forall|c: Cell| !#[trigger] self.all_cells(id, c) by {
                            if self.all_cells(id, c) {
                                self.lemma_all_cells_child(id, 0, c);
                            }
                        }
                    },
                }
            }
            r
        }
    }
}

/// A point of a cube of side `2 * 2^b`, with every coordinate reduced
/// modulo `2^b`, lies in the cube of side `2^b` and agrees with the point
/// below that side.
pub proof fn lemma_point_in_child(x: Seq<int>, b: nat, d: nat)
    requires
        in_cube(x, d, side(b + 1)),
    ensures
        ({
            let low = Seq::new(d, |k: int| x[k] % side(b));
            &&& in_cube(low, d, side(b))
            &&& same_low(x, low, b)
            &&& non_negative(x)
            &&& non_negative(low)
        }),
{
    let low = Seq::new(d, |k: int| x[k] % side(b));
    vstd::arithmetic::power2::lemma_pow2_pos(b);
    assert forall|k: int| 0 <= k < d implies 0 <= #[trigger] low[k] < side(b) && (x[k] % side(b))
        % side(b) == x[k] % side(b) by {
        vstd::arithmetic::div_mod::lemma_mod_bound(x[k], side(b));
        vstd::arithmetic::div_mod::lemma_mod_twice(x[k], side(b));
    }
    assert forall|k: int| 0 <= k < x.len() implies (#[trigger] x[k]) % (pow2(b) as int) == (
    #[trigger] low[k]) % (pow2(b) as int) by {
        assert(low[k] == x[k] % side(b));
    }
}

/// Where every cell of a node holds `c`, every cell of each of its
/// children does.
pub proof fn lemma_child_all_cells(nodes: Seq<NodeEntry>, d: nat, id: int, i: int, c: Cell)
    requires
        nodes_wf(nodes, d),
        0 <= id < nodes.len(),
        nodes[id].layer >= 2,
        0 <= i < pow2(d),
        forall|x: Seq<int>|
            in_cube(x, d, side(nodes[id].layer as nat)) ==> #[trigger] node_cell(nodes, id, x) == c,
    ensures
        forall|x: Seq<int>|
            in_cube(x, d, side((nodes[id].layer - 1) as nat)) ==> #[trigger] node_cell(
                nodes,
                children_seq(nodes[id].body)[i] as int,
                x,
            ) == c,
{
    assert(entry_wf(nodes, id, d));
    let layer = nodes[id].layer as nat;
    let kid = children_seq(nodes[id].body)[i];
    assert(kid < id);
    assert forall|x: Seq<int>|
        in_cube(x, d, side((layer - 1) as nat)) implies #[trigger] node_cell(nodes, kid as int, x)
        == c by {
        let y = vec_add(x, scaled(unflat(i, 2, d), side((layer - 1) as nat)));
        crate::index::lemma_child_point(x, i, (layer - 1) as nat, d);
        assert(node_cell(nodes, id, y) == node_cell(nodes, kid as int, y));
        lemma_node_cell_low(nodes, d, kid as int, y, x);
    }
}

/// Child `b` of child `a` of node `id`.
pub open spec fn grandchild(nodes: Seq<NodeEntry>, id: int, a: int, b: int) -> NodeId {
    children_seq(nodes[children_seq(nodes[id].body)[a] as int].body)[b]
}

/// Cell `b` of child `a` of node `id`, where the children are leaves.
pub open spec fn grandcell(nodes: Seq<NodeEntry>, id: int, a: int, b: int) -> Cell {
    cells_seq(nodes[children_seq(nodes[id].body)[a] as int].body)[b]
}

/// Node `r` is put together from the grandchildren of node `id` (or, one
/// layer above the leaves, from the cells of its children) that lie in the
/// window which starts `p` quarters in.
#[verifier::opaque]
pub open spec fn is_window(nodes: Seq<NodeEntry>, d: nat, id: int, r: int, p: Seq<int>) -> bool {
    &&& 0 <= id < nodes.len()
    &&& 0 <= r < nodes.len()
    &&& nodes[id].layer >= 2
    &&& nodes[r].layer == nodes[id].layer - 1
    &&& in_cube(p, d, 3)
    &&& nodes[id].layer == 2 ==> forall|j: int|
        0 <= j < pow2(d) ==> #[trigger] cells_seq(nodes[r].body)[j] == grandcell(
            nodes,
            id,
            quarter_parent(p, j, d),
            quarter_child(p, j, d),
        )
    &&& nodes[id].layer > 2 ==> forall|j: int|
        0 <= j < pow2(d) ==> #[trigger] children_seq(nodes[r].body)[j] == grandchild(
            nodes,
            id,
            quarter_parent(p, j, d),
            quarter_child(p, j, d),
        )
}

/// The two indices that lead to a grandchild are below `2^d`.
pub proof fn lemma_quarter_bounds(p: Seq<int>, c: int, d: nat)
    requires
        in_cube(p, d, 3),
    ensures
        0 <= quarter_parent(p, c, d) < pow2(d),
        0 <= quarter_child(p, c, d) < pow2(d),
{
    crate::index::lemma_unflat_in_cube(c, 2, d);
    let qa = Seq::new(d, |k: int| (unflat(c, 2, d)[k] + p[k]) / 2);
    let qb = Seq::new(d, |k: int| (unflat(c, 2, d)[k] + p[k]) % 2);
    assert(in_cube(qa, d, 2));
    assert(in_cube(qb, d, 2));
    lemma_flat_bound(qa, 2);
    lemma_flat_bound(qb, 2);
    lemma_pow2_is_pow(d);
}

/// The cell at `x` beneath a window of node `id` is the cell of `id` at
/// `x` moved by the start of the window.
pub proof fn lemma_window_cell(
    nodes: Seq<NodeEntry>,
    d: nat,
    id: int,
    r: int,
    p: Seq<int>,
    x: Seq<int>,
)
    requires
        nodes_wf(nodes, d),
        is_window(nodes, d, id, r, p),
        in_cube(x, d, side((nodes[id].layer - 1) as nat)),
    ensures
        node_cell(nodes, r, x) == node_cell(
            nodes,
            id,
            vec_add(x, scaled(p, side((nodes[id].layer - 2) as nat))),
        ),
{
    reveal(is_window);
    let layer = nodes[id].layer as nat;
    let b = (layer - 2) as nat;
    let y = vec_add(x, scaled(p, side(b)));
    let c = child_index(x, b + 1);
    let qa = quarter_parent(p, c, d);
    let qb = quarter_child(p, c, d);
    lemma_quarter_indices(x, p, b, d);
    assert(entry_wf(nodes, id, d));
    assert(entry_wf(nodes, r, d));
    let kid = children_seq(nodes[id].body)[qa];
    assert(kid < id);
    assert(entry_wf(nodes, kid as int, d));
    assert(node_cell(nodes, id, y) == node_cell(nodes, kid as int, y));
    if layer == 2 {
        assert(node_cell(nodes, kid as int, y) == cells_seq(nodes[kid as int].body)[qb]);
        assert(node_cell(nodes, r, x) == cells_seq(nodes[r].body)[c]);
    } else {
        let g = children_seq(nodes[kid as int].body)[qb];
        assert(g < kid);
        assert(node_cell(nodes, kid as int, y) == node_cell(nodes, g as int, y));
        assert(children_seq(nodes[r].body)[c] == g);
        assert(g < r);
        assert(node_cell(nodes, r, x) == node_cell(nodes, g as int, x));
        lemma_node_cell_low(nodes, d, g as int, y, x);
    }
}

/// For each slot of a node, the population that it holds: of a cell, zero
/// or one; of a child, its population.
pub open spec fn weights(nodes: Seq<NodeEntry>, node: int) -> Seq<int> {
    match nodes[node].body {
        NodeBody::Leaf(cells) => cell_counts(cells@),
        NodeBody::Branch(children) => child_pops(nodes, children@),
    }
}

/// Slot `c` of the centred inner node of a node holds what child `c` of
/// the node holds in the slot opposite to `c`, which is no more than the
/// population of that child.
pub proof fn lemma_inner_term(nodes: Seq<NodeEntry>, d: nat, id: int, inner: int, c: int)
    requires
        nodes_wf(nodes, d),
        is_window(nodes, d, id, inner, Seq::new(d, |k: int| 1int)),
        0 <= c < pow2(d),
    ensures
        ({
            let kid = children_seq(nodes[id].body)[c] as int;
            &&& 0 <= kid < id
            &&& weights(nodes, inner).len() == pow2(d)
            &&& weights(nodes, kid).len() == pow2(d)
            &&& weights(nodes, inner)[c] == weights(nodes, kid)[pow2(d) - 1 - c]
            &&& weights(nodes, inner)[c] <= nodes[kid].population@
            &&& nodes[kid].population@ == seq_sum(weights(nodes, kid))
            &&& forall|j: int| 0 <= j < pow2(d) ==> 0 <= #[trigger] weights(nodes, kid)[j]
        }),
{
    let ones = Seq::new(d, |k: int| 1int);
    let n = pow2(d) as int;
    crate::index::lemma_quarter_centre(c, d);
    assert(0 <= id < nodes.len() && 0 <= inner < nodes.len() && nodes[id].layer >= 2
        && nodes[inner].layer == nodes[id].layer - 1) by {
        reveal(is_window);
    }
    assert(nodes[id].layer == 2 ==> cells_seq(nodes[inner].body)[c] == grandcell(
        nodes,
        id,
        c,
        n - 1 - c,
    )) by {
        reveal(is_window);
    }
    assert(nodes[id].layer > 2 ==> children_seq(nodes[inner].body)[c] == grandchild(
        nodes,
        id,
        c,
        n - 1 - c,
    )) by {
        reveal(is_window);
    }
    assert(entry_wf(nodes, id, d));
    assert(entry_wf(nodes, inner, d));
    let kid = children_seq(nodes[id].body)[c];
    assert(kid < id);
    assert(entry_wf(nodes, kid as int, d));
    let w = weights(nodes, kid as int);
    assert forall|j: int| 0 <= j < pow2(d) implies 0 <= #[trigger] w[j] by {
        crate::cache::lemma_populations_non_negative(nodes, d, kid as int);
        if nodes[kid as int].layer > 1 {
            assert(0 <= child_pops(nodes, children_seq(nodes[kid as int].body))[j]);
        }
    }
    crate::cache::lemma_seq_sum_non_negative(w);
    assert(w[n - 1 - c] <= seq_sum(w));
}

/// Where the centred inner node of a node has the population of the whole
/// node, each child of the node has all its population in the slot
/// opposite to its own.
pub proof fn lemma_inner_equal(nodes: Seq<NodeEntry>, d: nat, id: int, inner: int, c: int)
    requires
        nodes_wf(nodes, d),
        is_window(nodes, d, id, inner, Seq::new(d, |k: int| 1int)),
        nodes[inner].population@ == nodes[id].population@,
        0 <= c < pow2(d),
    ensures
        ({
            let kid = children_seq(nodes[id].body)[c] as int;
            nodes[kid].population@ == weights(nodes, kid)[pow2(d) - 1 - c]
        }),
{
    assert(0 <= id < nodes.len() && 0 <= inner < nodes.len() && nodes[id].layer >= 2) by {
        reveal(is_window);
    }
    assert(entry_wf(nodes, id, d));
    assert(entry_wf(nodes, inner, d));
    let kids = children_seq(nodes[id].body);
    let whole = child_pops(nodes, kids);
    let part = weights(nodes, inner);
    assert forall|j: int| 0 <= j < whole.len() implies #[trigger] part[j] <= whole[j] by {
        lemma_inner_term(nodes, d, id, inner, j);
    }
    lemma_inner_term(nodes, d, id, inner, c);
    crate::cache::lemma_seq_sum_pointwise(whole, part);
    assert(whole[c] == part[c]);
}

/// Where the centred inner node of a node has the population of the whole
/// node, the node holds nothing but zeros outside its centre.
pub proof fn lemma_inner_population(
    nodes: Seq<NodeEntry>,
    d: nat,
    id: int,
    inner: int,
    q: Seq<int>,
)
    requires
        nodes_wf(nodes, d),
        is_window(nodes, d, id, inner, Seq::new(d, |k: int| 1int)),
        nodes[inner].population@ == nodes[id].population@,
        in_cube(q, d, side(nodes[id].layer as nat)),
        !in_cube(
            shifted(q, -side((nodes[id].layer - 2) as nat)),
            d,
            side((nodes[id].layer - 1) as nat),
        ),
    ensures
        node_cell(nodes, id, q) == 0,
{
    assert(0 <= id < nodes.len() && 0 <= inner < nodes.len() && nodes[id].layer >= 2) by {
        reveal(is_window);
    }
    let layer = nodes[id].layer as nat;
    let n = pow2(d) as int;
    assert(entry_wf(nodes, id, d));
    crate::index::lemma_middle_indices(q, (layer - 2) as nat, d);
    let hi = child_index(q, layer);
    let lo = child_index(q, (layer - 1) as nat);
    let kid = children_seq(nodes[id].body)[hi] as int;
    lemma_inner_term(nodes, d, id, inner, hi);
    lemma_inner_equal(nodes, d, id, inner, hi);
    assert(entry_wf(nodes, kid, d));
    assert(node_cell(nodes, id, q) == node_cell(nodes, kid, q));
    crate::cache::lemma_seq_sum_single(weights(nodes, kid), n - 1 - hi);
    assert(weights(nodes, kid)[lo] == 0);
    if layer > 2 {
        let g = children_seq(nodes[kid].body)[lo];
        assert(g < kid);
        crate::cache::lemma_zero_population(nodes, d, g as int, q);
    }
}

/// The point at `x` within slot `j` of child `c` of a node lies in the
/// centre of the node only where `j` is the slot opposite to `c`, and holds
/// what the slot holds there.
pub proof fn lemma_slot_point(nodes: Seq<NodeEntry>, d: nat, id: int, c: int, j: int, x: Seq<int>)
    requires
        nodes_wf(nodes, d),
        0 <= id < nodes.len(),
        nodes[id].layer >= 2,
        0 <= c < pow2(d),
        0 <= j < pow2(d),
        in_cube(x, d, side((nodes[id].layer - 2) as nat)),
    ensures
        ({
            let layer = nodes[id].layer as nat;
            let inside = vec_add(x, scaled(unflat(j, 2, d), side((layer - 2) as nat)));
            let q = vec_add(inside, scaled(unflat(c, 2, d), side((layer - 1) as nat)));
            let kid = children_seq(nodes[id].body)[c] as int;
            &&& in_cube(q, d, side(layer))
            &&& j != pow2(d) - 1 - c ==> !in_cube(
                shifted(q, -side((layer - 2) as nat)),
                d,
                side((layer - 1) as nat),
            )
            &&& 0 <= kid < id
            &&& node_cell(nodes, id, q) == (if layer == 2 {
                cells_seq(nodes[kid].body)[j]
            } else {
                node_cell(nodes, children_seq(nodes[kid].body)[j] as int, x)
            })
        }),
{
    let layer = nodes[id].layer as nat;
    let b = (layer - 2) as nat;
    let inside = vec_add(x, scaled(unflat(j, 2, d), side(b)));
    let q = vec_add(inside, scaled(unflat(c, 2, d), side(b + 1)));
    assert(entry_wf(nodes, id, d));
    crate::index::lemma_child_point(x, j, b, d);
    crate::index::lemma_child_point(inside, c, b + 1, d);
    crate::index::lemma_middle_indices(q, b, d);
    crate::index::lemma_same_low_child(q, inside, b + 1);
    let kid = children_seq(nodes[id].body)[c];
    assert(kid < id);
    assert(entry_wf(nodes, kid as int, d));
    assert(node_cell(nodes, id, q) == node_cell(nodes, kid as int, q));
    assert(child_index(q, b + 1) == j);
    if layer > 2 {
        let g = children_seq(nodes[kid as int].body)[j];
        assert(g < kid);
        assert(node_cell(nodes, kid as int, q) == node_cell(nodes, g as int, q));
        crate::index::lemma_same_low_child(q, inside, b + 1);
        assert(same_low(q, inside, b));
        assert(same_low(q, x, b)) by {
            assert forall|k: int| 0 <= k < q.len() implies (#[trigger] q[k]) % (pow2(b) as int) == (
            #[trigger] x[k]) % (pow2(b) as int) by {
                assert(q[k] % (pow2(b) as int) == inside[k] % (pow2(b) as int));
            }
        }
        lemma_node_cell_low(nodes, d, g as int, q, x);
    }
}

/// Where the centred inner node of a node does not have the population of
/// the whole node, the node holds a cell that is not zero outside its
/// centre.
pub proof fn lemma_outer_cell(nodes: Seq<NodeEntry>, d: nat, id: int, inner: int) -> (q: Seq<int>)
    requires
        nodes_wf(nodes, d),
        is_window(nodes, d, id, inner, Seq::new(d, |k: int| 1int)),
        nodes[inner].population@ != nodes[id].population@,
    ensures
        in_cube(q, d, side(nodes[id].layer as nat)),
        !in_cube(
            shifted(q, -side((nodes[id].layer - 2) as nat)),
            d,
            side((nodes[id].layer - 1) as nat),
        ),
        node_cell(nodes, id, q) != 0,
{
    assert(0 <= id < nodes.len() && 0 <= inner < nodes.len() && nodes[id].layer >= 2) by {
        reveal(is_window);
    }
    let layer = nodes[id].layer as nat;
    let n = pow2(d) as int;
    let outer = |q: Seq<int>|
        in_cube(q, d, side(layer)) && !in_cube(
            shifted(q, -side((layer - 2) as nat)),
            d,
            side((layer - 1) as nat),
        ) && node_cell(nodes, id, q) != 0;
    if forall|q: Seq<int>| !#[trigger] outer(q) {
        assert(entry_wf(nodes, id, d));
        assert(entry_wf(nodes, inner, d));
        let kids = children_seq(nodes[id].body);
        let whole = child_pops(nodes, kids);
        let part = weights(nodes, inner);
        assert forall|c: int| 0 <= c < n implies #[trigger] whole[c] == part[c] by {
            lemma_inner_term(nodes, d, id, inner, c);
            let kid = kids[c] as int;
            let w = weights(nodes, kid);
            assert(entry_wf(nodes, kid, d));
            assert forall|j: int| 0 <= j < n && j != n - 1 - c implies #[trigger] w[j] == 0 by {
                if layer == 2 {
                    let x = Seq::new(d, |k: int| 0int);
                    vstd::arithmetic::power2::lemma2_to64();
                    lemma_slot_point(nodes, d, id, c, j, x);
                    let inside = vec_add(x, scaled(unflat(j, 2, d), side((layer - 2) as nat)));
                    let q = vec_add(inside, scaled(unflat(c, 2, d), side((layer - 1) as nat)));
                    assert(!outer(q));
                } else {
                    let g = children_seq(nodes[kid].body)[j] as int;
                    assert(0 <= g < kid);
                    assert forall|x: Seq<int>|
                        in_cube(
                            x,
                            d,
                            side(nodes[g].layer as nat),
                        ) implies #[trigger] node_cell(nodes, g, x) == 0 by {
                        lemma_slot_point(nodes, d, id, c, j, x);
                        let inside = vec_add(
                            x,
                            scaled(unflat(j, 2, d), side((layer - 2) as nat)),
                        );
                        let q = vec_add(
                            inside,
                            scaled(unflat(c, 2, d), side((layer - 1) as nat)),
                        );
                        assert(!outer(q));
                    }
                    crate::laws::lemma_zero_cells_zero_population(nodes, d, g);
                }
            }
            let only = Seq::new(n as nat, |j: int| 0int).update(n - 1 - c, w[n - 1 - c]);
            assert(w =~= only);
            lemma_seq_sum_update(Seq::new(n as nat, |j: int| 0int), n - 1 - c, w[n - 1 - c]);
            crate::cache::lemma_seq_sum_zero(Seq::new(n as nat, |j: int| 0int));
        }
        assert(whole =~= part);
        assert(false);
    }
    choose|q: Seq<int>| #[trigger] outer(q)
}

/// The indices of the child and of the grandchild of a node in which
/// child `c` of the window that starts `p` quarters in lies.
pub fn quarter_indices<const D: usize>(p: &Vec<usize>, c: usize) -> (r: (usize, usize))
    requires
        1 <= D <= 6,
        in_cube(ints(p@), D as nat, 3),
        c < pow2(D as nat),
    ensures
        r.0 == quarter_parent(ints(p@), c as int, D as nat),
        r.1 == quarter_child(ints(p@), c as int, D as nat),
        r.0 < pow2(D as nat),
        r.1 < pow2(D as nat),
{
    let cd = decode(c, 2, D);
    let mut av: Vec<usize> = Vec::new();
    let mut bv: Vec<usize> = Vec::new();
    let mut k: usize = 0;
    let ghost pv = ints(p@);
    let ghost digits = unflat(c as int, 2, D as nat);
    while k < D
        invariant
            k <= D,
            pv == ints(p@),
            in_cube(pv, D as nat, 3),
            ints(cd@) =~= digits,
            in_cube(digits, D as nat, 2),
            cd@.len() == D,
            av@.len() == k,
            bv@.len() == k,
            forall|j: int| 0 <= j < k ==> #[trigger] av@[j] == (digits[j] + pv[j]) / 2,
            forall|j: int| 0 <= j < k ==> #[trigger] bv@[j] == (digits[j] + pv[j]) % 2,
        decreases D - k,
    {
        assert(ints(cd@)[k as int] == digits[k as int]);
        assert(pv[k as int] == p@[k as int]);
        let sum = cd[k] + p[k];
        av.push(sum / 2);
        bv.push(sum % 2);
        k += 1;
    }
    proof {
        let qa = Seq::new(D as nat, |k: int| (digits[k] + pv[k]) / 2);
        let qb = Seq::new(D as nat, |k: int| (digits[k] + pv[k]) % 2);
        assert(ints(av@) =~= qa);
        assert(ints(bv@) =~= qb);
        lemma_pow2_is_pow(D as nat);
        vstd::arithmetic::power2::lemma2_to64();
    }
    let a = encode(&av, 2);
    let b = encode(&bv, 2);
    (a, b)
}

/// A leaf `r` that differs from leaf `id` in the cell at `rel` alone, which
/// holds `state`, differs from it at the points that agree with `rel` in
/// their lowest binary digit.
pub proof fn lemma_leaf_update(
    nodes: Seq<NodeEntry>,
    d: nat,
    id: int,
    r: int,
    rel: Seq<int>,
    state: Cell,
    p: Seq<int>,
)
    requires
        nodes_wf(nodes, d),
        0 <= id < nodes.len(),
        0 <= r < nodes.len(),
        p.len() == d,
        rel.len() == d,
        non_negative(p),
        non_negative(rel),
        nodes[id].body matches NodeBody::Leaf(before) && (nodes[r].body matches NodeBody::Leaf(
            after,
        ) && after@ == before@.update(child_index(rel, 1), state)),
    ensures
        node_cell(nodes, r, p) == (if same_low(p, rel, 1) {
            state
        } else {
            node_cell(nodes, id, p)
        }),
{
    assert(entry_wf(nodes, id, d));
    assert(entry_wf(nodes, r, d));
    lemma_same_low_zero(p, rel);
    lemma_same_low_step(p, rel, 1);
    crate::index::lemma_child_index_bound(p, 1);
    crate::index::lemma_child_index_bound(rel, 1);
}

/// A node `r` that differs from node `id` in the child that holds `rel`
/// alone, where that child differs from the old one at the points that
/// agree with `rel` below the child's side, differs from `id` at the points
/// that agree with `rel` below its own side.
pub proof fn lemma_branch_update(
    nodes: Seq<NodeEntry>,
    d: nat,
    id: int,
    r: int,
    new_child: NodeId,
    rel: Seq<int>,
    state: Cell,
    p: Seq<int>,
)
    requires
        nodes_wf(nodes, d),
        0 <= id < nodes.len(),
        0 <= r < nodes.len(),
        new_child < nodes.len(),
        p.len() == d,
        rel.len() == d,
        non_negative(p),
        non_negative(rel),
        nodes[id].layer == nodes[r].layer,
        nodes[id].body matches NodeBody::Branch(kids) && (nodes[r].body matches NodeBody::Branch(
            after,
        ) && after@ == kids@.update(
            child_index(rel, nodes[id].layer as nat),
            new_child,
        ) && node_cell(nodes, new_child as int, p) == (if same_low(
            p,
            rel,
            (nodes[id].layer - 1) as nat,
        ) {
            state
        } else {
            node_cell(nodes, kids@[child_index(rel, nodes[id].layer as nat)] as int, p)
        })),
    ensures
        node_cell(nodes, r, p) == (if same_low(p, rel, nodes[id].layer as nat) {
            state
        } else {
            node_cell(nodes, id, p)
        }),
{
    assert(entry_wf(nodes, id, d));
    assert(entry_wf(nodes, r, d));
    let layer = nodes[id].layer as nat;
    let j = child_index(p, layer);
    let i = child_index(rel, layer);
    crate::index::lemma_child_index_bound(p, layer);
    crate::index::lemma_child_index_bound(rel, layer);
    let kids = crate::cache::children_seq(nodes[id].body);
    let after = crate::cache::children_seq(nodes[r].body);
    assert(after[j] < r);
    assert(kids[j] < id);
    assert(node_cell(nodes, r, p) == node_cell(nodes, after[j] as int, p));
    assert(node_cell(nodes, id, p) == node_cell(nodes, kids[j] as int, p));
    assert(same_low(p, rel, layer) <==> (same_low(p, rel, (layer - 1) as nat) && j == i)) by {
        lemma_same_low_step(p, rel, layer);
    }
}

} // verus!
