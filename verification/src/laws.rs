//! Laws of the engine: what holds of the node store, of trees and of
//! stepping as a whole, beyond what each operation promises for itself.

use crate::cache::{
    cell_counts, cells_seq, child_pops, children_seq, entry_wf, lemma_node_cell_low,
    lemma_seq_sum_zero, node_cell, nodes_wf, same_body, Cell, NodeCache, NodeEntry, NodeId,
};
use crate::evolve::{evolve, is_b0, lemma_evolve_add, lemma_evolve_zero, zero_grid, Grid};
use crate::index::{
    bits_at, in_cube, lemma_child_point, lemma_flat_unflat, lemma_pow2_is_pow,
    lemma_unflat_in_cube, scaled, side, unflat, vec_add, vec_sub,
};
use crate::ndtree::NdTree;
use crate::rule::Rule;
use vstd::arithmetic::power2::pow2;
use vstd::prelude::*;

verus! {

/// Interning: two nodes of a cache with the same content, the same cells
/// for leaves and the same children for other nodes, are the same node.
pub proof fn lemma_interned_once<const D: usize>(cache: &NodeCache<D>, a: NodeId, b: NodeId)
    requires
        cache.wf(),
        cache.valid(a),
        cache.valid(b),
        same_body(cache.nodes@[a as int].body, cache.nodes@[b as int].body),
    ensures
        a == b,
{
}

/// The cell of a leaf at the point whose coordinates are the binary digits
/// of `i` is cell `i` of the leaf.
pub proof fn lemma_leaf_point(nodes: Seq<NodeEntry>, d: nat, id: int, i: int)
    requires
        nodes_wf(nodes, d),
        0 <= id < nodes.len(),
        nodes[id].layer == 1,
        0 <= i < pow2(d),
    ensures
        in_cube(unflat(i, 2, d), d, side(1)),
        node_cell(nodes, id, unflat(i, 2, d)) == cells_seq(nodes[id].body)[i],
{
    assert(entry_wf(nodes, id, d));
    let x = unflat(i, 2, d);
    vstd::arithmetic::power2::lemma2_to64();
    lemma_pow2_is_pow(d);
    lemma_unflat_in_cube(i, 2, d);
    lemma_flat_unflat(i, 2, d);
    assert(bits_at(x, 0) =~= x);
}

/// Two nodes of the same layer that hold the same cell at every point of
/// their cube are the same node: in a cache, equal contents mean equal
/// names.
pub proof fn lemma_same_cells_same_node(nodes: Seq<NodeEntry>, d: nat, a: int, b: int)
    requires
        nodes_wf(nodes, d),
        0 <= a < nodes.len(),
        0 <= b < nodes.len(),
        nodes[a].layer == nodes[b].layer,
        forall|x: Seq<int>|
            in_cube(x, d, side(nodes[a].layer as nat)) ==> #[trigger] node_cell(nodes, a, x)
                == node_cell(nodes, b, x),
    ensures
        a == b,
    decreases a,
{
    assert(entry_wf(nodes, a, d));
    assert(entry_wf(nodes, b, d));
    let layer = nodes[a].layer as nat;
    if layer == 1 {
        let ca = cells_seq(nodes[a].body);
        let cb = cells_seq(nodes[b].body);
        assert forall|i: int| 0 <= i < ca.len() implies ca[i] == cb[i] by {
            lemma_leaf_point(nodes, d, a, i);
            lemma_leaf_point(nodes, d, b, i);
        }
        assert(ca =~= cb);
        assert(same_body(nodes[a].body, nodes[b].body));
    } else {
        let ka = children_seq(nodes[a].body);
        let kb = children_seq(nodes[b].body);
        assert forall|i: int| 0 <= i < ka.len() implies ka[i] == kb[i] by {
            assert(ka[i] < a);
            assert(kb[i] < b);
            assert forall|x: Seq<int>|
                in_cube(x, d, side((layer - 1) as nat)) implies #[trigger] node_cell(
                nodes,
                ka[i] as int,
                x,
            ) == node_cell(nodes, kb[i] as int, x) by {
                let y = vec_add(x, scaled(unflat(i, 2, d), side((layer - 1) as nat)));
                lemma_child_point(x, i, (layer - 1) as nat, d);
                assert(node_cell(nodes, a, y) == node_cell(nodes, ka[i] as int, y));
                assert(node_cell(nodes, b, y) == node_cell(nodes, kb[i] as int, y));
                lemma_node_cell_low(nodes, d, ka[i] as int, y, x);
                lemma_node_cell_low(nodes, d, kb[i] as int, y, x);
            }
            lemma_same_cells_same_node(nodes, d, ka[i] as int, kb[i] as int);
        }
        assert(ka =~= kb);
        assert(same_body(nodes[a].body, nodes[b].body));
    }
}

/// A node that holds zero at every point of its cube has no population.
pub proof fn lemma_zero_cells_zero_population(nodes: Seq<NodeEntry>, d: nat, id: int)
    requires
        nodes_wf(nodes, d),
        0 <= id < nodes.len(),
        forall|x: Seq<int>|
            in_cube(x, d, side(nodes[id].layer as nat)) ==> #[trigger] node_cell(nodes, id, x) == 0,
    ensures
        nodes[id].population@ == 0,
    decreases id,
{
    assert(entry_wf(nodes, id, d));
    let layer = nodes[id].layer as nat;
    if layer == 1 {
        let cells = cells_seq(nodes[id].body);
        assert forall|i: int| 0 <= i < cells.len() implies #[trigger] cell_counts(cells)[i]
            == 0 by {
            lemma_leaf_point(nodes, d, id, i);
        }
        lemma_seq_sum_zero(cell_counts(cells));
    } else {
        let kids = children_seq(nodes[id].body);
        assert forall|i: int| 0 <= i < kids.len() implies #[trigger] child_pops(nodes, kids)[i]
            == 0 by {
            assert(kids[i] < id);
            assert forall|x: Seq<int>|
                in_cube(x, d, side((layer - 1) as nat)) implies #[trigger] node_cell(
                nodes,
                kids[i] as int,
                x,
            ) == 0 by {
                let y = vec_add(x, scaled(unflat(i, 2, d), side((layer - 1) as nat)));
                lemma_child_point(x, i, (layer - 1) as nat, d);
                assert(node_cell(nodes, id, y) == node_cell(nodes, kids[i] as int, y));
                lemma_node_cell_low(nodes, d, kids[i] as int, y, x);
            }
            lemma_zero_cells_zero_population(nodes, d, kids[i] as int);
        }
        lemma_seq_sum_zero(child_pops(nodes, kids));
    }
}

/// A cache holds one empty node of each layer at most: two nodes of one
/// layer without population are the same node. So the node whose children
/// are all the empty node of their layer is the empty node of the next
/// layer.
pub proof fn lemma_empty_node_unique<const D: usize>(cache: &NodeCache<D>, a: NodeId, b: NodeId)
    requires
        cache.wf(),
        cache.valid(a),
        cache.valid(b),
        cache.layer_of(a) == cache.layer_of(b),
        cache.population_of(a) == 0,
        cache.population_of(b) == 0,
    ensures
        a == b,
{
    assert forall|x: Seq<int>|
        in_cube(x, D as nat, side(cache.layer_of(a))) implies #[trigger] node_cell(
        cache.nodes@,
        a as int,
        x,
    ) == node_cell(cache.nodes@, b as int, x) by {
        crate::cache::lemma_zero_population(cache.nodes@, D as nat, a as int, x);
        crate::cache::lemma_zero_population(cache.nodes@, D as nat, b as int, x);
    }
    lemma_same_cells_same_node(cache.nodes@, D as nat, a as int, b as int);
}

/// Two trees on one cache that stand for the same grid, with roots of the
/// same layer at the same place, have the same root: building a pattern
/// twice gives the same node.
pub proof fn lemma_same_grid_same_root<const D: usize>(
    cache: &NodeCache<D>,
    a: &NdTree<D>,
    b: &NdTree<D>,
)
    requires
        a.wf(cache),
        b.wf(cache),
        a.layer(cache) == b.layer(cache),
        a.offset@ == b.offset@,
        forall|p: Seq<int>| #[trigger] a.cell(cache, p) == b.cell(cache, p),
    ensures
        a.root == b.root,
{
    let layer = a.layer(cache);
    assert forall|x: Seq<int>| in_cube(x, D as nat, side(layer)) implies #[trigger] node_cell(
        cache.nodes@,
        a.root as int,
        x,
    ) == node_cell(cache.nodes@, b.root as int, x) by {
        let p = vec_add(x, a.offset@);
        assert(vec_sub(p, a.offset@) =~= x);
        assert(a.cell(cache, p) == b.cell(cache, p));
    }
    lemma_same_cells_same_node(cache.nodes@, D as nat, a.root as int, b.root as int);
}

/// The grid that `writes`, each a position and a state, leave behind when
/// they are applied to `g` in order.
pub open spec fn written(g: Grid, writes: Seq<(Seq<int>, Cell)>) -> Grid
    decreases writes.len(),
{
    if writes.len() == 0 {
        g
    } else {
        let before = written(g, writes.drop_last());
        |p: Seq<int>|
            if p == writes.last().0 {
                writes.last().1
            } else {
                before(p)
            }
    }
}

/// The state that the last of `writes` to the position `p` set, if any of
/// them was to `p`.
pub open spec fn last_write(writes: Seq<(Seq<int>, Cell)>, p: Seq<int>) -> Option<Cell>
    decreases writes.len(),
{
    if writes.len() == 0 {
        None
    } else if writes.last().0 == p {
        Some(writes.last().1)
    } else {
        last_write(writes.drop_last(), p)
    }
}

/// Round trip: after any sequence of writes, a cell holds the state that
/// the last write to it set, and what it held before where none was to it.
pub proof fn lemma_last_write_wins(g: Grid, writes: Seq<(Seq<int>, Cell)>, p: Seq<int>)
    ensures
        written(g, writes)(p) == (match last_write(writes, p) {
            Some(c) => c,
            None => g(p),
        }),
    decreases writes.len(),
{
    if writes.len() > 0 {
        lemma_last_write_wins(g, writes.drop_last(), p);
    }
}

/// Determinism: two trees that both stand for a grid advanced by `n`
/// generations, from grids that are the same, stand for the same grid.
pub proof fn lemma_step_deterministic<const D: usize, R: Rule<D>>(
    rule: &R,
    first: Grid,
    second: Grid,
    n: nat,
    cache_a: &NodeCache<D>,
    a: &NdTree<D>,
    cache_b: &NodeCache<D>,
    b: &NdTree<D>,
    p: Seq<int>,
)
    requires
        p.len() == D,
        forall|q: Seq<int>| #[trigger] first(q) == second(q),
        a.cell(cache_a, p) == evolve(rule, first, n)(p),
        b.cell(cache_b, p) == evolve(rule, second, n)(p),
    ensures
        a.cell(cache_a, p) == b.cell(cache_b, p),
{
    assert(first =~= second);
}

/// Additivity: a tree that stands for a grid advanced by `a` generations
/// and then by `b` stands for the grid advanced by `a + b` generations.
pub proof fn lemma_steps_add<const D: usize, R: Rule<D>>(
    rule: &R,
    start: Grid,
    a: nat,
    b: nat,
    cache_mid: &NodeCache<D>,
    mid: &NdTree<D>,
    cache_end: &NodeCache<D>,
    end: &NdTree<D>,
    p: Seq<int>,
)
    requires
        p.len() == D,
        forall|q: Seq<int>| q.len() == D ==> #[trigger] mid.cell(cache_mid, q) == evolve(rule, start, a)(q),
        end.cell(cache_end, p) == evolve(rule, mid.grid(cache_mid), b)(p),
    ensures
        end.cell(cache_end, p) == evolve(rule, start, a + b)(p),
{
    let zero = Seq::new(D as nat, |k: int| 0int);
    assert forall|q: Seq<int>| #[trigger]
        crate::evolve::within(q, p, crate::evolve::reach(rule, b)) implies mid.grid(cache_mid)(q)
        == evolve(rule, start, a)(vec_add(q, zero)) by {
        assert(vec_add(q, zero) =~= q);
    }
    crate::evolve::lemma_evolve_local(rule, mid.grid(cache_mid), evolve(rule, start, a), zero, b, p);
    assert(vec_add(p, zero) =~= p);
    lemma_evolve_add(rule, start, a, b);
}

/// Empty invariance: under a rule that leaves an empty neighbourhood
/// empty, a tree that stands for the empty grid advanced by any number of
/// generations is empty, and its root has no population.
pub proof fn lemma_empty_stays_empty<const D: usize, R: Rule<D>>(
    rule: &R,
    start: Grid,
    n: nat,
    cache: &NodeCache<D>,
    tree: &NdTree<D>,
)
    requires
        !is_b0(rule),
        tree.wf(cache),
        forall|q: Seq<int>| #[trigger] start(q) == 0,
        forall|p: Seq<int>|
            p.len() == D ==> #[trigger] tree.cell(cache, p) == evolve(rule, start, n)(p),
    ensures
        forall|p: Seq<int>| #[trigger] tree.cell(cache, p) == 0,
        tree.population_of(cache) == 0,
{
    assert(start =~= zero_grid());
    assert forall|p: Seq<int>| #[trigger] tree.cell(cache, p) == 0 by {
        if p.len() == D {
            lemma_evolve_zero(rule, n, p);
        }
    }
    let layer = tree.layer(cache);
    assert forall|x: Seq<int>| in_cube(x, D as nat, side(layer)) implies #[trigger] node_cell(
        cache.nodes@,
        tree.root as int,
        x,
    ) == 0 by {
        let p = vec_add(x, tree.offset@);
        assert(vec_sub(p, tree.offset@) =~= x);
        assert(tree.cell(cache, p) == 0);
    }
    lemma_zero_cells_zero_population(cache.nodes@, D as nat, tree.root as int);
}

} // verus!
