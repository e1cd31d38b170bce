//! Nodes as windows onto a grid.
//!
//! A node shows a grid at a place when its cells are the cells of the grid
//! in the cube that starts there. The stepper is proved in these terms: the
//! windows of a node show the node's grid at their starts, and the advanced
//! inner node of a window shows the advanced grid a quarter further in.

use crate::cache::{entry_wf, lemma_node_cell_extends, lemma_node_cell_low, NodeCache, NodeId};
use crate::evolve::{evolve, lemma_evolve_local, reach, within, Grid};
use crate::index::{
    bits_at, child_index, in_cube, lemma_bits_in_cube, lemma_child_index_bound,
    lemma_moved_digits, lemma_unflat_flat, scaled, side, unflat, vec_add,
};
use crate::rule::Rule;
use vstd::arithmetic::power2::{lemma_pow2_pos, lemma_pow2_unfold, pow2};
use vstd::prelude::*;

verus! {

/// The point with `d` coordinates that all equal `c`.
pub open spec fn fill(d: nat, c: int) -> Seq<int> {
    Seq::new(d, |k: int| c)
}

/// The grid that holds the cells of node `id` in the cube of the node at
/// the origin, and zero everywhere else.
pub open spec fn node_grid<const D: usize>(cache: &NodeCache<D>, id: NodeId) -> Grid {
    |p: Seq<int>|
        if in_cube(p, D as nat, side(cache.layer_of(id))) {
            cache.cell(id, p)
        } else {
            0u8
        }
}

/// Node `id`, of layer `layer`, holds the cells of grid `g` in the cube
/// that starts at `at`.
#[verifier::opaque]
pub open spec fn shows<const D: usize>(
    cache: &NodeCache<D>,
    id: NodeId,
    layer: nat,
    g: Grid,
    at: Seq<int>,
) -> bool {
    &&& cache.valid(id)
    &&& cache.layer_of(id) == layer
    &&& at.len() == D
    &&& forall|x: Seq<int>|
        in_cube(x, D as nat, side(layer)) ==> #[trigger] cache.cell(id, x) == g(vec_add(x, at))
}

/// What shows something is a node of the layer named.
pub proof fn lemma_shows_valid<const D: usize>(
    cache: &NodeCache<D>,
    id: NodeId,
    layer: nat,
    g: Grid,
    at: Seq<int>,
)
    requires
        shows(cache, id, layer, g, at),
    ensures
        cache.valid(id),
        cache.layer_of(id) == layer,
        at.len() == D,
{
    reveal(shows);
}

/// A leaf whose cell `c`, for every `c`, is the cell of a grid at the
/// corner that `c` names, shows that grid.
pub proof fn lemma_shows_leaf<const D: usize>(
    cache: &NodeCache<D>,
    id: NodeId,
    g: Grid,
    at: Seq<int>,
)
    requires
        cache.wf(),
        cache.valid(id),
        cache.layer_of(id) == 1,
        at.len() == D,
        forall|c: int|
            0 <= c < pow2(D as nat) ==> #[trigger] cache.leaf_cells_of(id)[c] == g(
                vec_add(unflat(c, 2, D as nat), at),
            ),
    ensures
        shows(cache, id, 1, g, at),
{
    reveal(shows);
    assert(entry_wf(cache.nodes@, id as int, D as nat));
    vstd::arithmetic::power2::lemma2_to64();
    assert forall|x: Seq<int>| in_cube(x, D as nat, side(1)) implies #[trigger] cache.cell(id, x)
        == g(vec_add(x, at)) by {
        let c = child_index(x, 1);
        let cd = bits_at(x, 0);
        lemma_child_index_bound(x, 1);
        lemma_bits_in_cube(x, 0);
        lemma_unflat_flat(cd, 2);
        assert(cd =~= x);
        assert(cache.cell(id, x) == cache.leaf_cells_of(id)[c]);
    }
}

/// A node shows its own grid at the origin.
pub proof fn lemma_shows_self<const D: usize>(cache: &NodeCache<D>, id: NodeId)
    requires
        cache.valid(id),
    ensures
        shows(cache, id, cache.layer_of(id), node_grid(cache, id), fill(D as nat, 0)),
{
    reveal(shows);
    assert forall|x: Seq<int>|
        in_cube(x, D as nat, side(cache.layer_of(id))) implies #[trigger] cache.cell(id, x)
        == node_grid(cache, id)(vec_add(x, fill(D as nat, 0))) by {
        assert(vec_add(x, fill(D as nat, 0)) =~= x);
    }
}

/// The grid of a node does not change when the cache grows.
pub proof fn lemma_node_grid_extends<const D: usize>(
    new: &NodeCache<D>,
    old: &NodeCache<D>,
    id: NodeId,
)
    requires
        old.wf(),
        new.extends(old),
        old.valid(id),
    ensures
        node_grid(new, id) == node_grid(old, id),
{
    assert forall|p: Seq<int>| #[trigger] node_grid(new, id)(p) == node_grid(old, id)(p) by {
        lemma_node_cell_extends(new.nodes@, old.nodes@, D as nat, id as int, p);
    }
    assert(node_grid(new, id) =~= node_grid(old, id));
}

/// What a node shows does not change when the cache grows.
pub proof fn lemma_shows_extends<const D: usize>(
    new: &NodeCache<D>,
    old: &NodeCache<D>,
    id: NodeId,
    layer: nat,
    g: Grid,
    at: Seq<int>,
)
    requires
        old.wf(),
        new.extends(old),
        shows(old, id, layer, g, at),
    ensures
        shows(new, id, layer, g, at),
{
    reveal(shows);
    assert forall|x: Seq<int>| in_cube(x, D as nat, side(layer)) implies #[trigger] new.cell(id, x)
        == g(vec_add(x, at)) by {
        lemma_node_cell_extends(new.nodes@, old.nodes@, D as nat, id as int, x);
        assert(old.cell(id, x) == g(vec_add(x, at)));
    }
}

/// The window of a node that starts `p` quarters in shows what the node
/// shows, `p` quarters further on.
pub proof fn lemma_shows_window<const D: usize>(
    new: &NodeCache<D>,
    old: &NodeCache<D>,
    id: NodeId,
    sub: NodeId,
    p: Seq<int>,
    g: Grid,
    at: Seq<int>,
)
    requires
        old.wf(),
        new.extends(old),
        old.layer_of(id) >= 2,
        shows(old, id, old.layer_of(id), g, at),
        in_cube(p, D as nat, 3),
        new.valid(sub),
        new.layer_of(sub) == old.layer_of(id) - 1,
        forall|x: Seq<int>|
            in_cube(x, D as nat, side((old.layer_of(id) - 1) as nat)) ==> #[trigger] new.cell(sub, x)
                == old.cell(id, vec_add(x, scaled(p, side((old.layer_of(id) - 2) as nat)))),
    ensures
        shows(
            new,
            sub,
            (old.layer_of(id) - 1) as nat,
            g,
            vec_add(at, scaled(p, side((old.layer_of(id) - 2) as nat))),
        ),
{
    reveal(shows);
    let layer = old.layer_of(id);
    let h = side((layer - 2) as nat);
    let to = vec_add(at, scaled(p, h));
    lemma_pow2_pos((layer - 2) as nat);
    lemma_pow2_unfold((layer - 1) as nat);
    lemma_pow2_unfold(layer);
    assert forall|x: Seq<int>|
        in_cube(x, D as nat, side((layer - 1) as nat)) implies #[trigger] new.cell(sub, x) == g(
        vec_add(x, to),
    ) by {
        let y = vec_add(x, scaled(p, h));
        assert forall|k: int| 0 <= k < D implies 0 <= #[trigger] y[k] < side(layer) by {
            assert(y[k] == x[k] + p[k] * h);
            assert(0 <= p[k] * h <= 2 * h) by (nonlinear_arith)
                requires
                    0 <= p[k] < 3,
                    h > 0,
            ;
        }
        assert(old.cell(id, y) == g(vec_add(y, at)));
        assert(vec_add(y, at) =~= vec_add(x, to));
    }
}

/// A node whose child `c`, for every `c`, shows a grid at the corner of
/// the node that `c` names, shows that grid itself.
pub proof fn lemma_shows_join<const D: usize>(
    cache: &NodeCache<D>,
    id: NodeId,
    layer: nat,
    g: Grid,
    at: Seq<int>,
)
    requires
        cache.wf(),
        cache.valid(id),
        cache.layer_of(id) == layer + 1,
        layer >= 1,
        at.len() == D,
        forall|c: int|
            0 <= c < pow2(D as nat) ==> shows(
                cache,
                #[trigger] cache.children_of(id)[c],
                layer,
                g,
                vec_add(at, scaled(unflat(c, 2, D as nat), side(layer))),
            ),
    ensures
        shows(cache, id, layer + 1, g, at),
{
    reveal(shows);
    assert(entry_wf(cache.nodes@, id as int, D as nat));
    let h = side(layer);
    lemma_pow2_pos(layer);
    lemma_pow2_unfold(layer + 1);
    assert forall|x: Seq<int>| in_cube(x, D as nat, side(layer + 1)) implies #[trigger] cache.cell(
        id,
        x,
    ) == g(vec_add(x, at)) by {
        let c = child_index(x, layer + 1);
        let cd = bits_at(x, layer);
        lemma_child_index_bound(x, layer + 1);
        lemma_bits_in_cube(x, layer);
        lemma_unflat_flat(cd, 2);
        let kid = cache.children_of(id)[c];
        assert(kid < id);
        assert(cache.cell(id, x) == cache.cell(kid, x));
        let low = Seq::new(D as nat, |k: int| x[k] - cd[k] * h);
        assert forall|k: int| 0 <= k < D implies 0 <= #[trigger] low[k] < h && low[k] % h == x[k]
            % h by {
            lemma_moved_digits(x[k], 0, layer);
            vstd::arithmetic::div_mod::lemma_fundamental_div_mod(x[k], h);
            assert(cd[k] * h == h * (x[k] / h)) by (nonlinear_arith)
                requires
                    cd[k] == x[k] / h,
            ;
            vstd::arithmetic::div_mod::lemma_small_mod((x[k] % h) as nat, h as nat);
        }
        lemma_node_cell_low(cache.nodes@, D as nat, kid as int, x, low);
        let to = vec_add(at, scaled(unflat(c, 2, D as nat), h));
        assert(shows(cache, kid, layer, g, to));
        assert(cache.cell(kid, low) == g(vec_add(low, to)));
        assert(vec_add(low, to) =~= vec_add(x, at));
    }
}

/// Where a node shows a grid `g` at `at`, and another node shows the grid
/// of the first, advanced, a quarter in, and nothing reaches further than a
/// quarter in the time, that node shows `g`, advanced, a quarter further on
/// than `at`.
pub proof fn lemma_shows_advanced<const D: usize, R: Rule<D>>(
    rule: &R,
    cache: &NodeCache<D>,
    id: NodeId,
    result: NodeId,
    g: Grid,
    at: Seq<int>,
    n: nat,
)
    requires
        cache.wf(),
        cache.valid(id),
        cache.layer_of(id) >= 2,
        shows(cache, id, cache.layer_of(id), g, at),
        shows(
            cache,
            result,
            (cache.layer_of(id) - 1) as nat,
            evolve(rule, node_grid(cache, id), n),
            fill(D as nat, side((cache.layer_of(id) - 2) as nat)),
        ),
        reach(rule, n) <= side((cache.layer_of(id) - 2) as nat),
    ensures
        shows(
            cache,
            result,
            (cache.layer_of(id) - 1) as nat,
            evolve(rule, g, n),
            vec_add(at, fill(D as nat, side((cache.layer_of(id) - 2) as nat))),
        ),
{
    reveal(shows);
    let layer = cache.layer_of(id);
    let h = side((layer - 2) as nat);
    let own = node_grid(cache, id);
    let to = vec_add(at, fill(D as nat, h));
    lemma_pow2_pos((layer - 2) as nat);
    lemma_pow2_unfold((layer - 1) as nat);
    lemma_pow2_unfold(layer);
    assert forall|x: Seq<int>|
        in_cube(x, D as nat, side((layer - 1) as nat)) implies #[trigger] cache.cell(result, x)
        == evolve(rule, g, n)(vec_add(x, to)) by {
        let y = vec_add(x, fill(D as nat, h));
        assert(cache.cell(result, x) == evolve(rule, own, n)(y));
        assert forall|q: Seq<int>| #[trigger] within(q, y, reach(rule, n)) implies own(q) == g(
            vec_add(q, at),
        ) by {
            assert forall|k: int| 0 <= k < D implies 0 <= #[trigger] q[k] < side(layer) by {
                assert(-reach(rule, n) <= q[k] - y[k] <= reach(rule, n));
                assert(y[k] == x[k] + h);
            }
            assert(in_cube(q, D as nat, side(layer)));
            assert(cache.cell(id, q) == g(vec_add(q, at)));
        }
        lemma_evolve_local(rule, own, g, at, n, y);
        assert(vec_add(y, at) =~= vec_add(x, to));
    }
}

} // verus!
