//! Counting cells: the population of a node is the number of points of its
//! cube that hold a cell that is not zero, and one generation of a rule that
//! leaves empty space empty multiplies the population by no more than the
//! size of a neighbourhood.

use crate::cache::{
    cells_seq, children_seq, entry_wf, lemma_node_cell_low, node_cell, nodes_wf, seq_sum,
    NodeCache, NodeEntry,
};
use crate::evolve::{evolve, is_b0, neighborhood, offset_of, step_grid, within, Grid};
use crate::index::{
    child_index, flat, in_cube, lemma_child_index_bound, lemma_child_point, lemma_flat_bound,
    lemma_flat_unflat, lemma_unflat_flat, lemma_unflat_in_cube, scaled, shifted, side, unflat,
    vec_add, vec_sub,
};
use crate::ndtree::NdTree;
use crate::node::weights;
use crate::rule::{neighborhood_len, Rule};
use vstd::arithmetic::power::pow;
use vstd::arithmetic::power2::{lemma_pow2_pos, pow2};
use vstd::prelude::*;
use vstd::relations::injective_on;
use vstd::set_lib::{
    lemma_int_range, lemma_len_subset, lemma_len_union, lemma_map_size, set_int_range,
};

verus! {

/// The points of the cube of side `s` in `d` dimensions.
pub open spec fn cube_set(d: nat, s: int) -> Set<Seq<int>> {
    Set::new(|x: Seq<int>| in_cube(x, d, s))
}

/// The cube of side `s` in `d` dimensions has `s^d` points.
pub proof fn lemma_cube_size(d: nat, s: int)
    requires
        s >= 1,
    ensures
        cube_set(d, s).finite(),
        cube_set(d, s).len() == pow(s, d),
{
    let numbers = set_int_range(0, pow(s, d));
    let f = |i: int| unflat(i, s, d);
    vstd::arithmetic::power::lemma_pow_positive(s, d);
    lemma_int_range(0, pow(s, d));
    assert forall|i: int, j: int|
        numbers.contains(i) && numbers.contains(j) && #[trigger] f(i) == #[trigger] f(
            j,
        ) implies i == j by {
        lemma_flat_unflat(i, s, d);
        lemma_flat_unflat(j, s, d);
    }
    assert(injective_on(f, numbers));
    assert forall|x: Seq<int>| numbers.map(f).contains(x) <==> cube_set(d, s).contains(x) by {
        if numbers.map(f).contains(x) {
            let i = choose|i: int| numbers.contains(i) && f(i) == x;
            lemma_unflat_in_cube(i, s, d);
        }
        if cube_set(d, s).contains(x) {
            lemma_flat_bound(x, s);
            lemma_unflat_flat(x, s);
            assert(numbers.contains(flat(x, s)) && f(flat(x, s)) == x);
        }
    }
    assert(numbers.map(f) =~= cube_set(d, s));
    lemma_map_size(numbers, cube_set(d, s), f);
}

/// A set moved by `v`.
pub open spec fn moved_set(s: Set<Seq<int>>, v: Seq<int>) -> Set<Seq<int>> {
    s.map(|x: Seq<int>| vec_add(x, v))
}

/// Moving a finite set of points of one dimension keeps its size.
pub proof fn lemma_moved_size(s: Set<Seq<int>>, v: Seq<int>)
    requires
        s.finite(),
        forall|x: Seq<int>| s.contains(x) ==> x.len() == v.len(),
    ensures
        moved_set(s, v).finite(),
        moved_set(s, v).len() == s.len(),
{
    let f = |x: Seq<int>| vec_add(x, v);
    assert forall|a: Seq<int>, b: Seq<int>|
        s.contains(a) && s.contains(b) && #[trigger] f(a) == #[trigger] f(b) implies a == b by {
        assert forall|k: int| 0 <= k < a.len() implies a[k] == b[k] by {
            assert(f(a)[k] == a[k] + v[k]);
            assert(f(b)[k] == b[k] + v[k]);
        }
        assert(f(a).len() == a.len());
        assert(f(b).len() == b.len());
        assert(a =~= b);
    }
    assert(injective_on(f, s));
    lemma_map_size(s, moved_set(s, v), f);
}

/// The points of the cube of a node at which the node holds a cell that is
/// not zero.
pub open spec fn node_live(nodes: Seq<NodeEntry>, d: nat, id: int) -> Set<Seq<int>> {
    Set::new(
        |x: Seq<int>|
            in_cube(x, d, side(nodes[id].layer as nat)) && node_cell(nodes, id, x) != 0,
    )
}

/// The live points of a node that lie in slot `k` of the node.
pub open spec fn live_in_slot(nodes: Seq<NodeEntry>, d: nat, id: int, k: int) -> Set<Seq<int>> {
    Set::new(
        |x: Seq<int>|
            in_cube(x, d, side(nodes[id].layer as nat)) && node_cell(nodes, id, x) != 0
                && child_index(x, nodes[id].layer as nat) == k,
    )
}

/// The live points of a node that lie in a slot below `k`.
pub open spec fn live_below(nodes: Seq<NodeEntry>, d: nat, id: int, k: int) -> Set<Seq<int>> {
    Set::new(
        |x: Seq<int>|
            in_cube(x, d, side(nodes[id].layer as nat)) && node_cell(nodes, id, x) != 0
                && child_index(x, nodes[id].layer as nat) < k,
    )
}

/// The live points of a node form a finite set.
pub proof fn lemma_node_live_finite(nodes: Seq<NodeEntry>, d: nat, id: int)
    requires
        0 <= id < nodes.len(),
    ensures
        node_live(nodes, d, id).finite(),
        forall|k: int| #[trigger] live_in_slot(nodes, d, id, k).finite(),
        forall|k: int| #[trigger] live_below(nodes, d, id, k).finite(),
{
    let s = side(nodes[id].layer as nat);
    lemma_pow2_pos(nodes[id].layer as nat);
    lemma_cube_size(d, s);
    assert(node_live(nodes, d, id).subset_of(cube_set(d, s)));
    vstd::set_lib::lemma_set_subset_finite(cube_set(d, s), node_live(nodes, d, id));
    assert forall|k: int| #[trigger] live_in_slot(nodes, d, id, k).finite() by {
        assert(live_in_slot(nodes, d, id, k).subset_of(cube_set(d, s)));
        vstd::set_lib::lemma_set_subset_finite(cube_set(d, s), live_in_slot(nodes, d, id, k));
    }
    assert forall|k: int| #[trigger] live_below(nodes, d, id, k).finite() by {
        assert(live_below(nodes, d, id, k).subset_of(cube_set(d, s)));
        vstd::set_lib::lemma_set_subset_finite(cube_set(d, s), live_below(nodes, d, id, k));
    }
}

/// The number of live points in slot `k` of a leaf is one where cell `k`
/// is not zero, else zero.
pub proof fn lemma_leaf_slot_count(nodes: Seq<NodeEntry>, d: nat, id: int, k: int)
    requires
        nodes_wf(nodes, d),
        0 <= id < nodes.len(),
        nodes[id].layer == 1,
        0 <= k < pow2(d),
    ensures
        live_in_slot(nodes, d, id, k).len() == weights(nodes, id)[k],
{
    assert(entry_wf(nodes, id, d));
    let cells = cells_seq(nodes[id].body);
    let slot = live_in_slot(nodes, d, id, k);
    let point = unflat(k, 2, d);
    crate::laws::lemma_leaf_point(nodes, d, id, k);
    crate::index::lemma_pow2_is_pow(d);
    lemma_flat_unflat(k, 2, d);
    vstd::arithmetic::power2::lemma2_to64();
    assert forall|x: Seq<int>| slot.contains(x) implies x == point by {
        let bits = crate::index::bits_at(x, 0);
        assert(bits =~= x);
        lemma_unflat_flat(x, 2);
    }
    if cells[k] != 0 {
        assert(crate::index::bits_at(point, 0) =~= point);
        assert(slot.contains(point));
        assert(slot =~= set![point]);
    } else {
        assert(slot =~= Set::<Seq<int>>::empty());
    }
}

/// The live points in slot `k` of a node above the leaves are the live
/// points of child `k`, moved to the corner of that child.
pub proof fn lemma_branch_slot_count(nodes: Seq<NodeEntry>, d: nat, id: int, k: int)
    requires
        nodes_wf(nodes, d),
        0 <= id < nodes.len(),
        nodes[id].layer > 1,
        0 <= k < pow2(d),
    ensures
        live_in_slot(nodes, d, id, k).len() == node_live(
            nodes,
            d,
            children_seq(nodes[id].body)[k] as int,
        ).len(),
{
    assert(entry_wf(nodes, id, d));
    let layer = nodes[id].layer as nat;
    let b = (layer - 1) as nat;
    let kid = children_seq(nodes[id].body)[k] as int;
    assert(0 <= kid < id);
    let corner = scaled(unflat(k, 2, d), side(b));
    let inner = node_live(nodes, d, kid);
    let slot = live_in_slot(nodes, d, id, k);
    lemma_node_live_finite(nodes, d, kid);
    lemma_unflat_in_cube(k, 2, d);
    assert forall|x: Seq<int>| slot.contains(x) <==> moved_set(inner, corner).contains(x) by {
        if slot.contains(x) {
            crate::ndtree::lemma_half_point(x, k, b, d);
            let low = vec_sub(x, corner);
            lemma_child_point(low, k, b, d);
            assert(vec_add(low, corner) =~= x);
            assert(node_cell(nodes, id, x) == node_cell(nodes, kid, x));
            lemma_node_cell_low(nodes, d, kid, x, low);
            assert(inner.contains(low));
        }
        if moved_set(inner, corner).contains(x) {
            let low = choose|low: Seq<int>| inner.contains(low) && vec_add(low, corner) == x;
            lemma_child_point(low, k, b, d);
            assert(node_cell(nodes, id, x) == node_cell(nodes, kid, x));
            lemma_node_cell_low(nodes, d, kid, x, low);
        }
    }
    assert(slot =~= moved_set(inner, corner));
    lemma_moved_size(inner, corner);
}

/// The number of live points of a node in the slots below `k` is the sum
/// of what those slots hold; for `k` the number of slots, it is the
/// population of the node.
pub proof fn lemma_below_count(nodes: Seq<NodeEntry>, d: nat, id: int, k: int)
    requires
        nodes_wf(nodes, d),
        0 <= id < nodes.len(),
        0 <= k <= pow2(d),
    ensures
        live_below(nodes, d, id, k).finite(),
        live_below(nodes, d, id, k).len() == seq_sum(weights(nodes, id).subrange(0, k)),
        k == pow2(d) ==> node_live(nodes, d, id).len() == nodes[id].population@,
    decreases id, k,
{
    assert(entry_wf(nodes, id, d));
    lemma_node_live_finite(nodes, d, id);
    let w = weights(nodes, id);
    if k == 0 {
        assert(live_below(nodes, d, id, 0) =~= Set::<Seq<int>>::empty());
        assert(w.subrange(0, 0) =~= Seq::<int>::empty());
    } else {
        lemma_below_count(nodes, d, id, k - 1);
        let before = live_below(nodes, d, id, k - 1);
        let slot = live_in_slot(nodes, d, id, k - 1);
        if nodes[id].layer == 1 {
            lemma_leaf_slot_count(nodes, d, id, k - 1);
        } else {
            let kid = children_seq(nodes[id].body)[k - 1] as int;
            assert(0 <= kid < id);
            lemma_below_count(nodes, d, kid, pow2(d) as int);
            lemma_branch_slot_count(nodes, d, id, k - 1);
        }
        assert(live_below(nodes, d, id, k) =~= before.union(slot));
        assert(before.disjoint(slot));
        vstd::set_lib::lemma_set_disjoint_lens(before, slot);
        assert(w.subrange(0, k).drop_last() =~= w.subrange(0, k - 1));
    }
    if k == pow2(d) {
        assert(w.subrange(0, k) =~= w);
        assert forall|x: Seq<int>| node_live(nodes, d, id).contains(x) implies live_below(
            nodes,
            d,
            id,
            k,
        ).contains(x) by {
            lemma_child_index_bound(x, nodes[id].layer as nat);
        }
        assert(node_live(nodes, d, id) =~= live_below(nodes, d, id, k));
    }
}

/// The population of a node is the number of points of its cube at which
/// it holds a cell that is not zero.
pub proof fn lemma_population_counts<const D: usize>(cache: &NodeCache<D>, id: crate::cache::NodeId)
    requires
        cache.wf(),
        cache.valid(id),
    ensures
        node_live(cache.nodes@, D as nat, id as int).finite(),
        node_live(cache.nodes@, D as nat, id as int).len() == cache.population_of(id),
{
    lemma_node_live_finite(cache.nodes@, D as nat, id as int);
    lemma_below_count(cache.nodes@, D as nat, id as int, pow2(D as nat) as int);
}

/// The points of dimension `d` at which a grid holds a cell that is not
/// zero.
pub open spec fn live_set(g: Grid, d: nat) -> Set<Seq<int>> {
    Set::new(|p: Seq<int>| p.len() == d && g(p) != 0)
}

/// The population of a tree is the number of points at which its grid
/// holds a cell that is not zero.
pub proof fn lemma_tree_population<const D: usize>(cache: &NodeCache<D>, tree: &NdTree<D>)
    requires
        tree.wf(cache),
    ensures
        live_set(tree.grid(cache), D as nat).finite(),
        live_set(tree.grid(cache), D as nat).len() == tree.population_of(cache),
{
    let inner = node_live(cache.nodes@, D as nat, tree.root as int);
    let all = live_set(tree.grid(cache), D as nat);
    lemma_population_counts(cache, tree.root);
    assert forall|p: Seq<int>| all.contains(p) <==> moved_set(inner, tree.offset@).contains(p) by {
        if all.contains(p) {
            let x = vec_sub(p, tree.offset@);
            assert(vec_add(x, tree.offset@) =~= p);
            assert(inner.contains(x));
        }
        if moved_set(inner, tree.offset@).contains(p) {
            let x = choose|x: Seq<int>| inner.contains(x) && vec_add(x, tree.offset@) == p;
            assert(vec_sub(p, tree.offset@) =~= x);
        }
    }
    assert(all =~= moved_set(inner, tree.offset@));
    lemma_moved_size(inner, tree.offset@);
}

/// The points no further than `r` from `q` along every axis.
pub open spec fn ball(q: Seq<int>, r: nat) -> Set<Seq<int>> {
    Set::new(|p: Seq<int>| within(p, q, r as int))
}

/// A ball of radius `r` has `(2r + 1)^d` points.
pub proof fn lemma_ball_size(q: Seq<int>, r: nat)
    ensures
        ball(q, r).finite(),
        ball(q, r).len() == neighborhood_len(r, q.len()),
{
    let d = q.len();
    let cube = cube_set(d, 2 * r as int + 1);
    let corner = shifted(q, -(r as int));
    lemma_cube_size(d, 2 * r as int + 1);
    assert forall|p: Seq<int>| ball(q, r).contains(p) <==> moved_set(cube, corner).contains(p) by {
        if ball(q, r).contains(p) {
            let x = vec_sub(p, corner);
            assert forall|k: int| 0 <= k < d implies 0 <= #[trigger] x[k] < 2 * r + 1 by {
                assert(-(r as int) <= p[k] - q[k] <= r);
            }
            assert(vec_add(x, corner) =~= p);
            assert(cube.contains(x));
        }
        if moved_set(cube, corner).contains(p) {
            let x = choose|x: Seq<int>| cube.contains(x) && vec_add(x, corner) == p;
            assert forall|k: int| 0 <= k < d implies -(r as int) <= #[trigger] p[k] - q[k]
                <= r by {
                assert(0 <= x[k] < 2 * r + 1);
                assert(p[k] == x[k] + corner[k]);
            }
        }
    }
    assert(ball(q, r) =~= moved_set(cube, corner));
    lemma_moved_size(cube, corner);
}

/// The points no further than `r` from some point of `s`.
pub open spec fn cover(s: Set<Seq<int>>, r: nat) -> Set<Seq<int>> {
    Set::new(|p: Seq<int>| exists|q: Seq<int>| s.contains(q) && #[trigger] within(p, q, r as int))
}

/// The surroundings of a finite set of points hold no more points than
/// the set has points, times the size of a ball.
pub proof fn lemma_cover_size(s: Set<Seq<int>>, r: nat, d: nat)
    requires
        s.finite(),
        forall|q: Seq<int>| s.contains(q) ==> q.len() == d,
    ensures
        cover(s, r).finite(),
        cover(s, r).len() <= s.len() * neighborhood_len(r, d),
    decreases s.len(),
{
    let size = neighborhood_len(r, d);
    vstd::arithmetic::power::lemma_pow_positive(2 * r as int + 1, d);
    if s.is_empty() {
        assert(cover(s, r) =~= Set::<Seq<int>>::empty());
        assert(s.len() * size == 0) by (nonlinear_arith)
            requires
                s.len() == 0,
        ;
    } else {
        let q = s.choose();
        let rest = s.remove(q);
        lemma_cover_size(rest, r, d);
        lemma_ball_size(q, r);
        assert forall|p: Seq<int>| cover(s, r).contains(p) <==> cover(rest, r).union(
            ball(q, r),
        ).contains(p) by {
            if cover(s, r).contains(p) {
                let w = choose|w: Seq<int>| s.contains(w) && #[trigger] within(p, w, r as int);
                if w != q {
                    assert(rest.contains(w));
                }
            }
            if cover(rest, r).contains(p) {
                let w = choose|w: Seq<int>| rest.contains(w) && #[trigger] within(p, w, r as int);
                assert(s.contains(w));
            }
            if ball(q, r).contains(p) {
                assert(s.contains(q) && within(p, q, r as int));
            }
        }
        assert(cover(s, r) =~= cover(rest, r).union(ball(q, r)));
        lemma_len_union(cover(rest, r), ball(q, r));
        assert((s.len() - 1) * size + size == s.len() * size) by (nonlinear_arith);
    }
}

/// Under a rule that leaves an empty neighbourhood empty, a cell that is
/// alive after one generation had a live cell within the radius.
pub proof fn lemma_step_live<const D: usize, R: Rule<D>>(rule: &R, g: Grid, p: Seq<int>)
    requires
        !is_b0(rule),
        p.len() == D,
        step_grid(rule, g)(p) != 0,
    ensures
        cover(live_set(g, D as nat), rule.radius_spec()).contains(p),
{
    let r = rule.radius_spec();
    let around = neighborhood(g, p, r);
    let zeros = Seq::new(neighborhood_len(r, D as nat) as nat, |i: int| 0u8);
    if forall|i: int| 0 <= i < around.len() ==> #[trigger] around[i] == 0 {
        assert(around =~= zeros);
        assert(false);
    }
    let i = choose|i: int| 0 <= i < around.len() && #[trigger] around[i] != 0;
    let q = vec_add(p, offset_of(i, r, D as nat));
    lemma_unflat_in_cube(i, 2 * r as int + 1, D as nat);
    assert(live_set(g, D as nat).contains(q));
    assert(within(p, q, r as int)) by {
        assert forall|k: int| 0 <= k < q.len() implies -(r as int) <= #[trigger] p[k] - q[k]
            <= r by {
            assert(q[k] == p[k] + offset_of(i, r, D as nat)[k]);
        }
    }
}

/// The population bound: under a rule that leaves an empty neighbourhood
/// empty, a tree that stands for a grid one generation on has no more
/// population than the tree before it, times the number of cells in a
/// neighbourhood.
pub proof fn lemma_population_bound<const D: usize, R: Rule<D>>(
    rule: &R,
    old_cache: &NodeCache<D>,
    before: &NdTree<D>,
    new_cache: &NodeCache<D>,
    after: &NdTree<D>,
)
    requires
        !is_b0(rule),
        before.wf(old_cache),
        after.wf(new_cache),
        forall|p: Seq<int>|
            p.len() == D ==> #[trigger] after.cell(new_cache, p) == evolve(
                rule,
                before.grid(old_cache),
                1,
            )(p),
    ensures
        after.population_of(new_cache) <= before.population_of(old_cache) * neighborhood_len(
            rule.radius_spec(),
            D as nat,
        ),
{
    let g = before.grid(old_cache);
    let was = live_set(g, D as nat);
    let now = live_set(after.grid(new_cache), D as nat);
    let near = cover(was, rule.radius_spec());
    lemma_tree_population(old_cache, before);
    lemma_tree_population(new_cache, after);
    lemma_cover_size(was, rule.radius_spec(), D as nat);
    assert(evolve(rule, g, 1) == step_grid(rule, g)) by {
        assert(evolve(rule, g, 0) == g);
    }
    assert forall|p: Seq<int>| now.contains(p) implies near.contains(p) by {
        assert(after.cell(new_cache, p) == step_grid(rule, g)(p));
        lemma_step_live(rule, g, p);
    }
    lemma_len_subset(now, near);
}

} // verus!
