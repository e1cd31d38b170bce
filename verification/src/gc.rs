//! Garbage collection: a fresh cache that holds only what is reachable from
//! given roots and from the table of empty nodes.
//!
//! Nodes are named by their place in the arena, so that a cache cannot drop
//! nodes in place; instead the nodes that are still wanted are copied into
//! a fresh cache, children before parents, and get new names there.
//! Memoized results are not carried over.

use crate::cache::{
    child_pops, children_seq, entry_wf, lemma_node_cell_extends, Cell, NodeCache, NodeEntry,
    NodeId,
};
use vstd::arithmetic::power2::pow2;
use vstd::prelude::*;

verus! {

/// Node `y` of `to` is a copy of node `x` of `from`: of the same layer, with
/// the same population and the same cell at every point.
pub open spec fn same_node<const D: usize>(
    from: &NodeCache<D>,
    x: NodeId,
    to: &NodeCache<D>,
    y: NodeId,
) -> bool {
    &&& from.valid(x)
    &&& to.valid(y)
    &&& from.layer_of(x) == to.layer_of(y)
    &&& from.population_of(x) == to.population_of(y)
    &&& forall|p: Seq<int>| #[trigger] to.cell(y, p) == from.cell(x, p)
}

/// `seen` names, for some nodes of `from`, their copies in `to`.
pub open spec fn adopted<const D: usize>(
    seen: Seq<Option<NodeId>>,
    from: &NodeCache<D>,
    to: &NodeCache<D>,
) -> bool {
    &&& seen.len() == from.nodes@.len()
    &&& forall|k: int|
        0 <= k < seen.len() ==> ((#[trigger] seen[k]) matches Some(v) ==> same_node(
            from,
            k as NodeId,
            to,
            v,
        ))
}

/// Every node of `to` is the copy of a node that `seen` names.
pub open spec fn covered<const D: usize>(seen: Seq<Option<NodeId>>, to: &NodeCache<D>) -> bool {
    forall|n: NodeId|
        to.valid(n) ==> exists|k: int| 0 <= k < seen.len() && #[trigger] seen[k] == Some(n)
}

/// A copy stays a copy when the cache that holds it grows.
pub proof fn lemma_same_node_extends<const D: usize>(
    from: &NodeCache<D>,
    x: NodeId,
    old_to: &NodeCache<D>,
    new_to: &NodeCache<D>,
    y: NodeId,
)
    requires
        old_to.wf(),
        new_to.extends(old_to),
        same_node(from, x, old_to, y),
    ensures
        same_node(from, x, new_to, y),
{
    assert forall|p: Seq<int>| #[trigger] new_to.cell(y, p) == from.cell(x, p) by {
        lemma_node_cell_extends(new_to.nodes@, old_to.nodes@, D as nat, y as int, p);
        assert(old_to.cell(y, p) == from.cell(x, p));
    }
}

/// What was copied stays copied when the cache that holds the copies
/// grows.
pub proof fn lemma_adopted_extends<const D: usize>(
    seen: Seq<Option<NodeId>>,
    from: &NodeCache<D>,
    old_to: &NodeCache<D>,
    new_to: &NodeCache<D>,
)
    requires
        old_to.wf(),
        new_to.extends(old_to),
        adopted(seen, from, old_to),
    ensures
        adopted(seen, from, new_to),
{
    assert forall|k: int| 0 <= k < seen.len() implies ((#[trigger] seen[k]) matches Some(v)
        ==> same_node(from, k as NodeId, new_to, v)) by {
        if let Some(v) = seen[k] {
            lemma_same_node_extends(from, k as NodeId, old_to, new_to, v);
        }
    }
}

/// A node whose children are copies of the children of another node, slot
/// by slot, is a copy of that node.
pub proof fn lemma_same_children<const D: usize>(
    from: &NodeCache<D>,
    x: NodeId,
    to: &NodeCache<D>,
    y: NodeId,
)
    requires
        from.wf(),
        to.wf(),
        from.valid(x),
        to.valid(y),
        from.layer_of(x) >= 2,
        to.layer_of(y) == from.layer_of(x),
        forall|j: int|
            0 <= j < pow2(D as nat) ==> same_node(
                from,
                #[trigger] from.children_of(x)[j],
                to,
                to.children_of(y)[j],
            ),
    ensures
        same_node(from, x, to, y),
{
    assert(entry_wf(from.nodes@, x as int, D as nat));
    assert(entry_wf(to.nodes@, y as int, D as nat));
    let a = from.children_of(x);
    let b = to.children_of(y);
    assert forall|j: int| 0 <= j < a.len() implies #[trigger] child_pops(from.nodes@, a)[j]
        == child_pops(to.nodes@, b)[j] by {
        assert(same_node(from, a[j], to, b[j]));
    }
    assert(child_pops(from.nodes@, a) =~= child_pops(to.nodes@, b));
    assert forall|p: Seq<int>| #[trigger] to.cell(y, p) == from.cell(x, p) by {
        let i = crate::index::child_index(p, from.layer_of(x));
        if 0 <= i < a.len() {
            assert(same_node(from, a[i], to, b[i]));
            assert(a[i] < x);
            assert(b[i] < y);
            assert(to.cell(b[i], p) == from.cell(a[i], p));
        }
    }
}

/// Node `to` is node `from`, or lies beneath one of the first `n` children
/// of `from`.
pub open spec fn reaches_via(nodes: Seq<NodeEntry>, from: int, to: int, n: nat) -> bool
    decreases from, n,
{
    if to == from {
        true
    } else if n == 0 || !(0 <= from < nodes.len()) {
        false
    } else {
        let kids = children_seq(nodes[from].body);
        ||| (n <= kids.len() && kids[n - 1] < from && reaches_via(
            nodes,
            kids[n - 1] as int,
            to,
            children_seq(nodes[kids[n - 1] as int].body).len(),
        ))
        ||| reaches_via(nodes, from, to, (n - 1) as nat)
    }
}

/// Node `to` is node `from`, or lies beneath a child of `from`.
pub open spec fn reaches(nodes: Seq<NodeEntry>, from: int, to: int) -> bool {
    reaches_via(nodes, from, to, children_seq(nodes[from].body).len())
}

/// What is reached from child `c` of a node is reached from the node by
/// way of its first `n` children, for every `n` above `c`.
pub proof fn lemma_reaches_via_child(nodes: Seq<NodeEntry>, from: int, c: int, to: int, n: nat)
    requires
        0 <= from < nodes.len(),
        0 <= c < n <= children_seq(nodes[from].body).len(),
        children_seq(nodes[from].body)[c] < from,
        reaches(nodes, children_seq(nodes[from].body)[c] as int, to),
    ensures
        reaches_via(nodes, from, to, n),
    decreases n,
{
    if to != from && n - 1 != c {
        lemma_reaches_via_child(nodes, from, c, to, (n - 1) as nat);
    }
}

/// What is reached from a child of a node is reached from the node.
pub proof fn lemma_reaches_child(nodes: Seq<NodeEntry>, from: int, c: int, to: int)
    requires
        0 <= from < nodes.len(),
        0 <= c < children_seq(nodes[from].body).len(),
        children_seq(nodes[from].body)[c] < from,
        reaches(nodes, children_seq(nodes[from].body)[c] as int, to),
    ensures
        reaches(nodes, from, to),
{
    lemma_reaches_via_child(nodes, from, c, to, children_seq(nodes[from].body).len());
}

/// Every node that `after` names and `before` did not is reached from node
/// `id` of `from`.
pub open spec fn noted_beneath<const D: usize>(
    before: Seq<Option<NodeId>>,
    after: Seq<Option<NodeId>>,
    from: &NodeCache<D>,
    id: NodeId,
) -> bool {
    forall|k: int|
        0 <= k < after.len() && k < before.len() && (#[trigger] after[k]) is Some && before[k]
            is None ==> reaches(from.nodes@, id as int, k)
}

/// Node `k` of the cache is wanted: it is reached from one of `roots` or
/// from an entry of the table of empty nodes.
pub open spec fn wanted<const D: usize>(cache: &NodeCache<D>, roots: Seq<NodeId>, k: NodeId) -> bool {
    ||| exists|i: int|
        0 <= i < roots.len() && #[trigger] reaches(cache.nodes@, roots[i] as int, k as int)
    ||| exists|e: int|
        0 <= e < cache.empties@.len() && #[trigger] reaches(
            cache.nodes@,
            cache.empties@[e] as int,
            k as int,
        )
}

/// Every node that `seen` names is wanted.
pub open spec fn all_wanted<const D: usize>(
    seen: Seq<Option<NodeId>>,
    cache: &NodeCache<D>,
    roots: Seq<NodeId>,
) -> bool {
    forall|k: int|
        0 <= k < seen.len() && (#[trigger] seen[k]) is Some ==> wanted(cache, roots, k as NodeId)
}

/// `new` holds what `old` holds and at most one node more, node `r`.
pub open spec fn grew_by<const D: usize>(new: &NodeCache<D>, old: &NodeCache<D>, r: NodeId) -> bool {
    &&& new.extends(old)
    &&& new.same_results(old)
    &&& new.empties@ == old.empties@
    &&& forall|m: NodeId| new.valid(m) && m != r ==> old.valid(m)
}

impl<const D: usize> NodeCache<D> {
    /// Copies leaf `id` of `from` into this cache.
    fn adopt_leaf(&mut self, from: &NodeCache<D>, id: NodeId) -> (r: NodeId)
        requires
            old(self).wf(),
            from.wf(),
            from.valid(id),
            from.layer_of(id) == 1,
        ensures
            final(self).wf(),
            grew_by(final(self), old(self), r),
            same_node(from, id, final(self), r),
    {
        let n = Self::branching_factor();
        let mut cells: Vec<Cell> = Vec::new();
        let mut k: usize = 0;
        proof {
            assert(entry_wf(from.nodes@, id as int, D as nat));
        }
        while k < n
            invariant
                from.wf(),
                from.valid(id),
                from.layer_of(id) == 1,
                from.leaf_cells_of(id).len() == n,
                n == pow2(D as nat),
                k <= n,
                cells@.len() == k,
                forall|j: int| 0 <= j < k ==> #[trigger] cells@[j] == from.leaf_cells_of(id)[j],
            decreases n - k,
        {
            cells.push(from.leaf_cell(id, k));
            k += 1;
        }
        proof {
            assert(cells@ =~= from.leaf_cells_of(id));
        }
        let r = self.intern_leaf(cells);
        proof {
            assert(entry_wf(self.nodes@, r as int, D as nat));
        }
        r
    }

    /// Makes the node whose children are `kids`, the copies of the
    /// children of node `id` of `from`.
    fn adopt_branch(&mut self, from: &NodeCache<D>, id: NodeId, kids: Vec<NodeId>) -> (r: NodeId)
        requires
            old(self).wf(),
            from.wf(),
            from.valid(id),
            from.layer_of(id) >= 2,
            kids@.len() == pow2(D as nat),
            forall|j: int|
                0 <= j < kids@.len() ==> same_node(
                    from,
                    from.children_of(id)[j],
                    old(self),
                    #[trigger] kids@[j],
                ),
        ensures
            final(self).wf(),
            grew_by(final(self), old(self), r),
            same_node(from, id, final(self), r),
    {
        proof {
            assert(entry_wf(from.nodes@, id as int, D as nat));
            vstd::arithmetic::power2::lemma_pow2_pos(D as nat);
            assert(same_node(from, from.children_of(id)[0], self, kids@[0]));
            assert forall|j: int| 0 <= j < kids@.len() implies self.valid(#[trigger] kids@[j])
                && self.layer_of(kids@[j]) == (from.layer_of(id) - 1) as nat by {
                assert(same_node(from, from.children_of(id)[j], self, kids@[j]));
                assert(from.children_of(id)[j] < id);
            }
        }
        let ghost copies = kids@;
        let r = self.intern_node(kids);
        proof {
            assert(entry_wf(self.nodes@, r as int, D as nat));
            assert forall|j: int| 0 <= j < pow2(D as nat) implies same_node(
                from,
                #[trigger] from.children_of(id)[j],
                self,
                self.children_of(r)[j],
            ) by {
                assert(same_node(from, from.children_of(id)[j], old(self), copies[j]));
                lemma_same_node_extends(from, from.children_of(id)[j], old(self), self, copies[j]);
            }
            lemma_same_children(from, id, self, r);
        }
        r
    }

    /// Copies the children of node `id` of `from` into this cache.
    fn adopt_children(&mut self, from: &NodeCache<D>, id: NodeId, seen: &mut Vec<Option<NodeId>>) -> (kids:
        Vec<NodeId>)
        requires
            old(self).wf(),
            from.wf(),
            from.valid(id),
            from.layer_of(id) >= 2,
            adopted(old(seen)@, from, old(self)),
            covered(old(seen)@, old(self)),
        ensures
            final(self).wf(),
            final(self).extends(old(self)),
            final(self).same_results(old(self)),
            final(self).empties@ == old(self).empties@,
            adopted(final(seen)@, from, final(self)),
            covered(final(seen)@, final(self)),
            kept(old(seen)@, final(seen)@, id as int),
            noted_beneath(old(seen)@, final(seen)@, from, id),
            kids@.len() == pow2(D as nat),
            forall|j: int|
                0 <= j < kids@.len() ==> same_node(
                    from,
                    from.children_of(id)[j],
                    final(self),
                    #[trigger] kids@[j],
                ),
        decreases id, 0nat,
    {
        let n = Self::branching_factor();
        let mut kids: Vec<NodeId> = Vec::new();
        let mut k: usize = 0;
        let ghost first = seen@;
        while k < n
            invariant
                self.wf(),
                old(self).wf(),
                from.wf(),
                from.valid(id),
                from.layer_of(id) >= 2,
                self.extends(old(self)),
                self.same_results(old(self)),
                self.empties@ == old(self).empties@,
                adopted(seen@, from, self),
                covered(seen@, self),
                first == old(seen)@,
                kept(first, seen@, id as int),
                noted_beneath(first, seen@, from, id),
                n == pow2(D as nat),
                k <= n,
                kids@.len() == k,
                forall|j: int|
                    0 <= j < k ==> same_node(
                        from,
                        from.children_of(id)[j],
                        self,
                        #[trigger] kids@[j],
                    ),
            decreases n - k,
        {
            let child = from.child(id, k);
            let ghost before = *self;
            let ghost held = seen@;
            let kid = self.adopt(from, child, seen);
            proof {
                assert forall|j: int|
                    0 <= j < seen@.len() && j < first.len() && (#[trigger] seen@[j]) is Some
                        && first[j] is None implies reaches(from.nodes@, id as int, j) by {
                    if held[j] is None {
                        assert(reaches(from.nodes@, child as int, j));
                        assert(entry_wf(from.nodes@, id as int, D as nat));
                        assert(from.children_of(id) == children_seq(from.nodes@[id as int].body));
                        lemma_reaches_child(from.nodes@, id as int, k as int, j);
                    } else {
                        assert(seen@[j] == held[j]);
                    }
                }
                assert forall|j: int| 0 <= j < k implies same_node(
                    from,
                    from.children_of(id)[j],
                    self,
                    #[trigger] kids@[j],
                ) by {
                    lemma_same_node_extends(
                        from,
                        from.children_of(id)[j],
                        &before,
                        self,
                        kids@[j],
                    );
                }
            }
            kids.push(kid);
            k += 1;
        }
        kids
    }

    /// Copies node `id` of `from`, with everything beneath it, into this
    /// cache, and notes the copy in `seen`; a node that `seen` names
    /// already is not copied again.
    fn adopt(&mut self, from: &NodeCache<D>, id: NodeId, seen: &mut Vec<Option<NodeId>>) -> (r:
        NodeId)
        requires
            old(self).wf(),
            from.wf(),
            from.valid(id),
            adopted(old(seen)@, from, old(self)),
            covered(old(seen)@, old(self)),
        ensures
            final(self).wf(),
            final(self).extends(old(self)),
            final(self).same_results(old(self)),
            final(self).empties@ == old(self).empties@,
            adopted(final(seen)@, from, final(self)),
            covered(final(seen)@, final(self)),
            kept(old(seen)@, final(seen)@, id + 1),
            noted_beneath(old(seen)@, final(seen)@, from, id),
            final(seen)@[id as int] == Some(r),
            same_node(from, id, final(self), r),
        decreases id, 1nat,
    {
        match seen[id] {
            Some(r) => {
                return r;
            },
            None => {},
        }
        let layer = from.layer(id);
        let ghost start = *self;
        let r = if layer == 1 {
            let r = self.adopt_leaf(from, id);
            proof {
                lemma_adopted_extends(seen@, from, &start, self);
            }
            r
        } else {
            let kids = self.adopt_children(from, id, seen);
            let ghost before = *self;
            let r = self.adopt_branch(from, id, kids);
            proof {
                lemma_adopted_extends(seen@, from, &before, self);
            }
            r
        };
        let ghost held = seen@;
        seen.set(id, Some(r));
        proof {
            assert forall|k: int| 0 <= k < seen@.len() implies ((#[trigger] seen@[k]) matches Some(v)
                ==> same_node(from, k as NodeId, self, v)) by {
                if k != id {
                    assert(seen@[k] == held[k]);
                }
            }
            assert forall|m: NodeId| self.valid(m) implies exists|k: int|
                0 <= k < seen@.len() && #[trigger] seen@[k] == Some(m) by {
                if m == r {
                    assert(seen@[id as int] == Some(m));
                } else {
                    let k = choose|k: int| 0 <= k < held.len() && #[trigger] held[k] == Some(m);
                    assert(k != id);
                    assert(seen@[k] == Some(m));
                }
            }
            assert forall|k: int|
                0 <= k < seen@.len() && k < old(seen)@.len() && (#[trigger] seen@[k]) is Some
                    && old(seen)@[k] is None implies reaches(from.nodes@, id as int, k) by {
                if k != id {
                    assert(seen@[k] == held[k]);
                }
            }
        }
        r
    }
}

impl<const D: usize> NodeCache<D> {
    /// A fresh cache that holds copies of the nodes `roots`, of the empty
    /// nodes of the table, and of everything beneath them, and nothing
    /// else: every node of the fresh cache is the copy of a node that is
    /// reached from a root or from the table. With it come the names of the
    /// copies of the roots, in order. Memoized results are not carried over:
    /// the fresh cache holds none.
    pub fn collect(&self, roots: &Vec<NodeId>) -> (r: (NodeCache<D>, Vec<NodeId>))
        requires
            self.wf(),
            forall|i: int| 0 <= i < roots@.len() ==> self.valid(#[trigger] roots@[i]),
        ensures
            r.0.wf(),
            r.1@.len() == roots@.len(),
            forall|i: int|
                0 <= i < roots@.len() ==> same_node(self, roots@[i], &r.0, #[trigger] r.1@[i]),
            r.0.empties@.len() == self.empties@.len(),
            forall|k: int|
                0 <= k < self.empties@.len() ==> same_node(
                    self,
                    self.empties@[k],
                    &r.0,
                    #[trigger] r.0.empties@[k],
                ),
            forall|n: int| 0 <= n < r.0.results@.len() ==> (#[trigger] r.0.results@[n])@.len() == 0,
            forall|m: NodeId|
                r.0.valid(m) ==> exists|k: NodeId|
                    #[trigger] same_node(self, k, &r.0, m) && wanted(self, roots@, k),
    {
        let mut fresh = NodeCache::<D>::new();
        let mut seen: Vec<Option<NodeId>> = Vec::new();
        let total = self.nodes.len();
        let mut k: usize = 0;
        while k < total
            invariant
                k <= total,
                seen@.len() == k,
                forall|j: int| 0 <= j < k ==> #[trigger] seen@[j] is None,
            decreases total - k,
        {
            seen.push(None);
            k += 1;
        }
        let count = self.empties.len();
        let mut e: usize = 0;
        while e < count
            invariant
                self.wf(),
                fresh.wf(),
                count == self.empties@.len(),
                e <= count,
                adopted(seen@, self, &fresh),
                covered(seen@, &fresh),
                all_wanted(seen@, self, roots@),
                fresh.empties@.len() == e,
                forall|j: int|
                    0 <= j < e ==> same_node(
                        self,
                        self.empties@[j],
                        &fresh,
                        #[trigger] fresh.empties@[j],
                    ),
                forall|n: int|
                    0 <= n < fresh.results@.len() ==> (#[trigger] fresh.results@[n])@.len() == 0,
            decreases count - e,
        {
            let ghost before = fresh;
            let ghost held = seen@;
            let copy = fresh.adopt(self, self.empties[e], &mut seen);
            let ghost grown = fresh;
            proof {
                assert forall|k: int| 0 <= k < seen@.len() && (#[trigger] seen@[k]) is Some implies wanted(
                    self,
                    roots@,
                    k as NodeId,
                ) by {
                    if held[k] is None {
                        assert(reaches(self.nodes@, self.empties@[e as int] as int, k));
                    } else {
                        assert(seen@[k] == held[k]);
                    }
                }
                assert forall|j: int| 0 <= j < e implies same_node(
                    self,
                    self.empties@[j],
                    &grown,
                    #[trigger] grown.empties@[j],
                ) by {
                    lemma_same_node_extends(
                        self,
                        self.empties@[j],
                        &before,
                        &grown,
                        before.empties@[j],
                    );
                }
                assert forall|n: int| 0 <= n < grown.results@.len() implies (
                #[trigger] grown.results@[n])@.len() == 0 by {
                    if n < before.results@.len() {
                        assert(grown.results@[n] == before.results@[n]);
                    }
                }
            }
            fresh.empties.push(copy);
            proof {
                lemma_same_nodes(seen@, self, &grown, &fresh);
                assert forall|j: int| 0 <= j < e + 1 implies same_node(
                    self,
                    self.empties@[j],
                    &fresh,
                    #[trigger] fresh.empties@[j],
                ) by {
                    if j < e {
                        lemma_same_node_nodes(
                            self,
                            self.empties@[j],
                            &grown,
                            &fresh,
                            grown.empties@[j],
                        );
                    } else {
                        lemma_same_node_nodes(self, self.empties@[j], &grown, &fresh, copy);
                    }
                }
            }
            e += 1;
        }
        let mut new_roots: Vec<NodeId> = Vec::new();
        let mut i: usize = 0;
        while i < roots.len()
            invariant
                self.wf(),
                fresh.wf(),
                forall|i: int| 0 <= i < roots@.len() ==> self.valid(#[trigger] roots@[i]),
                i <= roots@.len(),
                adopted(seen@, self, &fresh),
                covered(seen@, &fresh),
                all_wanted(seen@, self, roots@),
                fresh.empties@.len() == self.empties@.len(),
                forall|j: int|
                    0 <= j < self.empties@.len() ==> same_node(
                        self,
                        self.empties@[j],
                        &fresh,
                        #[trigger] fresh.empties@[j],
                    ),
                forall|n: int|
                    0 <= n < fresh.results@.len() ==> (#[trigger] fresh.results@[n])@.len() == 0,
                new_roots@.len() == i,
                forall|j: int|
                    0 <= j < i ==> same_node(self, roots@[j], &fresh, #[trigger] new_roots@[j]),
            decreases roots@.len() - i,
        {
            let ghost before = fresh;
            let ghost held = seen@;
            let copy = fresh.adopt(self, roots[i], &mut seen);
            proof {
                assert forall|k: int| 0 <= k < seen@.len() && (#[trigger] seen@[k]) is Some implies wanted(
                    self,
                    roots@,
                    k as NodeId,
                ) by {
                    if held[k] is None {
                        assert(reaches(self.nodes@, roots@[i as int] as int, k));
                    } else {
                        assert(seen@[k] == held[k]);
                    }
                }
                assert forall|j: int| 0 <= j < self.empties@.len() implies same_node(
                    self,
                    self.empties@[j],
                    &fresh,
                    #[trigger] fresh.empties@[j],
                ) by {
                    lemma_same_node_extends(
                        self,
                        self.empties@[j],
                        &before,
                        &fresh,
                        before.empties@[j],
                    );
                }
                assert forall|j: int| 0 <= j < i implies same_node(
                    self,
                    roots@[j],
                    &fresh,
                    #[trigger] new_roots@[j],
                ) by {
                    lemma_same_node_extends(self, roots@[j], &before, &fresh, new_roots@[j]);
                }
                assert forall|n: int| 0 <= n < fresh.results@.len() implies (
                #[trigger] fresh.results@[n])@.len() == 0 by {
                    if n < before.results@.len() {
                        assert(fresh.results@[n] == before.results@[n]);
                    }
                }
            }
            new_roots.push(copy);
            i += 1;
        }
        proof {
            assert forall|m: NodeId| fresh.valid(m) implies exists|k: NodeId|
                #[trigger] same_node(self, k, &fresh, m) && wanted(self, roots@, k) by {
                let k = choose|k: int| 0 <= k < seen@.len() && #[trigger] seen@[k] == Some(m);
                assert(same_node(self, k as NodeId, &fresh, m));
                assert(wanted(self, roots@, k as NodeId));
            }
        }
        (fresh, new_roots)
    }
}

/// A copy in a cache is a copy in any cache with the same nodes.
pub proof fn lemma_same_node_nodes<const D: usize>(
    from: &NodeCache<D>,
    x: NodeId,
    old_to: &NodeCache<D>,
    new_to: &NodeCache<D>,
    y: NodeId,
)
    requires
        new_to.nodes@ == old_to.nodes@,
        same_node(from, x, old_to, y),
    ensures
        same_node(from, x, new_to, y),
{
    assert forall|p: Seq<int>| #[trigger] new_to.cell(y, p) == from.cell(x, p) by {
        assert(old_to.cell(y, p) == from.cell(x, p));
    }
}

/// What was copied into a cache is copied into any cache with the same
/// nodes.
pub proof fn lemma_same_nodes<const D: usize>(
    seen: Seq<Option<NodeId>>,
    from: &NodeCache<D>,
    old_to: &NodeCache<D>,
    new_to: &NodeCache<D>,
)
    requires
        new_to.nodes@ == old_to.nodes@,
        adopted(seen, from, old_to),
        covered(seen, old_to),
    ensures
        adopted(seen, from, new_to),
        covered(seen, new_to),
{
    assert forall|k: int| 0 <= k < seen.len() implies ((#[trigger] seen[k]) matches Some(v)
        ==> same_node(from, k as NodeId, new_to, v)) by {
        if let Some(v) = seen[k] {
            assert(same_node(from, k as NodeId, old_to, v));
            assert forall|p: Seq<int>| #[trigger] new_to.cell(v, p) == from.cell(k as NodeId, p) by {
                assert(old_to.cell(v, p) == from.cell(k as NodeId, p));
            }
        }
    }
    assert forall|n: NodeId| new_to.valid(n) implies exists|k: int|
        0 <= k < seen.len() && #[trigger] seen[k] == Some(n) by {
        assert(old_to.valid(n));
    }
}

/// From `before` to `after`, what was noted has stayed, and nothing was
/// noted from place `bound` on.
pub open spec fn kept(before: Seq<Option<NodeId>>, after: Seq<Option<NodeId>>, bound: int) -> bool {
    &&& before.len() == after.len()
    &&& forall|k: int|
        0 <= k < before.len() && (before[k] is Some || k >= bound) ==> #[trigger] after[k]
            == before[k]
}

} // verus!
