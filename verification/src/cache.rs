//! The node store: a hash-consed arena of hyperoctree nodes.
//!
//! A node is named by its index in the arena. A leaf (layer 1) owns `2^D`
//! cells; a node of a higher layer owns `2^D` children one layer down. Cells
//! and children are numbered by the bitmask of the upper halves that they
//! occupy. The store never holds two nodes with the same content, so two
//! nodes are the same node exactly when their contents are equal, and a node
//! never changes once it is made.

use crate::big::BigNum;
use crate::index::{child_index, lemma_same_low_child, non_negative, same_low};
use std::collections::HashMap;
use vstd::arithmetic::power2::{lemma_pow2_pos, pow2};
use vstd::prelude::*;
use vstd::wrapping::u64_specs;

verus! {

/// The state of a cell; zero is the empty state.
pub type Cell = u8;

/// The name of a node: its index in the arena of its cache.
pub type NodeId = usize;

/// What a node owns.
pub enum NodeBody {
    /// The cells of a node of layer 1.
    Leaf(Vec<Cell>),
    /// The children of a node of a higher layer.
    Branch(Vec<NodeId>),
}

/// One node of the arena.
pub struct NodeEntry {
    /// The node covers a cube of side `2^layer`.
    pub layer: usize,
    /// Its cells or children.
    pub body: NodeBody,
    /// The number of cells beneath it that are not zero.
    pub population: BigNum,
    /// The hash of its content.
    pub hash: u64,
}

/// A memoized result: the centred inner node of the owner, advanced by
/// `generations`.
pub struct MemoEntry {
    /// The number of generations by which the owner was advanced.
    pub generations: BigNum,
    /// The node that came out, one layer below the owner.
    pub result: NodeId,
}

/// The node store for trees of dimension `D`.
pub struct NodeCache<const D: usize> {
    /// The arena; children stand before their parents.
    pub nodes: Vec<NodeEntry>,
    /// For each content hash, the nodes that have it.
    pub buckets: HashMap<u64, Vec<NodeId>>,
    /// `empties[k]` is the node of layer `k + 1` whose cells are all zero.
    pub empties: Vec<NodeId>,
    /// For each node, the results memoized for it.
    pub results: Vec<Vec<MemoEntry>>,
}

/// The multiplier of the content hash.
pub const HASH_FACTOR: u64 = 0x0000_0100_0000_01b3;

/// The seed of the hash of a leaf.
pub const LEAF_SEED: u64 = 0xcbf2_9ce4_8422_2325;

/// The seed of the hash of a node with children.
pub const BRANCH_SEED: u64 = 0x9e37_79b9_7f4a_7c15;

/// One step of the content hash.
pub open spec fn mix(h: u64, v: u64) -> u64 {
    u64_specs::wrapping_add(u64_specs::wrapping_mul(h, HASH_FACTOR), v)
}

/// The content hash of a sequence of words, from a seed.
pub open spec fn hash_fold(seed: u64, words: Seq<u64>) -> u64
    decreases words.len(),
{
    if words.len() == 0 {
        seed
    } else {
        mix(hash_fold(seed, words.drop_last()), words.last())
    }
}

/// The sum of a sequence of integers.
pub open spec fn seq_sum(s: Seq<int>) -> int
    decreases s.len(),
{
    if s.len() == 0 {
        0
    } else {
        seq_sum(s.drop_last()) + s.last()
    }
}

/// The cells of a leaf as hash words.
pub open spec fn cell_words(cells: Seq<Cell>) -> Seq<u64> {
    Seq::new(cells.len(), |k: int| cells[k] as u64)
}

/// Zero for an empty cell, one for any other.
pub open spec fn cell_counts(cells: Seq<Cell>) -> Seq<int> {
    Seq::new(
        cells.len(),
        |k: int|
            if cells[k] != 0 {
                1int
            } else {
                0int
            },
    )
}

/// The hashes of the nodes that `children` names.
pub open spec fn child_hashes(nodes: Seq<NodeEntry>, children: Seq<NodeId>) -> Seq<u64> {
    Seq::new(children.len(), |k: int| nodes[children[k] as int].hash)
}

/// The populations of the nodes that `children` names.
pub open spec fn child_pops(nodes: Seq<NodeEntry>, children: Seq<NodeId>) -> Seq<int> {
    Seq::new(children.len(), |k: int| nodes[children[k] as int].population@)
}

/// Entry `i` of the arena is consistent with the entries before it.
pub open spec fn entry_wf(nodes: Seq<NodeEntry>, i: int, d: nat) -> bool {
    let e = nodes[i];
    &&& 1 <= e.layer <= i + 1
    &&& match e.body {
        NodeBody::Leaf(cells) => {
            &&& e.layer == 1
            &&& cells@.len() == pow2(d)
            &&& e.population@ == seq_sum(cell_counts(cells@))
            &&& e.hash == hash_fold(LEAF_SEED, cell_words(cells@))
        },
        NodeBody::Branch(children) => {
            &&& e.layer >= 2
            &&& children@.len() == pow2(d)
            &&& forall|c: int|
                0 <= c < children@.len() ==> (#[trigger] children@[c]) < i
                    && nodes[children@[c] as int].layer == e.layer - 1
            &&& e.population@ == seq_sum(child_pops(nodes, children@))
            &&& e.hash == hash_fold(BRANCH_SEED, child_hashes(nodes, children@))
        },
    }
}

/// The children that a body names; none for a leaf.
pub open spec fn children_seq(body: NodeBody) -> Seq<NodeId> {
    match body {
        NodeBody::Leaf(_) => Seq::empty(),
        NodeBody::Branch(c) => c@,
    }
}

/// The cells that a body holds; none for a node with children.
pub open spec fn cells_seq(body: NodeBody) -> Seq<Cell> {
    match body {
        NodeBody::Leaf(c) => c@,
        NodeBody::Branch(_) => Seq::empty(),
    }
}

/// Two bodies hold the same content.
pub open spec fn same_body(a: NodeBody, b: NodeBody) -> bool {
    match (a, b) {
        (NodeBody::Leaf(x), NodeBody::Leaf(y)) => x@ == y@,
        (NodeBody::Branch(x), NodeBody::Branch(y)) => x@ == y@,
        _ => false,
    }
}

/// Every entry is consistent, and no two entries hold the same content.
pub open spec fn nodes_wf(nodes: Seq<NodeEntry>, d: nat) -> bool {
    &&& forall|i: int| 0 <= i < nodes.len() ==> #[trigger] entry_wf(nodes, i, d)
    &&& forall|i: int, j: int|
        0 <= i < nodes.len() && 0 <= j < nodes.len() && #[trigger] same_body(
            nodes[i].body,
            nodes[j].body,
        ) ==> i == j
}

/// A well-formed arena stays so when it receives a consistent entry whose
/// content it did not hold.
pub proof fn lemma_push_nodes_wf(before: Seq<NodeEntry>, entry: NodeEntry, d: nat)
    requires
        nodes_wf(before, d),
        entry_wf(before.push(entry), before.len() as int, d),
        forall|i: int| 0 <= i < before.len() ==> !#[trigger] same_body(before[i].body, entry.body),
    ensures
        nodes_wf(before.push(entry), d),
{
    let after = before.push(entry);
    assert forall|i: int| 0 <= i < after.len() implies #[trigger] entry_wf(after, i, d) by {
        if i < before.len() {
            assert(entry_wf(before, i, d));
            match before[i].body {
                NodeBody::Leaf(cells) => {},
                NodeBody::Branch(children) => {
                    assert(child_pops(after, children@) =~= child_pops(before, children@));
                    assert(child_hashes(after, children@) =~= child_hashes(before, children@));
                },
            }
        }
    }
    assert forall|i: int, j: int|
        0 <= i < after.len() && 0 <= j < after.len() && #[trigger] same_body(
            after[i].body,
            after[j].body,
        ) implies i == j by {
        if i < before.len() && j < before.len() {
            assert(same_body(before[i].body, before[j].body));
        } else if i < before.len() {
            assert(same_body(before[i].body, entry.body));
        } else if j < before.len() {
            assert(same_body(before[j].body, entry.body));
        }
    }
}

/// The state of the cell at `p` beneath node `id`. Only the `layer` lowest
/// binary digits of each coordinate of `p` are read.
pub open spec fn node_cell(nodes: Seq<NodeEntry>, id: int, p: Seq<int>) -> Cell
    decreases id,
{
    if 0 <= id < nodes.len() {
        let e = nodes[id];
        let i = child_index(p, e.layer as nat);
        match e.body {
            NodeBody::Leaf(cells) => if 0 <= i < cells@.len() {
                cells@[i]
            } else {
                0
            },
            NodeBody::Branch(children) => if 0 <= i < children@.len() && children@[i] < id {
                node_cell(nodes, children@[i] as int, p)
            } else {
                0
            },
        }
    } else {
        0
    }
}

/// `old` is a prefix of `new`.
pub open spec fn seq_extends<T>(new: Seq<T>, old: Seq<T>) -> bool {
    &&& old.len() <= new.len()
    &&& forall|i: int| 0 <= i < old.len() ==> new[i] == old[i]
}

/// The sum of a sequence without negative terms is not negative, and is
/// zero only where every term is.
pub proof fn lemma_seq_sum_non_negative(s: Seq<int>)
    requires
        forall|k: int| 0 <= k < s.len() ==> 0 <= #[trigger] s[k],
    ensures
        0 <= seq_sum(s),
        seq_sum(s) == 0 ==> forall|k: int| 0 <= k < s.len() ==> #[trigger] s[k] == 0,
        forall|k: int| 0 <= k < s.len() ==> #[trigger] s[k] <= seq_sum(s),
    decreases s.len(),
{
    if s.len() > 0 {
        lemma_seq_sum_non_negative(s.drop_last());
        assert forall|k: int| 0 <= k < s.len() implies #[trigger] s[k] <= seq_sum(s) by {
            if k < s.len() - 1 {
                assert(s.drop_last()[k] == s[k]);
            }
        }
        if seq_sum(s) == 0 {
            assert forall|k: int| 0 <= k < s.len() implies #[trigger] s[k] == 0 by {
                if k < s.len() - 1 {
                    assert(s.drop_last()[k] == s[k]);
                }
            }
        }
    }
}

/// Replacing one term of a sum changes the sum by the difference.
pub proof fn lemma_seq_sum_update(s: Seq<int>, k: int, v: int)
    requires
        0 <= k < s.len(),
    ensures
        seq_sum(s.update(k, v)) == seq_sum(s) - s[k] + v,
    decreases s.len(),
{
    if k == s.len() - 1 {
        assert(s.update(k, v).drop_last() =~= s.drop_last());
    } else {
        assert(s.update(k, v).drop_last() =~= s.drop_last().update(k, v));
        lemma_seq_sum_update(s.drop_last(), k, v);
    }
}

/// What lies beneath a node of a well-formed arena does not change when the
/// arena grows.
pub proof fn lemma_node_cell_extends(
    new: Seq<NodeEntry>,
    old: Seq<NodeEntry>,
    d: nat,
    id: int,
    p: Seq<int>,
)
    requires
        nodes_wf(old, d),
        seq_extends(new, old),
        0 <= id < old.len(),
    ensures
        node_cell(new, id, p) == node_cell(old, id, p),
    decreases id,
{
    assert(entry_wf(old, id, d));
    let e = old[id];
    let i = child_index(p, e.layer as nat);
    match e.body {
        NodeBody::Leaf(cells) => {},
        NodeBody::Branch(children) => {
            if 0 <= i < children@.len() {
                lemma_node_cell_extends(new, old, d, children@[i] as int, p);
            }
        },
    }
}

/// Beneath a node, points that agree modulo the side of the node hold the
/// same cell.
pub proof fn lemma_node_cell_low(nodes: Seq<NodeEntry>, d: nat, id: int, p: Seq<int>, q: Seq<int>)
    requires
        nodes_wf(nodes, d),
        0 <= id < nodes.len(),
        non_negative(p),
        non_negative(q),
        same_low(p, q, nodes[id].layer as nat),
    ensures
        node_cell(nodes, id, p) == node_cell(nodes, id, q),
    decreases id,
{
    assert(entry_wf(nodes, id, d));
    let e = nodes[id];
    lemma_same_low_child(p, q, e.layer as nat);
    let i = child_index(p, e.layer as nat);
    match e.body {
        NodeBody::Leaf(cells) => {},
        NodeBody::Branch(children) => {
            if 0 <= i < children@.len() {
                lemma_node_cell_low(nodes, d, children@[i] as int, p, q);
            }
        },
    }
}

/// A node whose population is zero holds no cell that is not zero.
pub proof fn lemma_zero_population(nodes: Seq<NodeEntry>, d: nat, id: int, p: Seq<int>)
    requires
        nodes_wf(nodes, d),
        0 <= id < nodes.len(),
        nodes[id].population@ == 0,
    ensures
        node_cell(nodes, id, p) == 0,
    decreases id,
{
    assert(entry_wf(nodes, id, d));
    let e = nodes[id];
    let i = child_index(p, e.layer as nat);
    match e.body {
        NodeBody::Leaf(cells) => {
            lemma_seq_sum_non_negative(cell_counts(cells@));
            if 0 <= i < cells@.len() {
                assert(cell_counts(cells@)[i] == 0);
            }
        },
        NodeBody::Branch(children) => {
            lemma_populations_non_negative(nodes, d, id);
            lemma_seq_sum_non_negative(child_pops(nodes, children@));
            if 0 <= i < children@.len() {
                assert(child_pops(nodes, children@)[i] == 0);
                lemma_zero_population(nodes, d, children@[i] as int, p);
            }
        },
    }
}

/// No population is negative, neither that of a node nor that of any of
/// its children.
pub proof fn lemma_populations_non_negative(nodes: Seq<NodeEntry>, d: nat, id: int)
    requires
        nodes_wf(nodes, d),
        0 <= id < nodes.len(),
    ensures
        nodes[id].population@ >= 0,
        nodes[id].body matches NodeBody::Branch(children) ==> forall|k: int|
            0 <= k < children@.len() ==> 0 <= #[trigger] child_pops(nodes, children@)[k],
    decreases id,
{
    assert(entry_wf(nodes, id, d));
    let e = nodes[id];
    match e.body {
        NodeBody::Leaf(cells) => {
            lemma_seq_sum_non_negative(cell_counts(cells@));
        },
        NodeBody::Branch(children) => {
            let pops = child_pops(nodes, children@);
            assert forall|k: int| 0 <= k < pops.len() implies 0 <= #[trigger] pops[k] by {
                lemma_populations_non_negative(nodes, d, children@[k] as int);
            }
            lemma_seq_sum_non_negative(pops);
        },
    }
}


/// Bucket `h` of the hash table names node `id`.
pub open spec fn in_bucket(buckets: Map<u64, Vec<NodeId>>, h: u64, id: int) -> bool {
    buckets.contains_key(h) && exists|t: int|
        0 <= t < buckets[h]@.len() && (#[trigger] buckets[h]@[t]) as int == id
}

/// Whether two vectors of cells hold the same cells.
fn same_cells(a: &Vec<Cell>, b: &Vec<Cell>) -> (r: bool)
    ensures
        r == (a@ == b@),
{
    if a.len() != b.len() {
        return false;
    }
    let mut k: usize = 0;
    while k < a.len()
        invariant
            a@.len() == b@.len(),
            k <= a@.len(),
            forall|j: int| 0 <= j < k ==> a@[j] == b@[j],
        decreases a@.len() - k,
    {
        if a[k] != b[k] {
            return false;
        }
        k += 1;
    }
    assert(a@ =~= b@);
    true
}

/// Whether two vectors of node names hold the same names.
fn same_ids(a: &Vec<NodeId>, b: &Vec<NodeId>) -> (r: bool)
    ensures
        r == (a@ == b@),
{
    if a.len() != b.len() {
        return false;
    }
    let mut k: usize = 0;
    while k < a.len()
        invariant
            a@.len() == b@.len(),
            k <= a@.len(),
            forall|j: int| 0 <= j < k ==> a@[j] == b@[j],
        decreases a@.len() - k,
    {
        if a[k] != b[k] {
            return false;
        }
        k += 1;
    }
    assert(a@ =~= b@);
    true
}

/// The content hash of the cells of a leaf.
fn hash_cells(cells: &Vec<Cell>) -> (h: u64)
    ensures
        h == hash_fold(LEAF_SEED, cell_words(cells@)),
{
    let mut h: u64 = LEAF_SEED;
    let mut k: usize = 0;
    let ghost words = cell_words(cells@);
    assert(words.subrange(0, 0) =~= Seq::<u64>::empty());
    while k < cells.len()
        invariant
            k <= cells@.len(),
            words == cell_words(cells@),
            h == hash_fold(LEAF_SEED, words.subrange(0, k as int)),
        decreases cells@.len() - k,
    {
        assert(words.subrange(0, k + 1).drop_last() =~= words.subrange(0, k as int));
        h = h.wrapping_mul(HASH_FACTOR).wrapping_add(cells[k] as u64);
        k += 1;
    }
    assert(words.subrange(0, k as int) =~= words);
    h
}

/// The number of cells that are not zero.
fn count_cells(cells: &Vec<Cell>) -> (n: BigNum)
    ensures
        n@ == seq_sum(cell_counts(cells@)),
{
    let mut n: usize = 0;
    let mut k: usize = 0;
    let ghost counts = cell_counts(cells@);
    assert(counts.subrange(0, 0) =~= Seq::<int>::empty());
    while k < cells.len()
        invariant
            k <= cells@.len(),
            counts == cell_counts(cells@),
            n == seq_sum(counts.subrange(0, k as int)),
            n <= k,
        decreases cells@.len() - k,
    {
        assert(counts.subrange(0, k + 1).drop_last() =~= counts.subrange(0, k as int));
        if cells[k] != 0 {
            n += 1;
        }
        k += 1;
    }
    assert(counts.subrange(0, k as int) =~= counts);
    BigNum::from_usize(n)
}

/// The list that bucket `h` holds, or the empty list.
pub open spec fn bucket_of(buckets: Map<u64, Vec<NodeId>>, h: u64) -> Seq<NodeId> {
    if buckets.contains_key(h) {
        buckets[h]@
    } else {
        Seq::empty()
    }
}

/// Every node of the arena is in the bucket of its hash, and the buckets
/// name nodes of the arena only.
pub open spec fn buckets_cover(buckets: Map<u64, Vec<NodeId>>, nodes: Seq<NodeEntry>) -> bool {
    &&& forall|i: int| 0 <= i < nodes.len() ==> #[trigger] in_bucket(buckets, nodes[i].hash, i)
    &&& forall|h: u64, j: int|
        buckets.contains_key(h) && 0 <= j < buckets[h]@.len() ==> #[trigger] buckets[h]@[j]
            < nodes.len()
}

/// Adds `id` to bucket `h`.
fn add_to_bucket(buckets: &mut HashMap<u64, Vec<NodeId>>, h: u64, id: NodeId)
    ensures
        final(buckets)@.contains_key(h),
        final(buckets)@[h]@ == bucket_of(old(buckets)@, h).push(id),
        forall|g: u64|
            g != h ==> final(buckets)@.contains_key(g) == old(buckets)@.contains_key(g),
        forall|g: u64|
            g != h && old(buckets)@.contains_key(g) ==> final(buckets)@[g] == old(buckets)@[g],
{
    broadcast use vstd::std_specs::hash::group_hash_axioms;

    let mut bucket = match buckets.remove(&h) {
        Some(b) => b,
        None => Vec::new(),
    };
    bucket.push(id);
    buckets.insert(h, bucket);
}

/// The buckets still cover the arena after the arena received an entry and
/// the bucket of its hash received its name.
proof fn lemma_buckets_cover_push(
    old_buckets: Map<u64, Vec<NodeId>>,
    new_buckets: Map<u64, Vec<NodeId>>,
    before: Seq<NodeEntry>,
    entry: NodeEntry,
)
    requires
        buckets_cover(old_buckets, before),
        new_buckets.contains_key(entry.hash),
        new_buckets[entry.hash]@ == bucket_of(old_buckets, entry.hash).push(
            before.len() as usize,
        ),
        before.len() <= usize::MAX,
        forall|g: u64|
            g != entry.hash ==> new_buckets.contains_key(g) == old_buckets.contains_key(g),
        forall|g: u64|
            g != entry.hash && old_buckets.contains_key(g) ==> new_buckets[g] == old_buckets[g],
    ensures
        buckets_cover(new_buckets, before.push(entry)),
{
    let after = before.push(entry);
    let h = entry.hash;
    let old_bucket = bucket_of(old_buckets, h);
    assert forall|i: int| 0 <= i < after.len() implies #[trigger] in_bucket(
        new_buckets,
        after[i].hash,
        i,
    ) by {
        if i < before.len() {
            assert(in_bucket(old_buckets, before[i].hash, i));
            if before[i].hash == h {
                let t = choose|t: int|
                    0 <= t < old_bucket.len() && (#[trigger] old_bucket[t]) as int == i;
                assert(new_buckets[h]@[t] as int == i);
            } else {
                let g = before[i].hash;
                let t = choose|t: int|
                    0 <= t < old_buckets[g]@.len() && (#[trigger] old_buckets[g]@[t]) as int == i;
                assert(new_buckets[g]@[t] as int == i);
            }
        } else {
            assert(new_buckets[h]@[old_bucket.len() as int] as int == i);
        }
    }
    assert forall|g: u64, j: int|
        new_buckets.contains_key(g) && 0 <= j < new_buckets[g]@.len()
            implies #[trigger] new_buckets[g]@[j] < after.len() by {
        if g == h {
            if j < old_bucket.len() {
                assert(old_buckets.contains_key(h));
                assert(old_buckets[h]@[j] < before.len());
            }
        } else {
            assert(old_buckets.contains_key(g));
            assert(old_buckets[g]@[j] < before.len());
        }
    }
}

impl<const D: usize> NodeCache<D> {
    /// `id` names a node of this cache.
    pub open spec fn valid(&self, id: NodeId) -> bool {
        id < self.nodes@.len()
    }

    /// The layer of node `id`.
    pub open spec fn layer_of(&self, id: NodeId) -> nat {
        self.nodes@[id as int].layer as nat
    }

    /// The population of node `id`.
    pub open spec fn population_of(&self, id: NodeId) -> int {
        self.nodes@[id as int].population@
    }

    /// The state of the cell at `p` beneath node `id`.
    pub open spec fn cell(&self, id: NodeId, p: Seq<int>) -> Cell {
        node_cell(self.nodes@, id as int, p)
    }

    /// Node `id` is a leaf with these cells.
    pub open spec fn is_leaf_with(&self, id: NodeId, cells: Seq<Cell>) -> bool {
        self.valid(id) && (self.nodes@[id as int].body matches NodeBody::Leaf(c) && c@ == cells)
    }

    /// Node `id` has these children.
    pub open spec fn is_branch_with(&self, id: NodeId, children: Seq<NodeId>) -> bool {
        self.valid(id) && (self.nodes@[id as int].body matches NodeBody::Branch(c) && c@
            == children)
    }

    /// The children of node `id`; empty for a leaf.
    pub open spec fn children_of(&self, id: NodeId) -> Seq<NodeId> {
        match self.nodes@[id as int].body {
            NodeBody::Leaf(_) => Seq::empty(),
            NodeBody::Branch(c) => c@,
        }
    }

    /// All of `ids` name nodes of this cache, all of layer `layer`.
    pub open spec fn all_at_layer(&self, ids: Seq<NodeId>, layer: nat) -> bool {
        forall|k: int|
            0 <= k < ids.len() ==> self.valid(#[trigger] ids[k]) && self.layer_of(ids[k]) == layer
    }

    /// Every node is in the bucket of its hash, and the buckets name nodes
    /// only.
    pub open spec fn buckets_wf(&self) -> bool {
        buckets_cover(self.buckets@, self.nodes@)
    }

    /// The table of empty nodes names, for each layer it covers, a node of
    /// that layer without population.
    pub open spec fn empties_wf(&self) -> bool {
        forall|k: int|
            0 <= k < self.empties@.len() ==> {
                &&& (#[trigger] self.empties@[k]) < self.nodes@.len()
                &&& self.nodes@[self.empties@[k] as int].layer == k + 1
                &&& self.nodes@[self.empties@[k] as int].population@ == 0
            }
    }

    /// Every memoized result is a node one layer below its owner.
    pub open spec fn results_wf(&self) -> bool {
        &&& self.results@.len() == self.nodes@.len()
        &&& forall|n: int, j: int|
            0 <= n < self.results@.len() && 0 <= j < self.results@[n]@.len() ==> {
                &&& (#[trigger] self.results@[n]@[j]).result < self.nodes@.len()
                &&& self.nodes@[self.results@[n]@[j].result as int].layer + 1
                    == self.nodes@[n].layer
            }
    }

    /// The invariant of the cache.
    pub open spec fn wf(&self) -> bool {
        &&& 1 <= D <= 6
        &&& nodes_wf(self.nodes@, D as nat)
        &&& self.buckets_wf()
        &&& self.empties_wf()
        &&& self.results_wf()
    }

    /// This cache holds every node of `old`, unchanged, under the same
    /// name, and every entry of its table of empty nodes.
    pub open spec fn extends(&self, old: &Self) -> bool {
        &&& seq_extends(self.nodes@, old.nodes@)
        &&& seq_extends(self.empties@, old.empties@)
    }

    /// The memoized results of the nodes of `old` are those of `old`, and
    /// the other nodes have none.
    pub open spec fn same_results(&self, old: &Self) -> bool {
        &&& seq_extends(self.results@, old.results@)
        &&& forall|n: int|
            old.results@.len() <= n < self.results@.len() ==> (#[trigger] self.results@[n])@.len()
                == 0
    }

    /// Every node that this cache holds and `old` did not is without
    /// population.
    pub open spec fn only_empty_added(&self, old: &Self) -> bool {
        forall|m: int|
            old.nodes@.len() <= m < self.nodes@.len() ==> (#[trigger] self.nodes@[m]).population@
                == 0
    }

    /// Where a cache has grown by at most the node `r`, which is without
    /// population, from a cache that had added empty nodes only, it has
    /// added empty nodes only.
    pub proof fn lemma_only_empty_step(&self, before: &Self, old: &Self, r: NodeId)
        requires
            before.only_empty_added(old),
            old.nodes@.len() <= before.nodes@.len(),
            self.extends(before),
            self.nodes@.len() <= before.nodes@.len() + 1,
            before.valid(r) <==> self.nodes@.len() == before.nodes@.len(),
            self.valid(r),
            !before.valid(r) ==> self.population_of(r) == 0,
        ensures
            self.only_empty_added(old),
    {
        assert forall|m: int| old.nodes@.len() <= m < self.nodes@.len() implies (
        #[trigger] self.nodes@[m]).population@ == 0 by {
            if m < before.nodes@.len() {
                assert(self.nodes@[m] == before.nodes@[m]);
            } else {
                assert(m == r);
            }
        }
    }

    /// Adding empty nodes only, twice over, is adding empty nodes only.
    pub proof fn lemma_only_empty_twice(&self, before: &Self, old: &Self)
        requires
            before.only_empty_added(old),
            self.only_empty_added(before),
            self.extends(before),
            old.nodes@.len() <= before.nodes@.len(),
        ensures
            self.only_empty_added(old),
    {
        assert forall|m: int| old.nodes@.len() <= m < self.nodes@.len() implies (
        #[trigger] self.nodes@[m]).population@ == 0 by {
            if m < before.nodes@.len() {
                assert(self.nodes@[m] == before.nodes@[m]);
            }
        }
    }

    /// A cache without nodes.
    pub fn new() -> (cache: Self)
        requires
            1 <= D <= 6,
        ensures
            cache.wf(),
            cache.nodes@.len() == 0,
            cache.empties@.len() == 0,
            cache.results@.len() == 0,
    {
        let cache = NodeCache {
            nodes: Vec::new(),
            buckets: HashMap::new(),
            empties: Vec::new(),
            results: Vec::new(),
        };
        cache
    }

    /// The number of nodes in the cache.
    pub fn len(&self) -> (n: usize)
        ensures
            n == self.nodes@.len(),
    {
        self.nodes.len()
    }

    /// `2^D`, the number of children of a node and of cells of a leaf.
    pub fn branching_factor() -> (n: usize)
        requires
            1 <= D <= 6,
        ensures
            n == pow2(D as nat),
            2 <= n <= 64,
    {
        proof {
            vstd::arithmetic::power2::lemma2_to64();
        }
        if D == 1 {
            2
        } else if D == 2 {
            4
        } else if D == 3 {
            8
        } else if D == 4 {
            16
        } else if D == 5 {
            32
        } else {
            64
        }
    }

    /// The content hash of a node with these children.
    fn hash_children(&self, children: &Vec<NodeId>) -> (h: u64)
        requires
            forall|k: int| 0 <= k < children@.len() ==> self.valid(#[trigger] children@[k]),
        ensures
            h == hash_fold(BRANCH_SEED, child_hashes(self.nodes@, children@)),
    {
        let mut h: u64 = BRANCH_SEED;
        let mut k: usize = 0;
        let ghost words = child_hashes(self.nodes@, children@);
        assert(words.subrange(0, 0) =~= Seq::<u64>::empty());
        while k < children.len()
            invariant
                k <= children@.len(),
                words == child_hashes(self.nodes@, children@),
                forall|k: int| 0 <= k < children@.len() ==> self.valid(#[trigger] children@[k]),
                h == hash_fold(BRANCH_SEED, words.subrange(0, k as int)),
            decreases children@.len() - k,
        {
            assert(words.subrange(0, k + 1).drop_last() =~= words.subrange(0, k as int));
            h = h.wrapping_mul(HASH_FACTOR).wrapping_add(self.nodes[children[k]].hash);
            k += 1;
        }
        assert(words.subrange(0, k as int) =~= words);
        h
    }

    /// The sum of the populations of these nodes.
    fn sum_children(&self, children: &Vec<NodeId>) -> (n: BigNum)
        requires
            forall|k: int| 0 <= k < children@.len() ==> self.valid(#[trigger] children@[k]),
        ensures
            n@ == seq_sum(child_pops(self.nodes@, children@)),
    {
        let mut n = BigNum::zero();
        let mut k: usize = 0;
        let ghost pops = child_pops(self.nodes@, children@);
        assert(pops.subrange(0, 0) =~= Seq::<int>::empty());
        while k < children.len()
            invariant
                k <= children@.len(),
                pops == child_pops(self.nodes@, children@),
                forall|k: int| 0 <= k < children@.len() ==> self.valid(#[trigger] children@[k]),
                n@ == seq_sum(pops.subrange(0, k as int)),
            decreases children@.len() - k,
        {
            assert(pops.subrange(0, k + 1).drop_last() =~= pops.subrange(0, k as int));
            n = n.add(&self.nodes[children[k]].population);
            k += 1;
        }
        assert(pops.subrange(0, k as int) =~= pops);
        n
    }

    /// The node that holds `body`, if the cache has one.
    fn find(&self, h: u64, body: &NodeBody) -> (r: Option<NodeId>)
        requires
            self.wf(),
            forall|i: int|
                0 <= i < self.nodes@.len() && #[trigger] same_body(self.nodes@[i].body, *body)
                    ==> self.nodes@[i].hash == h,
        ensures
            match r {
                Some(id) => self.valid(id) && same_body(self.nodes@[id as int].body, *body),
                None => forall|i: int|
                    0 <= i < self.nodes@.len() ==> !#[trigger] same_body(
                        self.nodes@[i].body,
                        *body,
                    ),
            },
    {
        broadcast use vstd::std_specs::hash::group_hash_axioms;

        match self.buckets.get(&h) {
            None => {
                assert forall|i: int| 0 <= i < self.nodes@.len() implies !#[trigger] same_body(
                    self.nodes@[i].body,
                    *body,
                ) by {
                    assert(in_bucket(self.buckets@, self.nodes@[i].hash, i));
                }
                None
            },
            Some(bucket) => {
                let mut j: usize = 0;
                while j < bucket.len()
                    invariant
                        self.wf(),
                        self.buckets@.contains_key(h),
                        *bucket == self.buckets@[h],
                        j <= bucket@.len(),
                        forall|t: int|
                            0 <= t < j ==> !same_body(
                                self.nodes@[(#[trigger] bucket@[t]) as int].body,
                                *body,
                            ),
                    decreases bucket@.len() - j,
                {
                    let id = bucket[j];
                    assert(self.buckets@[h]@[j as int] < self.nodes@.len());
                    let found = match (&self.nodes[id].body, body) {
                        (NodeBody::Leaf(x), NodeBody::Leaf(y)) => same_cells(x, y),
                        (NodeBody::Branch(x), NodeBody::Branch(y)) => same_ids(x, y),
                        _ => false,
                    };
                    if found {
                        return Some(id);
                    }
                    j += 1;
                }
                assert forall|i: int| 0 <= i < self.nodes@.len() implies !#[trigger] same_body(
                    self.nodes@[i].body,
                    *body,
                ) by {
                    assert(in_bucket(self.buckets@, self.nodes@[i].hash, i));
                    if same_body(self.nodes@[i].body, *body) {
                        let t = choose|t: int|
                            0 <= t < bucket@.len() && (#[trigger] bucket@[t]) as int == i;
                        assert(!same_body(self.nodes@[bucket@[t] as int].body, *body));
                    }
                }
                None
            },
        }
    }

    /// Appends a node that the cache does not hold yet; `results` has
    /// already received its empty list.
    fn append(&mut self, entry: NodeEntry) -> (id: NodeId)
        requires
            1 <= D <= 6,
            nodes_wf(old(self).nodes@, D as nat),
            old(self).buckets_wf(),
            old(self).empties_wf(),
            old(self).results@.len() == old(self).nodes@.len() + 1,
            old(self).results@.last()@.len() == 0,
            forall|n: int, j: int|
                0 <= n < old(self).nodes@.len() && 0 <= j < old(self).results@[n]@.len() ==> {
                    &&& (#[trigger] old(self).results@[n]@[j]).result < old(self).nodes@.len()
                    &&& old(self).nodes@[old(self).results@[n]@[j].result as int].layer + 1 == old(self).nodes@[n].layer
                },
            entry_wf(old(self).nodes@.push(entry), old(self).nodes@.len() as int, D as nat),
            forall|i: int|
                0 <= i < old(self).nodes@.len() ==> !#[trigger] same_body(
                    old(self).nodes@[i].body,
                    entry.body,
                ),
        ensures
            final(self).wf(),
            final(self).extends(old(self)),
            final(self).nodes@ == old(self).nodes@.push(entry),
            final(self).empties@ == old(self).empties@,
            final(self).results@ == old(self).results@,
            id == old(self).nodes@.len(),
    {
        let id = self.nodes.len();
        let h = entry.hash;
        let ghost before = self.nodes@;
        let ghost old_buckets = self.buckets@;
        self.nodes.push(entry);
        add_to_bucket(&mut self.buckets, h, id);
        proof {
            lemma_push_nodes_wf(before, entry, D as nat);
            lemma_buckets_cover_push(old_buckets, self.buckets@, before, entry);
            assert forall|n: int, j: int|
                0 <= n < self.results@.len() && 0 <= j < self.results@[n]@.len() implies {
                    &&& (#[trigger] self.results@[n]@[j]).result < self.nodes@.len()
                    &&& self.nodes@[self.results@[n]@[j].result as int].layer + 1
                        == self.nodes@[n].layer
                } by {
                assert(n < before.len());
            }
        }
        id
    }

    /// The leaf with these cells: the one that the cache holds, or a new
    /// one, which is then the last node of the arena.
    pub fn intern_leaf(&mut self, cells: Vec<Cell>) -> (id: NodeId)
        requires
            old(self).wf(),
            cells@.len() == pow2(D as nat),
        ensures
            final(self).wf(),
            final(self).extends(old(self)),
            final(self).same_results(old(self)),
            final(self).empties@ == old(self).empties@,
            final(self).is_leaf_with(id, cells@),
            final(self).layer_of(id) == 1,
            old(self).nodes@.len() <= final(self).nodes@.len() <= old(self).nodes@.len() + 1,
            old(self).valid(id) <==> final(self).nodes@.len() == old(self).nodes@.len(),
    {
        let h = hash_cells(&cells);
        let body = NodeBody::Leaf(cells);
        proof {
            assert forall|i: int|
                0 <= i < self.nodes@.len() && #[trigger] same_body(
                    self.nodes@[i].body,
                    body,
                ) implies self.nodes@[i].hash == h by {
                assert(entry_wf(self.nodes@, i, D as nat));
            }
        }
        match self.find(h, &body) {
            Some(id) => {
                proof {
                    assert(entry_wf(self.nodes@, id as int, D as nat));
                }
                id
            },
            None => {
                self.results.push(Vec::new());
                let population = match &body {
                    NodeBody::Leaf(held) => count_cells(held),
                    NodeBody::Branch(_) => BigNum::zero(),
                };
                let entry = NodeEntry { layer: 1, body, population, hash: h };
                self.append(entry)
            },
        }
    }

    /// The node with these children: the one that the cache holds, or a
    /// new one. Where all the children are the empty node of their layer,
    /// this is the empty node of the next layer.
    pub fn intern_node(&mut self, children: Vec<NodeId>) -> (id: NodeId)
        requires
            old(self).wf(),
            children@.len() == pow2(D as nat),
            old(self).all_at_layer(children@, old(self).layer_of(children@[0])),
        ensures
            final(self).wf(),
            final(self).extends(old(self)),
            final(self).same_results(old(self)),
            final(self).empties@ == old(self).empties@,
            final(self).is_branch_with(id, children@),
            final(self).layer_of(id) == old(self).layer_of(children@[0]) + 1,
            old(self).nodes@.len() <= final(self).nodes@.len() <= old(self).nodes@.len() + 1,
            old(self).valid(id) <==> final(self).nodes@.len() == old(self).nodes@.len(),
    {
        proof {
            lemma_pow2_pos(D as nat);
        }
        let h = self.hash_children(&children);
        let child_layer = self.nodes[children[0]].layer;
        let body = NodeBody::Branch(children);
        proof {
            assert forall|i: int|
                0 <= i < self.nodes@.len() && #[trigger] same_body(
                    self.nodes@[i].body,
                    body,
                ) implies self.nodes@[i].hash == h by {
                assert(entry_wf(self.nodes@, i, D as nat));
            }
        }
        match self.find(h, &body) {
            Some(id) => {
                proof {
                    assert(entry_wf(self.nodes@, id as int, D as nat));
                    assert(children@[0] == self.children_of(id)[0]);
                }
                id
            },
            None => {
                self.results.push(Vec::new());
                let total = self.results.len();
                proof {
                    assert(entry_wf(self.nodes@, children@[0] as int, D as nat));
                    assert(child_layer < total);
                }
                let population = match &body {
                    NodeBody::Branch(held) => self.sum_children(held),
                    NodeBody::Leaf(_) => BigNum::zero(),
                };
                let entry = NodeEntry { layer: child_layer + 1, body, population, hash: h };
                proof {
                    let after = self.nodes@.push(entry);
                    assert(child_pops(after, children@) =~= child_pops(self.nodes@, children@));
                    assert(child_hashes(after, children@) =~= child_hashes(
                        self.nodes@,
                        children@,
                    ));
                }
                self.append(entry)
            },
        }
    }

    /// The layer of a node.
    pub fn layer(&self, id: NodeId) -> (layer: usize)
        requires
            self.wf(),
            self.valid(id),
        ensures
            layer == self.layer_of(id),
            layer >= 1,
    {
        proof {
            assert(entry_wf(self.nodes@, id as int, D as nat));
        }
        self.nodes[id].layer
    }

    /// No node is of a layer above the number of nodes.
    pub proof fn lemma_layer_bound(&self, id: NodeId)
        requires
            self.wf(),
            self.valid(id),
        ensures
            1 <= self.layer_of(id) <= id + 1,
            self.layer_of(id) <= self.nodes@.len(),
    {
        assert(entry_wf(self.nodes@, id as int, D as nat));
    }

    /// The content hash of a node: the same for the same content in every
    /// cache and every run.
    pub fn hash(&self, id: NodeId) -> (h: u64)
        requires
            self.wf(),
            self.valid(id),
        ensures
            h == self.nodes@[id as int].hash,
            h == (match self.nodes@[id as int].body {
                NodeBody::Leaf(cells) => hash_fold(LEAF_SEED, cell_words(cells@)),
                NodeBody::Branch(children) => hash_fold(
                    BRANCH_SEED,
                    child_hashes(self.nodes@, children@),
                ),
            }),
    {
        proof {
            assert(entry_wf(self.nodes@, id as int, D as nat));
        }
        self.nodes[id].hash
    }

    /// The number of cells beneath a node that are not zero.
    pub fn population(&self, id: NodeId) -> (n: BigNum)
        requires
            self.valid(id),
        ensures
            n@ == self.population_of(id),
    {
        self.nodes[id].population.copy()
    }

    /// Whether every cell beneath a node is zero.
    pub fn is_empty(&self, id: NodeId) -> (r: bool)
        requires
            self.wf(),
            self.valid(id),
        ensures
            r == (self.population_of(id) == 0),
            r ==> forall|p: Seq<int>| self.cell(id, p) == 0,
    {
        let r = self.nodes[id].population.is_zero();
        proof {
            if r {
                assert forall|p: Seq<int>| self.cell(id, p) == 0 by {
                    lemma_zero_population(self.nodes@, D as nat, id as int, p);
                }
            }
        }
        r
    }

    /// Child `i` of a node above layer 1.
    pub fn child(&self, id: NodeId, i: usize) -> (c: NodeId)
        requires
            self.wf(),
            self.valid(id),
            self.layer_of(id) >= 2,
            i < pow2(D as nat),
        ensures
            c == self.children_of(id)[i as int],
            self.valid(c),
            c < id,
            self.layer_of(c) == self.layer_of(id) - 1,
    {
        proof {
            assert(entry_wf(self.nodes@, id as int, D as nat));
        }
        match &self.nodes[id].body {
            NodeBody::Branch(children) => children[i],
            NodeBody::Leaf(_) => id,
        }
    }

    /// Cell `i` of a leaf.
    pub fn leaf_cell(&self, id: NodeId, i: usize) -> (c: Cell)
        requires
            self.wf(),
            self.valid(id),
            self.layer_of(id) == 1,
            i < pow2(D as nat),
        ensures
            self.nodes@[id as int].body matches NodeBody::Leaf(cells) && c == cells@[i as int],
    {
        proof {
            assert(entry_wf(self.nodes@, id as int, D as nat));
        }
        match &self.nodes[id].body {
            NodeBody::Leaf(cells) => cells[i],
            NodeBody::Branch(_) => 0,
        }
    }

    /// The node of layer `layer` whose cells are all zero, made on demand
    /// from the empty node one layer down. Whatever is interned on the way is
    /// an empty node.
    pub fn get_empty(&mut self, layer: usize) -> (id: NodeId)
        requires
            old(self).wf(),
            layer >= 1,
        ensures
            final(self).wf(),
            final(self).extends(old(self)),
            final(self).same_results(old(self)),
            final(self).valid(id),
            final(self).layer_of(id) == layer,
            final(self).population_of(id) == 0,
            final(self).empties@.len() >= layer,
            final(self).empties@[layer - 1] == id,
            final(self).only_empty_added(old(self)),
            forall|p: Seq<int>| final(self).cell(id, p) == 0,
    {
        let n = Self::branching_factor();
        while self.empties.len() < layer
            invariant
                self.wf(),
                self.extends(old(self)),
                self.same_results(old(self)),
                self.only_empty_added(old(self)),
                n == pow2(D as nat),
                2 <= n,
            decreases layer - self.empties@.len(),
        {
            let ghost before = *self;
            let mut k: usize = 0;
            let id = if self.empties.len() == 0 {
                let mut cells: Vec<Cell> = Vec::new();
                while k < n
                    invariant
                        k <= n,
                        cells@.len() == k,
                        forall|j: int| 0 <= j < k ==> cells@[j] == 0,
                    decreases n - k,
                {
                    cells.push(0);
                    k += 1;
                }
                proof {
                    lemma_seq_sum_zero(cell_counts(cells@));
                }
                self.intern_leaf(cells)
            } else {
                let last = self.empties[self.empties.len() - 1];
                let mut children: Vec<NodeId> = Vec::new();
                while k < n
                    invariant
                        k <= n,
                        children@.len() == k,
                        forall|j: int| 0 <= j < k ==> children@[j] == last,
                    decreases n - k,
                {
                    children.push(last);
                    k += 1;
                }
                proof {
                    lemma_seq_sum_zero(child_pops(self.nodes@, children@));
                }
                self.intern_node(children)
            };
            proof {
                assert(entry_wf(self.nodes@, id as int, D as nat));
                match self.nodes@[id as int].body {
                    NodeBody::Leaf(cells) => {},
                    NodeBody::Branch(children) => {
                        assert(child_pops(self.nodes@, children@) =~= child_pops(
                            before.nodes@,
                            children@,
                        ));
                    },
                }
                self.lemma_only_empty_step(&before, old(self), id);
            }
            self.empties.push(id);
        }
        let id = self.empties[layer - 1];
        proof {
            assert forall|p: Seq<int>| self.cell(id, p) == 0 by {
                lemma_zero_population(self.nodes@, D as nat, id as int, p);
            }
        }
        id
    }

    /// The node with these children; another name of `intern_node`.
    pub fn join(&mut self, children: Vec<NodeId>) -> (id: NodeId)
        requires
            old(self).wf(),
            children@.len() == pow2(D as nat),
            old(self).all_at_layer(children@, old(self).layer_of(children@[0])),
        ensures
            final(self).wf(),
            final(self).extends(old(self)),
            final(self).same_results(old(self)),
            final(self).empties@ == old(self).empties@,
            final(self).is_branch_with(id, children@),
            final(self).layer_of(id) == old(self).layer_of(children@[0]) + 1,
            old(self).nodes@.len() <= final(self).nodes@.len() <= old(self).nodes@.len() + 1,
            old(self).valid(id) <==> final(self).nodes@.len() == old(self).nodes@.len(),
    {
        self.intern_node(children)
    }

    /// The result memoized for a node and a number of generations, if there
    /// is one.
    pub fn get_result(&self, id: NodeId, generations: &BigNum) -> (r: Option<NodeId>)
        requires
            self.wf(),
            self.valid(id),
        ensures
            r == memo_lookup(self.results@[id as int]@, generations@),
            r matches Some(res) ==> self.valid(res) && self.layer_of(res) + 1 == self.layer_of(
                id,
            ),
    {
        let list = &self.results[id];
        let mut j: usize = 0;
        while j < list.len()
            invariant
                self.wf(),
                self.valid(id),
                *list == self.results@[id as int],
                j <= list@.len(),
                forall|t: int| 0 <= t < j ==> (#[trigger] list@[t]).generations@ != generations@,
            decreases list@.len() - j,
        {
            if list[j].generations.equals(generations) {
                proof {
                    lemma_memo_lookup_first(list@, generations@, j as int);
                    assert(self.results@[id as int]@[j as int].result < self.nodes@.len());
                }
                return Some(list[j].result);
            }
            j += 1;
        }
        proof {
            lemma_memo_lookup_none(list@, generations@);
        }
        None
    }

    /// Memoizes `result` as the result of node `id` for `generations`.
    pub fn set_result(&mut self, id: NodeId, generations: BigNum, result: NodeId)
        requires
            old(self).wf(),
            old(self).valid(id),
            old(self).valid(result),
            old(self).layer_of(result) + 1 == old(self).layer_of(id),
        ensures
            final(self).wf(),
            final(self).nodes@ == old(self).nodes@,
            final(self).empties@ == old(self).empties@,
            final(self).results@.len() == old(self).results@.len(),
            final(self).results@[id as int]@ == old(self).results@[id as int]@.push(
                MemoEntry { generations, result },
            ),
            forall|n: int|
                0 <= n < old(self).results@.len() && n != id ==> final(self).results@[n] == old(self).results@[n],
    {
        let ghost before = self.results@;
        self.results[id].push(MemoEntry { generations, result });
        proof {
            assert forall|n: int, j: int|
                0 <= n < self.results@.len() && 0 <= j < self.results@[n]@.len() implies {
                    &&& (#[trigger] self.results@[n]@[j]).result < self.nodes@.len()
                    &&& self.nodes@[self.results@[n]@[j].result as int].layer + 1
                        == self.nodes@[n].layer
                } by {
                if n == id && j == before[n]@.len() {
                } else {
                    assert(self.results@[n]@[j] == before[n]@[j]);
                }
            }
        }
    }

    /// Forgets every memoized result.
    pub fn clear_results(&mut self)
        requires
            old(self).wf(),
        ensures
            final(self).wf(),
            final(self).nodes@ == old(self).nodes@,
            final(self).empties@ == old(self).empties@,
            forall|n: int|
                0 <= n < final(self).results@.len() ==> (#[trigger] final(self).results@[n])@.len()
                    == 0,
    {
        let total = self.nodes.len();
        let mut fresh: Vec<Vec<MemoEntry>> = Vec::new();
        let mut k: usize = 0;
        while k < total
            invariant
                k <= total,
                fresh@.len() == k,
                forall|n: int| 0 <= n < k ==> (#[trigger] fresh@[n])@.len() == 0,
            decreases total - k,
        {
            fresh.push(Vec::new());
            k += 1;
        }
        self.results = fresh;
    }
}

/// The first result in `list` that was memoized for `generations`.
pub open spec fn memo_lookup(list: Seq<MemoEntry>, generations: int) -> Option<NodeId>
    decreases list.len(),
{
    if list.len() == 0 {
        None
    } else if list[0].generations@ == generations {
        Some(list[0].result)
    } else {
        memo_lookup(list.drop_first(), generations)
    }
}

/// The lookup finds entry `j` where no entry before it is for
/// `generations`.
pub proof fn lemma_memo_lookup_first(list: Seq<MemoEntry>, generations: int, j: int)
    requires
        0 <= j < list.len(),
        list[j].generations@ == generations,
        forall|t: int| 0 <= t < j ==> (#[trigger] list[t]).generations@ != generations,
    ensures
        memo_lookup(list, generations) == Some(list[j].result),
    decreases list.len(),
{
    if j > 0 {
        assert(list[0].generations@ != generations);
        let rest = list.drop_first();
        assert forall|t: int| 0 <= t < j - 1 implies (#[trigger] rest[t]).generations@
            != generations by {
            assert(rest[t] == list[t + 1]);
        }
        lemma_memo_lookup_first(rest, generations, j - 1);
    }
}

/// The lookup finds nothing where no entry is for `generations`.
pub proof fn lemma_memo_lookup_none(list: Seq<MemoEntry>, generations: int)
    requires
        forall|t: int| 0 <= t < list.len() ==> (#[trigger] list[t]).generations@ != generations,
    ensures
        memo_lookup(list, generations) is None,
    decreases list.len(),
{
    if list.len() > 0 {
        let rest = list.drop_first();
        assert forall|t: int| 0 <= t < rest.len() implies (#[trigger] rest[t]).generations@
            != generations by {
            assert(rest[t] == list[t + 1]);
        }
        lemma_memo_lookup_none(rest, generations);
    }
}

/// What the lookup finds is the result of some entry for `generations`.
pub proof fn lemma_memo_lookup_some(list: Seq<MemoEntry>, generations: int) -> (j: int)
    requires
        memo_lookup(list, generations) is Some,
    ensures
        0 <= j < list.len(),
        list[j].generations@ == generations,
        memo_lookup(list, generations) == Some(list[j].result),
    decreases list.len(),
{
    if list[0].generations@ == generations {
        0
    } else {
        lemma_memo_lookup_some(list.drop_first(), generations) + 1
    }
}

/// Where no term of `b` exceeds the term of `a` at its place, the sum of `b`
/// does not exceed the sum of `a`, and the sums are equal only where all
/// terms are.
pub proof fn lemma_seq_sum_pointwise(a: Seq<int>, b: Seq<int>)
    requires
        a.len() == b.len(),
        forall|k: int| 0 <= k < a.len() ==> #[trigger] b[k] <= a[k],
    ensures
        seq_sum(b) <= seq_sum(a),
        seq_sum(a) == seq_sum(b) ==> forall|k: int| 0 <= k < a.len() ==> #[trigger] a[k] == b[k],
    decreases a.len(),
{
    if a.len() > 0 {
        let a0 = a.drop_last();
        let b0 = b.drop_last();
        assert forall|k: int| 0 <= k < a0.len() implies #[trigger] b0[k] <= a0[k] by {
            assert(b0[k] == b[k] && a0[k] == a[k]);
        }
        lemma_seq_sum_pointwise(a0, b0);
        assert(b.last() <= a.last());
        if seq_sum(a) == seq_sum(b) {
            assert forall|k: int| 0 <= k < a.len() implies #[trigger] a[k] == b[k] by {
                if k < a.len() - 1 {
                    assert(b0[k] == b[k] && a0[k] == a[k]);
                }
            }
        }
    }
}

/// Where a sum without negative terms equals one of its terms, the other
/// terms are zero.
pub proof fn lemma_seq_sum_single(s: Seq<int>, k: int)
    requires
        0 <= k < s.len(),
        forall|j: int| 0 <= j < s.len() ==> 0 <= #[trigger] s[j],
        seq_sum(s) == s[k],
    ensures
        forall|j: int| 0 <= j < s.len() && j != k ==> #[trigger] s[j] == 0,
{
    let t = s.update(k, 0);
    lemma_seq_sum_update(s, k, 0);
    lemma_seq_sum_non_negative(t);
    assert forall|j: int| 0 <= j < s.len() && j != k implies #[trigger] s[j] == 0 by {
        assert(t[j] == s[j]);
    }
}

/// A sum of zeros is zero.
pub proof fn lemma_seq_sum_zero(s: Seq<int>)
    requires
        forall|k: int| 0 <= k < s.len() ==> #[trigger] s[k] == 0,
    ensures
        seq_sum(s) == 0,
    decreases s.len(),
{
    if s.len() > 0 {
        lemma_seq_sum_zero(s.drop_last());
    }
}

} // verus!
