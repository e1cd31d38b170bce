//! An automaton: a grid, the rule that it lives under, and the number of
//! generations that it has been advanced by.

use crate::big::BigNum;
use crate::cache::{Cell, NodeCache};
use crate::evolve::{evolve, Grid};
use crate::ndtree::NdTree;
use crate::ndvec::BigVec;
use crate::node::live;
use crate::rule::Rule;
use crate::sim::{radius_fits, SimError, Simulation};
use vstd::prelude::*;

verus! {

/// A cellular automaton in `D` dimensions under a rule `R`: a tree with a
/// node store of its own, a simulation, and a generation counter.
pub struct NdAutomaton<R: Rule<D>, const D: usize> {
    /// The grid.
    pub tree: NdTree<D>,
    /// The node store of the grid, with the results memoized for the rule.
    pub cache: NodeCache<D>,
    /// The stepper.
    pub sim: Simulation<R, D>,
    /// The number of generations that the grid was advanced by.
    pub generations: BigNum,
}

impl<R: Rule<D>, const D: usize> NdAutomaton<R, D> {
    /// The invariant of an automaton.
    pub open spec fn wf(&self) -> bool {
        &&& self.sim.wf()
        &&& self.tree.wf(&self.cache)
        &&& self.sim.memo_sound(&self.cache)
        &&& self.generations@ >= 0
    }

    /// The grid of the automaton.
    pub open spec fn grid(&self) -> Grid {
        self.tree.grid(&self.cache)
    }

    /// An automaton with an empty grid under `rule`, at generation zero.
    /// The rule is refused where its radius is too large for the machine.
    pub fn new(rule: R) -> (r: Result<Self, SimError>)
        requires
            1 <= D <= 6,
        ensures
            r is Ok <==> radius_fits(rule.radius_spec(), D as nat),
            r matches Err(e) ==> e == SimError::RuleRadiusTooLargeForTree,
            r matches Ok(a) ==> a.wf() && a.sim.rule == rule && a.generations@ == 0 && (forall|
                p: Seq<int>,
            | #[trigger] a.tree.cell(&a.cache, p) == 0),
    {
        match Simulation::new(rule) {
            Err(e) => Err(e),
            Ok(sim) => {
                let mut cache = NodeCache::new();
                let tree = NdTree::new(&mut cache);
                Ok(NdAutomaton { tree, cache, sim, generations: BigNum::zero() })
            },
        }
    }

    /// The state of the cell at `pos`.
    pub fn get_cell(&self, pos: &BigVec<D>) -> (c: Cell)
        requires
            self.wf(),
            pos.wf(),
        ensures
            c == self.grid()(pos@),
    {
        self.tree.get_cell(&self.cache, pos)
    }

    /// Sets the state of the cell at `pos`.
    pub fn set_cell(&mut self, pos: &BigVec<D>, state: Cell)
        requires
            old(self).wf(),
            pos.wf(),
        ensures
            final(self).wf(),
            final(self).generations@ == old(self).generations@,
            final(self).sim == old(self).sim,
            forall|p: Seq<int>| #[trigger]
                final(self).tree.cell(&final(self).cache, p) == (if p == pos@ {
                    state
                } else {
                    old(self).tree.cell(&old(self).cache, p)
                }),
            final(self).tree.population_of(&final(self).cache) == old(self).tree.population_of(
                &old(self).cache,
            ) - live(old(self).grid()(pos@)) + live(state),
    {
        let ghost before = self.cache;
        self.tree.set_cell(&mut self.cache, pos, state);
        proof {
            self.sim.lemma_memo_extends(&self.cache, &before);
        }
    }

    /// The number of cells that are not zero.
    pub fn population(&self) -> (n: BigNum)
        requires
            self.wf(),
        ensures
            n@ == self.tree.population_of(&self.cache),
    {
        self.tree.population(&self.cache)
    }

    /// The number of generations that the grid was advanced by.
    pub fn generation_count(&self) -> (n: BigNum)
        ensures
            n@ == self.generations@,
    {
        self.generations.copy()
    }

    /// Drops every node that the grid does not need, and every memoized
    /// result: the grid moves to a fresh cache, which holds only copies of
    /// nodes that are reached from the root of the tree or from the table of
    /// empty nodes, and no results. The grid, its population and the
    /// generation counter stay as they are.
    pub fn collect_garbage(&mut self)
        requires
            old(self).wf(),
        ensures
            final(self).wf(),
            final(self).sim == old(self).sim,
            final(self).generations@ == old(self).generations@,
            final(self).tree.offset@ == old(self).tree.offset@,
            final(self).tree.layer(&final(self).cache) == old(self).tree.layer(&old(self).cache),
            final(self).tree.population_of(&final(self).cache) == old(self).tree.population_of(
                &old(self).cache,
            ),
            forall|p: Seq<int>| #[trigger]
                final(self).tree.cell(&final(self).cache, p) == old(self).tree.cell(
                    &old(self).cache,
                    p,
                ),
            forall|m: crate::cache::NodeId|
                final(self).cache.valid(m) ==> exists|k: crate::cache::NodeId|
                    #[trigger] crate::gc::same_node(&old(self).cache, k, &final(self).cache, m)
                        && crate::gc::wanted(&old(self).cache, seq![old(self).tree.root], k),
            forall|n: int|
                0 <= n < final(self).cache.results@.len() ==> (#[trigger] final(self).cache.results@[n])@.len() == 0,
    {
        let mut roots: Vec<crate::cache::NodeId> = Vec::new();
        roots.push(self.tree.root);
        let (fresh, copies) = self.cache.collect(&roots);
        let root = copies[0];
        proof {
            assert(roots@ =~= seq![self.tree.root]);
            assert(crate::gc::same_node(&self.cache, roots@[0], &fresh, copies@[0]));
        }
        self.cache = fresh;
        self.tree.root = root;
    }

    /// Advances the grid by `step_size` generations, and the generation
    /// counter with it. Nothing changes where the step is refused.
    pub fn step(&mut self, step_size: &BigNum) -> (r: Result<(), SimError>)
        requires
            old(self).wf(),
        ensures
            final(self).wf(),
            final(self).sim == old(self).sim,
            step_size@ <= 0 ==> r == Err::<(), SimError>(SimError::InvalidStepSize),
            step_size@ > 0 && !old(self).sim.step_fits(step_size@) ==> r == Err::<(), SimError>(
                SimError::CacheExhausted,
            ),
            r is Ok <==> step_size@ > 0 && old(self).sim.step_fits(step_size@),
            r is Err ==> final(self).tree == old(self).tree && final(self).cache == old(self).cache
                && final(self).generations@ == old(self).generations@,
            r is Ok ==> final(self).generations@ == old(self).generations@ + step_size@,
            r is Ok ==> final(self).tree.centre(&final(self).cache) == old(self).tree.centre(
                &old(self).cache,
            ) && final(self).tree.is_shrunk(&final(self).cache),
            r is Ok ==> old(self).sim.left_out_is_empty(
                &old(self).tree,
                &old(self).cache,
                &final(self).tree,
                &final(self).cache,
                step_size@,
            ),
            r is Ok && !old(self).sim.b0 && old(self).tree.population_of(&old(self).cache) == 0
                ==> final(self).cache.only_empty_added(&old(self).cache),
            r is Ok ==> forall|p: Seq<int>|
                p.len() == D && #[trigger] final(self).tree.contains(&final(self).cache, p)
                    ==> final(self).tree.cell(&final(self).cache, p) == evolve(
                    &old(self).sim.rule,
                    old(self).grid(),
                    step_size@ as nat,
                )(p),
            r is Ok && !old(self).sim.b0 ==> forall|p: Seq<int>|
                p.len() == D ==> #[trigger] final(self).tree.cell(&final(self).cache, p) == evolve(
                    &old(self).sim.rule,
                    old(self).grid(),
                    step_size@ as nat,
                )(p),
    {
        let r = self.sim.step_with_memo(&mut self.tree, &mut self.cache, step_size);
        if r.is_ok() {
            self.generations = self.generations.add(step_size);
        }
        r
    }
}

} // verus!
