//! A HashLife engine for N-dimensional cellular automata, verified with Verus.
//!
//! The grid is stored as a hash-consed hyperoctree: [`cache::NodeCache`]
//! interns the nodes, [`node`] reads and rebuilds them, and [`gc`] copies
//! what is still wanted into a fresh cache. A tree handle,
//! [`ndtree::NdTree`], places a root node in the infinite grid. A rule,
//! [`rule::Rule`], says how a cell changes with its neighbourhood, and
//! [`evolve`] says what the grid is after any number of generations. The
//! stepper, [`sim::Simulation`], advances a tree by any number of generations
//! and is proved to compute exactly that grid; [`automaton::NdAutomaton`]
//! keeps a tree, its cache and a stepper together.
//!
//! Positions, populations and step sizes are integers of any size
//! ([`big::BigNum`], [`ndvec::BigVec`]); the arithmetic on them is done by
//! the `num` crate. [`laws`] and [`count`] state what holds of the engine as a
//! whole. [`axis`], [`ndrect`], [`face`], [`viewport`] and [`projection`] are
//! geometry for those who show a grid, and [`types`] holds the data types of
//! the rule language.

pub mod automaton;
pub mod axis;
pub mod big;
pub mod cache;
pub mod count;
pub mod evolve;
pub mod face;
pub mod gc;
pub mod index;
pub mod laws;
pub mod ndrect;
pub mod ndtree;
pub mod ndvec;
pub mod node;
pub mod projection;
pub mod region;
pub mod rule;
pub mod sim;
pub mod types;
pub mod viewport;
