//! A game-tree solver kernel for extensive-form imperfect-information games.
//!
//! The crate materializes a full game tree into a dense arena and runs
//! counterfactual regret minimization (CFR) over that tree.  Node storage is
//! index-based: a `NodePtr` is an offset into the arena's node table, and the
//! arena keeps an exact byte account of the dense layout so that a tree's
//! memory footprint can be predicted before allocation.

pub mod allocator;
pub mod arena;
pub mod cfr;
pub mod estimator;
pub mod game;
pub mod kuhn;
pub mod math;
pub mod node;
pub mod poker;
pub mod rng;
pub mod volatile;
