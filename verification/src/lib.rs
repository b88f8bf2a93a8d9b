//! Verified solvers for a set of small daily text puzzles. The heart of the
//! crate is a sparse directory-tree model built from a replayed shell
//! session (`directory`, `traversal`, `commands`), with proofs that merging
//! listings is order-independent, that lazily created stubs are harmless,
//! and that traversal visits every node once, parents first (`laws`).
//! Beside it stand the smaller verified helpers the other puzzles use:
//! round scoring (`strategy`), item priorities (`rucksack`), range
//! comparisons (`cleanup`), and distinct-window scanning (`signal`).

pub mod cleanup;
pub mod commands;
pub mod directory;
pub mod laws;
pub mod rucksack;
pub mod signal;
pub mod strategy;
pub mod text;
pub mod traversal;
