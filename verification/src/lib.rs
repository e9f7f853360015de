//! Small generic algorithm building blocks: a persistent singly-linked
//! list with structural sharing, a trampoline for stack-safe recursion,
//! a 0/1-knapsack solver that reconstructs an optimal selection through
//! the persistent list, and a few free-standing utilities.

pub mod collection;
pub mod graph;
pub mod knapsack;
pub mod list;
pub mod matrix;
mod matrix_rows;
pub mod permutation;
pub mod recurse;
