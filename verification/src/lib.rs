//! A weighted-fair run queue: runnable processes are kept in a red-black tree
//! ordered by virtual runtime, threaded through the process records themselves.
//!
//! The records of the process table double as tree nodes: each carries a
//! color and three links, which are slot numbers in the table. The handle on
//! the tree, [`tree::RedBlackTree`], holds the root, the books (node count,
//! weight total, cached minimum, period) and the guard. Its view is the
//! [`shape::Shape`] that the links spell out, and every contract is stated
//! over that shape and the table.
//!
//! - [`insert::insert_process`] puts a process on the queue.
//! - [`lookup::get_minimum_vruntime_proc`] finds the process to run next.
//! - [`lookup::is_queued`] tells whether a record is on the queue.
//! - [`rebalance`] and [`rotate`] hold the steps that keep the tree balanced,
//!   [`walk`] what the rebalancing comes to, and [`mending`] why it is sound.
//! - [`laws`] states what holds of every sound queue.

pub mod process;
pub mod spinlock;
pub mod shape;
pub mod invariants;
pub mod tree;
pub mod planting;
pub mod order;
pub mod rotate;
pub mod mending;
pub mod walk;
pub mod rebalance;
pub mod lookup;
pub mod insert;
pub mod laws;
