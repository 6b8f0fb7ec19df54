//! The run queue itself: the handle on the tree that is threaded through the
//! process table, with its node count, weight total and cached minimum.

use vstd::prelude::*;
use crate::invariants::{
    balanced, linked, no_red_red, ordered, red, red_ok, same_payload, weight_sum,
};
use crate::process::Proc;
use crate::shape::Shape;
use crate::spinlock::Spinlock;

verus! {

/// The most processes the run queue takes.
pub const CAPACITY: i32 = 64;

/// A red-black tree over the records of a process table, keyed by virtual
/// runtime. The records hold the links; the tree holds the way in.
pub struct RedBlackTree {
    /// Number of records linked into the tree.
    pub num_of_nodes: i32,
    /// Sum of their weights. Sixty-four weights of 32 bits always fit.
    pub total_weight: i64,
    /// Slot of the root; none while the tree is empty.
    pub root: Option<usize>,
    /// Slot of the record with the least virtual runtime, kept up to date by
    /// every insertion.
    pub min_vruntime: Option<usize>,
    /// The guard of all of the above and of the links in the table.
    pub lock: Spinlock,
    /// Scheduling period from which time slices are cut by weight.
    pub period: i32,
    /// The shape that the links spell out.
    pub shape: Ghost<Shape>,
}

impl View for RedBlackTree {
    type V = Shape;

    /// The shape that the links in the process table spell out.
    open spec fn view(&self) -> Shape {
        self.shape@
    }
}

impl RedBlackTree {
    /// The tree is sound with respect to the table `procs`: the links spell
    /// out its shape, the shape is a red-black search tree with a black root,
    /// and count, weight total and cached minimum are those of the shape.
    pub open spec fn wf(&self, procs: Seq<Proc>) -> bool {
        &&& self@.distinct()
        &&& linked(procs, self@, self.root, None)
        &&& ordered(procs, self@)
        &&& balanced(procs, self@)
        &&& no_red_red(procs, self@)
        &&& (self.root matches Some(r) ==> !red(procs, r))
        &&& self.num_of_nodes == self@.size()
        &&& self.num_of_nodes <= CAPACITY
        &&& self.total_weight == weight_sum(procs, self@)
        &&& self.min_vruntime == self@.leftmost()
    }

    /// The tree is a linked, ordered and balanced search tree in which the
    /// slot `x` is red and may hang under a red parent; nothing else breaks
    /// the red-black rules, but the root may be red.
    pub open spec fn mending(&self, procs: Seq<Proc>, x: usize) -> bool {
        &&& self@.distinct()
        &&& linked(procs, self@, self.root, None)
        &&& ordered(procs, self@)
        &&& balanced(procs, self@)
        &&& red_ok(procs, self@, Some(x))
        &&& self@.slots().contains(x)
        &&& red(procs, x)
    }

    /// The tree is a linked red-black search tree over `procs`; nothing is
    /// said of its books.
    pub open spec fn settled(&self, procs: Seq<Proc>) -> bool {
        &&& self@.distinct()
        &&& linked(procs, self@, self.root, None)
        &&& ordered(procs, self@)
        &&& balanced(procs, self@)
        &&& no_red_red(procs, self@)
    }

    /// This tree over `procs` holds the same records in the same order as
    /// `before` held over `was`: only links, colors and the shape may differ,
    /// and records outside the tree are untouched.
    pub open spec fn rearranged(self, procs: Seq<Proc>, before: RedBlackTree, was: Seq<Proc>) -> bool {
        &&& self@.in_order() == before@.in_order()
        &&& self@.size() == before@.size()
        &&& self@.slots() == before@.slots()
        &&& weight_sum(procs, self@) == weight_sum(was, before@)
        &&& self.same_books(before)
        &&& procs.len() == was.len()
        &&& forall|i: usize| i < was.len() ==> same_payload(was[i as int], #[trigger] procs[i as int])
        &&& forall|i: usize|
            i < was.len() && !before@.slots().contains(i) ==> #[trigger] procs[i as int] == was[i as int]
    }

    /// Whether `other` differs from this tree at most in its root and shape.
    pub open spec fn same_books(self, other: RedBlackTree) -> bool {
        &&& self.num_of_nodes == other.num_of_nodes
        &&& self.total_weight == other.total_weight
        &&& self.min_vruntime == other.min_vruntime
        &&& self.lock == other.lock
        &&& self.period == other.period
    }

    /// An empty run queue with the given scheduling period. It is sound with
    /// respect to every process table.
    pub fn new(period: i32) -> (tree: RedBlackTree)
        ensures
            tree@ == Shape::Leaf,
            tree.num_of_nodes == 0,
            tree.total_weight == 0,
            tree.root is None,
            tree.min_vruntime is None,
            tree.period == period,
            !tree.lock.locked,
            forall|procs: Seq<Proc>| tree.wf(procs),
    {
        RedBlackTree {
            num_of_nodes: 0,
            total_weight: 0,
            root: None,
            min_vruntime: None,
            lock: Spinlock::new(),
            period,
            shape: Ghost(Shape::Leaf),
        }
    }
}

} // verus!
