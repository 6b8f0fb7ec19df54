//! The abstract shape of a tree: which slot sits where. Colors, keys and
//! weights are looked up in the process table; the shape only says how the
//! slots hang together.

use vstd::prelude::*;

verus! {

/// A binary tree of process-table slots.
pub enum Shape {
    Leaf,
    Node { left: Box<Shape>, slot: usize, right: Box<Shape> },
}

/// The tree with `v` at the top, `l` below it on the left and `r` on the right.
pub open spec fn node(l: Shape, v: usize, r: Shape) -> Shape {
    Shape::Node { left: Box::new(l), slot: v, right: Box::new(r) }
}

impl Shape {
    /// The slot at the top, if there is one.
    pub open spec fn root(self) -> Option<usize> {
        match self {
            Shape::Leaf => None,
            Shape::Node { slot, .. } => Some(slot),
        }
    }

    /// The left subtree; a leaf has none.
    pub open spec fn lt(self) -> Shape {
        match self {
            Shape::Leaf => Shape::Leaf,
            Shape::Node { left, .. } => *left,
        }
    }

    /// The right subtree; a leaf has none.
    pub open spec fn rt(self) -> Shape {
        match self {
            Shape::Leaf => Shape::Leaf,
            Shape::Node { right, .. } => *right,
        }
    }

    /// All slots that occur in the tree.
    pub open spec fn slots(self) -> Set<usize>
        decreases self,
    {
        match self {
            Shape::Leaf => Set::empty(),
            Shape::Node { left, slot, right } => left.slots().union(right.slots()).insert(slot),
        }
    }

    /// The slots from left to right.
    pub open spec fn in_order(self) -> Seq<usize>
        decreases self,
    {
        match self {
            Shape::Leaf => Seq::empty(),
            Shape::Node { left, slot, right } => left.in_order().push(slot) + right.in_order(),
        }
    }

    /// Number of nodes.
    pub open spec fn size(self) -> nat
        decreases self,
    {
        match self {
            Shape::Leaf => 0,
            Shape::Node { left, slot, right } => left.size() + 1 + right.size(),
        }
    }

    /// Number of nodes on the longest way down.
    pub open spec fn height(self) -> nat
        decreases self,
    {
        match self {
            Shape::Leaf => 0,
            Shape::Node { left, slot, right } => if left.height() >= right.height() {
                left.height() + 1
            } else {
                right.height() + 1
            },
        }
    }

    /// No slot occurs twice.
    pub open spec fn distinct(self) -> bool
        decreases self,
    {
        match self {
            Shape::Leaf => true,
            Shape::Node { left, slot, right } => {
                &&& left.distinct()
                &&& right.distinct()
                &&& !left.slots().contains(slot)
                &&& !right.slots().contains(slot)
                &&& left.slots().disjoint(right.slots())
            },
        }
    }

    /// The slot reached by going left as long as possible.
    pub open spec fn leftmost(self) -> Option<usize>
        decreases self,
    {
        match self {
            Shape::Leaf => None,
            Shape::Node { left, slot, right } => if *left is Leaf {
                Some(slot)
            } else {
                left.leftmost()
            },
        }
    }

    /// The subtree with `s` at its top; a leaf where `s` does not occur.
    pub open spec fn subtree(self, s: usize) -> Shape
        decreases self,
    {
        match self {
            Shape::Leaf => Shape::Leaf,
            Shape::Node { left, slot, right } => if slot == s {
                self
            } else if left.slots().contains(s) {
                left.subtree(s)
            } else {
                right.subtree(s)
            },
        }
    }

    /// The tree with the subtree under `s` taken out and `n` put in its place.
    pub open spec fn graft(self, s: usize, n: Shape) -> Shape
        decreases self,
    {
        match self {
            Shape::Leaf => Shape::Leaf,
            Shape::Node { left, slot, right } => if slot == s {
                n
            } else if left.slots().contains(s) {
                node(left.graft(s, n), slot, *right)
            } else {
                node(*left, slot, right.graft(s, n))
            },
        }
    }

    /// The other child of the parent of `s`, if `s` has a parent and that
    /// parent a second child.
    pub open spec fn sibling_of(self, s: usize) -> Option<usize> {
        match self.parent_of(s) {
            None => None,
            Some(w) => if self.subtree(w).lt().root() == Some(s) {
                self.subtree(w).rt().root()
            } else {
                self.subtree(w).lt().root()
            },
        }
    }

    /// The sibling of the parent of `s`.
    pub open spec fn uncle_of(self, s: usize) -> Option<usize> {
        match self.parent_of(s) {
            None => None,
            Some(p) => self.sibling_of(p),
        }
    }

    /// The tree after a left rotation about its top: the right child comes up,
    /// the old top goes down to its left and takes over its left subtree.
    pub open spec fn turned_left(self) -> Shape {
        node(
            node(self.lt(), self.root()->0, self.rt().lt()),
            self.rt().root()->0,
            self.rt().rt(),
        )
    }

    /// The tree after a right rotation about its top: the left child comes up,
    /// the old top goes down to its right and takes over its right subtree.
    pub open spec fn turned_right(self) -> Shape {
        node(
            self.lt().lt(),
            self.lt().root()->0,
            node(self.lt().rt(), self.root()->0, self.rt()),
        )
    }

    /// The slot directly above `s`; none for the top and for a slot that does
    /// not occur.
    pub open spec fn parent_of(self, s: usize) -> Option<usize>
        decreases self,
    {
        match self {
            Shape::Leaf => None,
            Shape::Node { left, slot, right } => if slot == s {
                None
            } else if left.slots().contains(s) {
                if left.root() == Some(s) {
                    Some(slot)
                } else {
                    left.parent_of(s)
                }
            } else if right.root() == Some(s) {
                Some(slot)
            } else {
                right.parent_of(s)
            },
        }
    }
}

/// The slots of a node are its own slot and those of its two subtrees.
pub proof fn lemma_node_slots(t: Shape)
    requires
        t is Node,
    ensures
        t.slots() == t.lt().slots().union(t.rt().slots()).insert(t.root()->0),
        t.slots().contains(t.root()->0),
        forall|i: usize| #[trigger] t.lt().slots().contains(i) ==> t.slots().contains(i),
        forall|i: usize| #[trigger] t.rt().slots().contains(i) ==> t.slots().contains(i),
        forall|i: usize| #[trigger]
            t.slots().contains(i) ==> i == t.root()->0 || t.lt().slots().contains(i) || t.rt().slots().contains(i),
{
}

/// A left rotation keeps the slots, their order and their number.
pub proof fn lemma_turned_left(t: Shape)
    requires
        t is Node,
        t.rt() is Node,
        t.distinct(),
    ensures
        t.turned_left().slots() == t.slots(),
        t.turned_left().in_order() == t.in_order(),
        t.turned_left().size() == t.size(),
        t.turned_left().distinct(),
{
    lemma_node_slots(t.turned_left().lt());
    let n = t.turned_left();
    assert(t.rt().distinct());
    assert(n.lt().distinct());
    assert(t.rt().size() == t.rt().lt().size() + 1 + t.rt().rt().size());
    assert(n.size() == n.lt().size() + 1 + t.rt().rt().size());
    assert(t.rt().in_order() == t.rt().lt().in_order().push(t.rt().root()->0) + t.rt().rt().in_order());
    assert(n.in_order() == n.lt().in_order().push(t.rt().root()->0) + t.rt().rt().in_order());
}

/// A right rotation keeps the slots, their order and their number.
pub proof fn lemma_turned_right(t: Shape)
    requires
        t is Node,
        t.lt() is Node,
        t.distinct(),
    ensures
        t.turned_right().slots() == t.slots(),
        t.turned_right().in_order() == t.in_order(),
        t.turned_right().size() == t.size(),
        t.turned_right().distinct(),
{
    lemma_node_slots(t.turned_right().rt());
    let n = t.turned_right();
    assert(t.lt().distinct());
    assert(n.rt().distinct());
    assert(t.lt().size() == t.lt().lt().size() + 1 + t.lt().rt().size());
    assert(n.size() == t.lt().lt().size() + 1 + n.rt().size());
    assert(t.lt().in_order() == t.lt().lt().in_order().push(t.lt().root()->0) + t.lt().rt().in_order());
    assert(n.in_order() == t.lt().lt().in_order().push(t.lt().root()->0) + n.rt().in_order());
}

/// Where a slot occurs, its subtree is a proper tree of the same kind, and
/// the slot is either the top or hangs under its parent on one side.
pub proof fn lemma_subtree(t: Shape, s: usize)
    requires
        t.distinct(),
        t.slots().contains(s),
    ensures
        t.subtree(s).root() == Some(s),
        t.subtree(s).distinct(),
        t.subtree(s).slots().subset_of(t.slots()),
        t.subtree(s).size() <= t.size(),
        t.root() == Some(s) ==> t.subtree(s) == t && t.parent_of(s) is None,
        t.root() matches Some(r) ==> r == s || !t.subtree(s).slots().contains(r),
        t.root() != Some(s) ==> ({
            &&& t.parent_of(s) matches Some(w)
            &&& t.slots().contains(w)
            &&& w != s
            &&& !t.subtree(s).slots().contains(w)
            &&& t.subtree(w).root() == Some(w)
            &&& (t.subtree(w).lt() == t.subtree(s) || t.subtree(w).rt() == t.subtree(s))
            &&& t.subtree(s).size() < t.subtree(w).size()
        }),
    decreases t,
{
    match t {
        Shape::Leaf => {},
        Shape::Node { left, slot, right } => {
            if slot == s {
            } else if left.slots().contains(s) {
                lemma_subtree(*left, s);
            } else {
                lemma_subtree(*right, s);
            }
        },
    }
}

/// Putting a subtree back where it was taken from changes nothing.
pub proof fn lemma_graft_self(t: Shape, s: usize)
    requires
        t.slots().contains(s),
    ensures
        t.graft(s, t.subtree(s)) == t,
    decreases t,
{
    match t {
        Shape::Leaf => {},
        Shape::Node { left, slot, right } => {
            if slot == s {
            } else if left.slots().contains(s) {
                lemma_graft_self(*left, s);
            } else {
                lemma_graft_self(*right, s);
            }
        },
    }
}

/// Replacing a subtree by another one over the same slots leaves the slots of
/// the whole as they were, and the new subtree is found under its own top.
/// Where the new subtree lists its slots in the same order, so does the whole.
pub proof fn lemma_graft_shape(t: Shape, s: usize, n: Shape)
    requires
        t.distinct(),
        t.slots().contains(s),
        n is Node,
        n.slots() == t.subtree(s).slots(),
    ensures
        t.graft(s, n).slots() == t.slots(),
        t.graft(s, n).root() == (if t.root() == Some(s) {
            n.root()
        } else {
            t.root()
        }),
        n.distinct() ==> t.graft(s, n).distinct() && t.graft(s, n).subtree(n.root()->0) == n,
        n.in_order() == t.subtree(s).in_order() ==> t.graft(s, n).in_order() == t.in_order(),
        n.size() == t.subtree(s).size() ==> t.graft(s, n).size() == t.size(),
    decreases t,
{
    match t {
        Shape::Leaf => {},
        Shape::Node { left, slot, right } => {
            if slot == s {
            } else if left.slots().contains(s) {
                lemma_subtree(*left, s);
                lemma_graft_shape(*left, s, n);
            } else {
                lemma_subtree(*right, s);
                lemma_graft_shape(*right, s, n);
            }
        },
    }
}

} // verus!
