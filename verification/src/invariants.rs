//! What it means for a process table to hold a red-black tree of a given
//! shape: the links agree with the shape, the keys are in search order, and
//! the colors obey the red-black rules.

use vstd::prelude::*;
use crate::process::{Proc, ProcColor};
use crate::shape::{Shape, lemma_graft_shape, lemma_node_slots, lemma_subtree};

verus! {

/// The sort key of the record in slot `i`: its virtual runtime.
pub open spec fn key(procs: Seq<Proc>, i: usize) -> int {
    procs[i as int].v_runtime as int
}

/// Whether the record in slot `i` is colored red.
pub open spec fn red(procs: Seq<Proc>, i: usize) -> bool {
    procs[i as int].node_color == ProcColor::RED
}

/// Two records that differ at most in their links and color.
pub open spec fn same_payload(a: Proc, b: Proc) -> bool {
    &&& a.pid == b.pid
    &&& a.state == b.state
    &&& a.weight == b.weight
    &&& a.v_runtime == b.v_runtime
    &&& a.niceness == b.niceness
    &&& a.current_run == b.current_run
    &&& a.max_exectime == b.max_exectime
}

/// Two records with the same three links.
pub open spec fn same_links(a: Proc, b: Proc) -> bool {
    &&& a.left_node == b.left_node
    &&& a.right_node == b.right_node
    &&& a.parent_node == b.parent_node
}

/// Two records that the red-black rules cannot tell apart: same color, key
/// and weight.
pub open spec fn same_standing(a: Proc, b: Proc) -> bool {
    &&& a.node_color == b.node_color
    &&& a.v_runtime == b.v_runtime
    &&& a.weight == b.weight
}

/// The record `a` with each child link that pointed at `s` pointing at `to`.
pub open spec fn relinked(a: Proc, s: usize, to: usize) -> Proc {
    if a.left_node == Some(s) {
        Proc { left_node: Some(to), ..a }
    } else if a.right_node == Some(s) {
        Proc { right_node: Some(to), ..a }
    } else {
        a
    }
}

/// The links in the table spell out the shape `t`: `at` points at its top,
/// whose parent link is `parent`, and so on down; absent children are `None`.
pub open spec fn linked(procs: Seq<Proc>, t: Shape, at: Option<usize>, parent: Option<usize>) -> bool
    decreases t,
{
    match t {
        Shape::Leaf => at is None,
        Shape::Node { left, slot, right } => {
            &&& at == Some(slot)
            &&& slot < procs.len()
            &&& procs[slot as int].parent_node == parent
            &&& linked(procs, *left, procs[slot as int].left_node, Some(slot))
            &&& linked(procs, *right, procs[slot as int].right_node, Some(slot))
        },
    }
}

/// Search order: no key in a left subtree is above the key over it, and no
/// key in a right subtree is below it.
pub open spec fn ordered(procs: Seq<Proc>, t: Shape) -> bool
    decreases t,
{
    match t {
        Shape::Leaf => true,
        Shape::Node { left, slot, right } => {
            &&& ordered(procs, *left)
            &&& ordered(procs, *right)
            &&& forall|i: usize| #[trigger] left.slots().contains(i) ==> key(procs, i) <= key(procs, slot)
            &&& forall|i: usize| #[trigger] right.slots().contains(i) ==> key(procs, slot) <= key(procs, i)
        },
    }
}

/// Number of black nodes on the way from the top down the left edge.
pub open spec fn black_height(procs: Seq<Proc>, t: Shape) -> nat
    decreases t,
{
    match t {
        Shape::Leaf => 0,
        Shape::Node { left, slot, right } => black_height(procs, *left) + if red(procs, slot) {
            0nat
        } else {
            1nat
        },
    }
}

/// At every node both subtrees have the same black height, so every way
/// from a node down to an absent child passes the same number of black nodes.
pub open spec fn balanced(procs: Seq<Proc>, t: Shape) -> bool
    decreases t,
{
    match t {
        Shape::Leaf => true,
        Shape::Node { left, slot, right } => {
            &&& balanced(procs, *left)
            &&& balanced(procs, *right)
            &&& black_height(procs, *left) == black_height(procs, *right)
        },
    }
}

/// The top of `c` may hang under a red node: it is absent, black, or the one
/// slot `x` that is let off.
pub open spec fn child_ok(procs: Seq<Proc>, c: Shape, x: Option<usize>) -> bool {
    c.root() matches Some(r) ==> !red(procs, r) || x == Some(r)
}

/// No red node has a red child, but that slot `x` may be red under a red parent.
pub open spec fn red_ok(procs: Seq<Proc>, t: Shape, x: Option<usize>) -> bool
    decreases t,
{
    match t {
        Shape::Leaf => true,
        Shape::Node { left, slot, right } => {
            &&& red_ok(procs, *left, x)
            &&& red_ok(procs, *right, x)
            &&& red(procs, slot) ==> child_ok(procs, *left, x) && child_ok(procs, *right, x)
        },
    }
}

/// No red node has a red child.
pub open spec fn no_red_red(procs: Seq<Proc>, t: Shape) -> bool {
    red_ok(procs, t, None)
}

/// Sum of the weights of the records in the tree.
pub open spec fn weight_sum(procs: Seq<Proc>, t: Shape) -> int
    decreases t,
{
    match t {
        Shape::Leaf => 0,
        Shape::Node { left, slot, right } => weight_sum(procs, *left) + procs[slot as int].weight
            + weight_sum(procs, *right),
    }
}

/// A linked tree starts where its shape starts and stays inside the table.
pub proof fn lemma_linked_range(procs: Seq<Proc>, t: Shape, at: Option<usize>, parent: Option<usize>)
    requires
        linked(procs, t, at, parent),
    ensures
        at == t.root(),
        forall|i: usize| #[trigger] t.slots().contains(i) ==> i < procs.len(),
    decreases t,
{
    match t {
        Shape::Leaf => {},
        Shape::Node { left, slot, right } => {
            lemma_node_slots(t);
            lemma_linked_range(procs, *left, procs[slot as int].left_node, Some(slot));
            lemma_linked_range(procs, *right, procs[slot as int].right_node, Some(slot));
        },
    }
}

/// A tree stays linked when no link of its own records changes.
pub proof fn lemma_linked_frame(
    was: Seq<Proc>,
    now: Seq<Proc>,
    t: Shape,
    at: Option<usize>,
    parent: Option<usize>,
)
    requires
        linked(was, t, at, parent),
        now.len() == was.len(),
        forall|i: usize| #[trigger] t.slots().contains(i) ==> same_links(was[i as int], now[i as int]),
    ensures
        linked(now, t, at, parent),
    decreases t,
{
    match t {
        Shape::Leaf => {},
        Shape::Node { left, slot, right } => {
            lemma_node_slots(t);
            lemma_linked_frame(was, now, *left, was[slot as int].left_node, Some(slot));
            lemma_linked_frame(was, now, *right, was[slot as int].right_node, Some(slot));
        },
    }
}

/// Order, balance, colors and weight of a tree depend only on the color, key
/// and weight of its own records; and a let-off for a slot outside the tree
/// may be exchanged for any other.
pub proof fn lemma_color_frame(
    was: Seq<Proc>,
    now: Seq<Proc>,
    t: Shape,
    x0: Option<usize>,
    x1: Option<usize>,
)
    requires
        forall|i: usize| #[trigger] t.slots().contains(i) ==> same_standing(was[i as int], now[i as int]),
        x0 matches Some(x) ==> !t.slots().contains(x) || x1 == x0,
    ensures
        black_height(now, t) == black_height(was, t),
        balanced(was, t) ==> balanced(now, t),
        ordered(was, t) ==> ordered(now, t),
        red_ok(was, t, x0) ==> red_ok(now, t, x1),
        weight_sum(now, t) == weight_sum(was, t),
    decreases t,
{
    match t {
        Shape::Leaf => {},
        Shape::Node { left, slot, right } => {
            lemma_node_slots(t);
            lemma_color_frame(was, now, *left, x0, x1);
            lemma_color_frame(was, now, *right, x0, x1);
            if left.root() is Some {
                assert(t.slots().contains(left.root()->0));
            }
            if right.root() is Some {
                assert(t.slots().contains(right.root()->0));
            }
        },
    }
}

/// In a linked tree the record of every slot carries the links that the shape
/// gives it, and the subtree under it is linked in its own right.
pub proof fn lemma_linked_subtree(
    procs: Seq<Proc>,
    t: Shape,
    at: Option<usize>,
    parent: Option<usize>,
    s: usize,
)
    requires
        t.distinct(),
        linked(procs, t, at, parent),
        t.slots().contains(s),
    ensures
        s < procs.len(),
        linked(procs, t.subtree(s), Some(s), procs[s as int].parent_node),
        procs[s as int].left_node == t.subtree(s).lt().root(),
        procs[s as int].right_node == t.subtree(s).rt().root(),
        procs[s as int].parent_node == (if t.root() == Some(s) {
            parent
        } else {
            t.parent_of(s)
        }),
    decreases t,
{
    match t {
        Shape::Leaf => {},
        Shape::Node { left, slot, right } => {
            lemma_linked_range(procs, *left, procs[slot as int].left_node, Some(slot));
            lemma_linked_range(procs, *right, procs[slot as int].right_node, Some(slot));
            if slot == s {
            } else if left.slots().contains(s) {
                lemma_linked_subtree(procs, *left, procs[slot as int].left_node, Some(slot), s);
            } else {
                lemma_linked_subtree(procs, *right, procs[slot as int].right_node, Some(slot), s);
            }
        },
    }
}

/// What holds of a tree holds of each of its subtrees.
pub proof fn lemma_subtree_colors(procs: Seq<Proc>, t: Shape, s: usize, x: Option<usize>)
    ensures
        balanced(procs, t) ==> balanced(procs, t.subtree(s)),
        ordered(procs, t) ==> ordered(procs, t.subtree(s)),
        red_ok(procs, t, x) ==> red_ok(procs, t.subtree(s), x),
    decreases t,
{
    match t {
        Shape::Leaf => {},
        Shape::Node { left, slot, right } => {
            if slot == s {
            } else if left.slots().contains(s) {
                lemma_subtree_colors(procs, *left, s, x);
            } else {
                lemma_subtree_colors(procs, *right, s, x);
            }
        },
    }
}

/// Replacing a linked subtree by another linked tree over the same slots
/// leaves the whole linked, provided the record above the subtree now points
/// at the new top and no other record outside the subtree changed.
pub proof fn lemma_graft_linked(
    was: Seq<Proc>,
    now: Seq<Proc>,
    t: Shape,
    at: Option<usize>,
    parent: Option<usize>,
    s: usize,
    n: Shape,
)
    requires
        t.distinct(),
        linked(was, t, at, parent),
        t.slots().contains(s),
        n is Node,
        n.slots() == t.subtree(s).slots(),
        now.len() == was.len(),
        linked(now, n, n.root(), was[s as int].parent_node),
        forall|i: usize|
            i < was.len() && !t.subtree(s).slots().contains(i) ==> now[i as int] == (if was[s as int].parent_node
                == Some(i) {
                relinked(was[i as int], s, n.root()->0)
            } else {
                was[i as int]
            }),
    ensures
        linked(
            now,
            t.graft(s, n),
            if at == Some(s) {
                n.root()
            } else {
                at
            },
            parent,
        ),
    decreases t,
{
    match t {
        Shape::Leaf => {},
        Shape::Node { left, slot, right } => {
            lemma_linked_range(was, *left, was[slot as int].left_node, Some(slot));
            lemma_linked_range(was, *right, was[slot as int].right_node, Some(slot));
            if slot == s {
            } else if left.slots().contains(s) {
                lemma_subtree(*left, s);
                lemma_linked_subtree(was, *left, was[slot as int].left_node, Some(slot), s);
                lemma_graft_linked(was, now, *left, was[slot as int].left_node, Some(slot), s, n);
                lemma_linked_frame(was, now, *right, was[slot as int].right_node, Some(slot));
            } else {
                lemma_subtree(*right, s);
                lemma_linked_subtree(was, *right, was[slot as int].right_node, Some(slot), s);
                lemma_graft_linked(was, now, *right, was[slot as int].right_node, Some(slot), s, n);
                lemma_linked_frame(was, now, *left, was[slot as int].left_node, Some(slot));
            }
        },
    }
}

/// Replacing a subtree by another one over the same slots, with the same
/// black height and weight, keeps the whole in order, balanced and free of
/// red-red pairs (but for the slot let off), provided nothing changed outside
/// the subtree and the new top may hang where the old one hung.
pub proof fn lemma_graft_colors(
    was: Seq<Proc>,
    now: Seq<Proc>,
    t: Shape,
    s: usize,
    n: Shape,
    x0: Option<usize>,
    x1: Option<usize>,
)
    requires
        t.distinct(),
        t.slots().contains(s),
        n is Node,
        n.slots() == t.subtree(s).slots(),
        forall|i: usize|
            #[trigger] t.slots().contains(i) && !t.subtree(s).slots().contains(i) ==> same_standing(
                was[i as int],
                now[i as int],
            ),
        forall|i: usize| #[trigger] t.slots().contains(i) ==> key(now, i) == key(was, i),
        balanced(was, t),
        red_ok(was, t, x0),
        ordered(was, t),
        x0 matches Some(x) ==> t.subtree(s).slots().contains(x) && x != s,
        balanced(now, n),
        black_height(now, n) == black_height(was, t.subtree(s)),
        red_ok(now, n, x1),
        ordered(now, n),
        weight_sum(now, n) == weight_sum(was, t.subtree(s)),
        x1 matches Some(y) ==> n.slots().contains(y),
        (t.parent_of(s) matches Some(w) && red(was, w)) ==> child_ok(now, n, x1),
    ensures
        balanced(now, t.graft(s, n)),
        black_height(now, t.graft(s, n)) == black_height(was, t),
        red_ok(now, t.graft(s, n), x1),
        ordered(now, t.graft(s, n)),
        weight_sum(now, t.graft(s, n)) == weight_sum(was, t),
    decreases t,
{
    match t {
        Shape::Leaf => {},
        Shape::Node { left, slot, right } => {
            lemma_node_slots(t);
            if slot == s {
            } else if left.slots().contains(s) {
                lemma_subtree(*left, s);
                lemma_graft_shape(*left, s, n);
                lemma_graft_colors(was, now, *left, s, n, x0, x1);
                lemma_color_frame(was, now, *right, x0, x1);
                if right.root() is Some {
                    assert(right.slots().contains(right.root()->0));
                }
                if left.root() is Some {
                    assert(left.slots().contains(left.root()->0));
                }
            } else {
                lemma_subtree(*right, s);
                lemma_graft_shape(*right, s, n);
                lemma_graft_colors(was, now, *right, s, n, x0, x1);
                lemma_color_frame(was, now, *left, x0, x1);
                if right.root() is Some {
                    assert(right.slots().contains(right.root()->0));
                }
                if left.root() is Some {
                    assert(left.slots().contains(left.root()->0));
                }
            }
        },
    }
}

/// A record whose parent link points at `w` hangs under `w` in the shape, on
/// the side whose link points back at it.
pub proof fn lemma_child(procs: Seq<Proc>, t: Shape, root: Option<usize>, c: usize, w: usize)
    requires
        t.distinct(),
        linked(procs, t, root, None),
        t.slots().contains(c),
        procs[c as int].parent_node == Some(w),
    ensures
        t.slots().contains(w),
        w != c,
        w < procs.len(),
        t.parent_of(c) == Some(w),
        t.subtree(w).root() == Some(w),
        t.subtree(c).root() == Some(c),
        t.subtree(c).size() < t.subtree(w).size(),
        t.subtree(w).size() <= t.size(),
        procs[w as int].left_node == t.subtree(w).lt().root(),
        procs[w as int].right_node == t.subtree(w).rt().root(),
        procs[w as int].left_node == Some(c) || procs[w as int].right_node == Some(c),
        procs[w as int].left_node == Some(c) ==> t.subtree(w).lt() == t.subtree(c),
        procs[w as int].right_node == Some(c) ==> t.subtree(w).rt() == t.subtree(c),
        t.subtree(w).lt() != t.subtree(w).rt(),
{
    lemma_subtree(t, c);
    lemma_linked_subtree(procs, t, root, None, c);
    lemma_subtree(t, w);
    lemma_linked_subtree(procs, t, root, None, w);
    lemma_node_slots(t.subtree(c));
}

/// The let-off for a slot plays no part in the tree that has this slot at
/// its top.
pub proof fn lemma_red_ok_top(procs: Seq<Proc>, t: Shape, x: usize)
    requires
        t.distinct(),
        t.root() == Some(x),
        red_ok(procs, t, Some(x)),
    ensures
        red_ok(procs, t, None),
{
    lemma_color_frame(procs, procs, t.lt(), Some(x), None);
    lemma_color_frame(procs, procs, t.rt(), Some(x), None);
}

} // verus!
