//! Rotations: exchanging a node with one of its children, in the table and
//! in the shape.

use vstd::prelude::*;
use crate::invariants::{
    lemma_graft_linked, lemma_linked_frame, lemma_linked_range, lemma_linked_subtree, linked,
    relinked, same_payload,
};
use crate::process::{set_left, set_parent, set_right, Proc};
use crate::shape::{
    lemma_graft_shape, lemma_node_slots, lemma_subtree, lemma_turned_left, lemma_turned_right,
    Shape,
};
use crate::tree::RedBlackTree;

verus! {

/// What a left rotation about `pivot` does to the table, `r` being the right
/// child of `pivot`: `pivot` takes over the left subtree of `r` and goes
/// under `r`, `r` goes under the former parent of `pivot`, and that parent
/// points at `r` where it pointed at `pivot`. Nothing else changes.
pub open spec fn turned_left_table(was: Seq<Proc>, now: Seq<Proc>, pivot: usize, r: usize) -> bool {
    let inner = was[r as int].left_node;
    let up = was[pivot as int].parent_node;
    &&& now.len() == was.len()
    &&& now[pivot as int] == (Proc { right_node: inner, parent_node: Some(r), ..was[pivot as int] })
    &&& now[r as int] == (Proc { left_node: Some(pivot), parent_node: up, ..was[r as int] })
    &&& forall|i: usize|
        i < was.len() && i != pivot && i != r ==> #[trigger] now[i as int] == (if inner == Some(i) {
            Proc { parent_node: Some(pivot), ..was[i as int] }
        } else if up == Some(i) {
            relinked(was[i as int], pivot, r)
        } else {
            was[i as int]
        })
}

/// The table after the writes of a left rotation about `pivot`, one after the
/// other: first `pivot` and its right child `r`, then the top of the subtree
/// that changes hands, then the record above.
spec fn left_turn_writes(was: Seq<Proc>, pivot: usize, r: usize) -> Seq<Proc> {
    let inner = was[r as int].left_node;
    let up = was[pivot as int].parent_node;
    let first = was.update(
        pivot as int,
        (Proc { right_node: inner, parent_node: Some(r), ..was[pivot as int] }),
    ).update(r as int, (Proc { left_node: Some(pivot), parent_node: up, ..was[r as int] }));
    let second = match inner {
        Some(bi) => first.update(bi as int, (Proc { parent_node: Some(pivot), ..first[bi as int] })),
        None => first,
    };
    match up {
        Some(u) => second.update(u as int, relinked(second[u as int], pivot, r)),
        None => second,
    }
}

/// The writes of a left rotation, done one after the other on different
/// records, add up to what a left rotation does to the table.
proof fn lemma_left_turn_writes(was: Seq<Proc>, pivot: usize, r: usize)
    requires
        pivot < was.len(),
        r < was.len(),
        r != pivot,
        was[r as int].left_node matches Some(bi) ==> bi < was.len() && bi != pivot && bi != r,
        was[pivot as int].parent_node matches Some(u) ==> u < was.len() && u != pivot && u != r
            && was[r as int].left_node != Some(u),
    ensures
        turned_left_table(was, left_turn_writes(was, pivot, r), pivot, r),
{
}

/// The records that a left rotation about `pivot` touches are all in the
/// table and are different records.
pub proof fn lemma_left_parties(was: Seq<Proc>, t: Shape, root: Option<usize>, pivot: usize)
    requires
        t.distinct(),
        linked(was, t, root, None),
        t.slots().contains(pivot),
        t.subtree(pivot).rt() is Node,
    ensures
        pivot < was.len(),
        was[pivot as int].right_node == t.subtree(pivot).rt().root(),
        was[pivot as int].right_node matches Some(r) && r < was.len() && r != pivot && was[r as int].left_node
            == t.subtree(pivot).rt().lt().root() && (was[r as int].left_node matches Some(bi) ==> bi
            < was.len() && bi != pivot && bi != r) && (was[pivot as int].parent_node matches Some(u) ==> u
            < was.len() && u != pivot && u != r && was[r as int].left_node != Some(u)),
        (was[pivot as int].parent_node is None) == (root == Some(pivot)),
        was[pivot as int].parent_node matches Some(u) ==> t.slots().contains(u) && !t.subtree(
            pivot,
        ).slots().contains(u) && (was[u as int].left_node == Some(pivot) || was[u as int].right_node
            == Some(pivot)),
{
    let sub = t.subtree(pivot);
    let b = sub.rt().lt();
    lemma_subtree(t, pivot);
    lemma_linked_subtree(was, t, root, None, pivot);
    let r = sub.rt().root()->0;
    assert(linked(was, sub.rt(), Some(r), Some(pivot)));
    assert(linked(was, b, was[r as int].left_node, Some(r)));
    if t.root() != Some(pivot) {
        let u = t.parent_of(pivot)->0;
        lemma_subtree(t, u);
        lemma_linked_subtree(was, t, root, None, u);
    }
}

/// After a left rotation about `pivot` the table is linked as the shape with
/// the subtree under `pivot` turned left.
pub proof fn lemma_rotate_left_linked(
    was: Seq<Proc>,
    now: Seq<Proc>,
    t: Shape,
    root: Option<usize>,
    pivot: usize,
)
    requires
        t.distinct(),
        linked(was, t, root, None),
        t.slots().contains(pivot),
        t.subtree(pivot).rt() is Node,
        turned_left_table(was, now, pivot, t.subtree(pivot).rt().root()->0),
    ensures
        linked(
            now,
            t.graft(pivot, t.subtree(pivot).turned_left()),
            if root == Some(pivot) {
                t.subtree(pivot).rt().root()
            } else {
                root
            },
            None,
        ),
        forall|i: usize|
            i < was.len() && !t.slots().contains(i) ==> #[trigger] now[i as int] == was[i as int],
        forall|i: usize|
            i < was.len() ==> same_payload(was[i as int], #[trigger] now[i as int]) && now[i as int].node_color
                == was[i as int].node_color,
        t.graft(pivot, t.subtree(pivot).turned_left()).distinct(),
        t.graft(pivot, t.subtree(pivot).turned_left()).slots() == t.slots(),
        t.graft(pivot, t.subtree(pivot).turned_left()).in_order() == t.in_order(),
        t.graft(pivot, t.subtree(pivot).turned_left()).size() == t.size(),
        t.graft(pivot, t.subtree(pivot).turned_left()).subtree(t.subtree(pivot).rt().root()->0)
            == t.subtree(pivot).turned_left(),
{
    let sub = t.subtree(pivot);
    let a = sub.lt();
    let b = sub.rt().lt();
    let c = sub.rt().rt();
    let n = sub.turned_left();
    let r = sub.rt().root()->0;
    lemma_subtree(t, pivot);
    lemma_linked_subtree(was, t, root, None, pivot);
    lemma_linked_range(was, t, root, None);
    lemma_node_slots(sub);
    lemma_node_slots(sub.rt());
    lemma_turned_left(sub);
    assert(sub.rt().distinct());
    assert(linked(was, sub.rt(), Some(r), Some(pivot)));
    assert(linked(was, b, was[r as int].left_node, Some(r)));
    lemma_linked_frame(was, now, a, was[pivot as int].left_node, Some(pivot));
    lemma_linked_frame(was, now, c, was[r as int].right_node, Some(r));
    if b is Node {
        let bi = b.root()->0;
        lemma_node_slots(b);
        assert(b.distinct());
        lemma_linked_frame(was, now, b.lt(), was[bi as int].left_node, Some(bi));
        lemma_linked_frame(was, now, b.rt(), was[bi as int].right_node, Some(bi));
    }
    assert(linked(now, b, now[pivot as int].right_node, Some(pivot)));
    assert(linked(now, n.lt(), Some(pivot), Some(r)));
    lemma_graft_linked(was, now, t, root, None, pivot, n);
    lemma_graft_shape(t, pivot, n);
}

/// Rotates left about `pivot`: its right child takes its place, `pivot`
/// becomes that child's left child and takes over the child's former left
/// subtree. The parent links of all three are set, and the record above (or
/// the root of the tree) is pointed at the new top. No color changes.
/// The caller holds the guard of the tree.
pub fn rotate_left(tree: &mut RedBlackTree, procs: &mut Vec<Proc>, pivot: usize)
    requires
        old(tree).lock.locked,
        old(tree)@.distinct(),
        linked(old(procs)@, old(tree)@, old(tree).root, None),
        old(tree)@.slots().contains(pivot),
        old(tree)@.subtree(pivot).rt() is Node,
    ensures
        final(tree)@ == old(tree)@.graft(pivot, old(tree)@.subtree(pivot).turned_left()),
        final(tree)@.distinct(),
        linked(final(procs)@, final(tree)@, final(tree).root, None),
        final(tree)@.slots() == old(tree)@.slots(),
        final(tree)@.in_order() == old(tree)@.in_order(),
        final(tree)@.size() == old(tree)@.size(),
        final(tree)@.subtree(old(tree)@.subtree(pivot).rt().root()->0) == old(tree)@.subtree(
            pivot,
        ).turned_left(),
        (*final(tree)).same_books(*old(tree)),
        turned_left_table(old(procs)@, final(procs)@, pivot, old(tree)@.subtree(pivot).rt().root()->0),
        final(procs)@.len() == old(procs)@.len(),
        forall|i: usize|
            i < old(procs)@.len() ==> same_payload(old(procs)@[i as int], #[trigger] final(procs)@[i as int])
                && final(procs)@[i as int].node_color == old(procs)@[i as int].node_color,
        forall|i: usize|
            i < old(procs)@.len() && !old(tree)@.slots().contains(i) ==> #[trigger] final(procs)@[i as int]
                == old(procs)@[i as int],
{
    let ghost t = tree@;
    let ghost was = procs@;
    proof {
        lemma_left_parties(was, t, tree.root, pivot);
    }
    let r = procs[pivot].right_node.unwrap();
    let inner = procs[r].left_node;
    let up = procs[pivot].parent_node;
    let pivot_was = procs[pivot];
    let child_was = procs[r];
    procs[pivot] = Proc { right_node: inner, parent_node: Some(r), ..pivot_was };
    procs[r] = Proc { left_node: Some(pivot), parent_node: up, ..child_was };
    if let Some(bi) = inner {
        set_parent(procs, bi, Some(pivot));
    }
    match up {
        None => {
            tree.root = Some(r);
        },
        Some(u) => {
            if procs[u].left_node == Some(pivot) {
                set_left(procs, u, Some(r));
            } else {
                set_right(procs, u, Some(r));
            }
        },
    }
    tree.shape = Ghost(t.graft(pivot, t.subtree(pivot).turned_left()));
    proof {
        assert(procs@ == left_turn_writes(was, pivot, r));
        lemma_left_turn_writes(was, pivot, r);
        lemma_rotate_left_linked(was, procs@, t, old(tree).root, pivot);
    }
}

/// What a right rotation about `pivot` does to the table, `r` being the left
/// child of `pivot`: `pivot` takes over the right subtree of `r` and goes
/// under `r`, `r` goes under the former parent of `pivot`, and that parent
/// points at `r` where it pointed at `pivot`. Nothing else changes.
pub open spec fn turned_right_table(was: Seq<Proc>, now: Seq<Proc>, pivot: usize, r: usize) -> bool {
    let inner = was[r as int].right_node;
    let up = was[pivot as int].parent_node;
    &&& now.len() == was.len()
    &&& now[pivot as int] == (Proc { left_node: inner, parent_node: Some(r), ..was[pivot as int] })
    &&& now[r as int] == (Proc { right_node: Some(pivot), parent_node: up, ..was[r as int] })
    &&& forall|i: usize|
        i < was.len() && i != pivot && i != r ==> #[trigger] now[i as int] == (if inner == Some(i) {
            Proc { parent_node: Some(pivot), ..was[i as int] }
        } else if up == Some(i) {
            relinked(was[i as int], pivot, r)
        } else {
            was[i as int]
        })
}

/// The table after the writes of a right rotation about `pivot`, one after the
/// other: first `pivot` and its left child `r`, then the top of the subtree
/// that changes hands, then the record above.
spec fn right_turn_writes(was: Seq<Proc>, pivot: usize, r: usize) -> Seq<Proc> {
    let inner = was[r as int].right_node;
    let up = was[pivot as int].parent_node;
    let first = was.update(
        pivot as int,
        (Proc { left_node: inner, parent_node: Some(r), ..was[pivot as int] }),
    ).update(r as int, (Proc { right_node: Some(pivot), parent_node: up, ..was[r as int] }));
    let second = match inner {
        Some(bi) => first.update(bi as int, (Proc { parent_node: Some(pivot), ..first[bi as int] })),
        None => first,
    };
    match up {
        Some(u) => second.update(u as int, relinked(second[u as int], pivot, r)),
        None => second,
    }
}

/// The writes of a right rotation, done one after the other on different
/// records, add up to what a right rotation does to the table.
proof fn lemma_right_turn_writes(was: Seq<Proc>, pivot: usize, r: usize)
    requires
        pivot < was.len(),
        r < was.len(),
        r != pivot,
        was[r as int].right_node matches Some(bi) ==> bi < was.len() && bi != pivot && bi != r,
        was[pivot as int].parent_node matches Some(u) ==> u < was.len() && u != pivot && u != r
            && was[r as int].right_node != Some(u),
    ensures
        turned_right_table(was, right_turn_writes(was, pivot, r), pivot, r),
{
}

/// The records that a right rotation about `pivot` touches are all in the
/// table and are different records.
pub proof fn lemma_right_parties(was: Seq<Proc>, t: Shape, root: Option<usize>, pivot: usize)
    requires
        t.distinct(),
        linked(was, t, root, None),
        t.slots().contains(pivot),
        t.subtree(pivot).lt() is Node,
    ensures
        pivot < was.len(),
        was[pivot as int].left_node == t.subtree(pivot).lt().root(),
        was[pivot as int].left_node matches Some(r) && r < was.len() && r != pivot && was[r as int].right_node
            == t.subtree(pivot).lt().rt().root() && (was[r as int].right_node matches Some(bi) ==> bi
            < was.len() && bi != pivot && bi != r) && (was[pivot as int].parent_node matches Some(u) ==> u
            < was.len() && u != pivot && u != r && was[r as int].right_node != Some(u)),
        (was[pivot as int].parent_node is None) == (root == Some(pivot)),
        was[pivot as int].parent_node matches Some(u) ==> t.slots().contains(u) && !t.subtree(
            pivot,
        ).slots().contains(u) && (was[u as int].right_node == Some(pivot) || was[u as int].left_node
            == Some(pivot)),
{
    let sub = t.subtree(pivot);
    let b = sub.lt().rt();
    lemma_subtree(t, pivot);
    lemma_linked_subtree(was, t, root, None, pivot);
    let r = sub.lt().root()->0;
    assert(linked(was, sub.lt(), Some(r), Some(pivot)));
    assert(linked(was, b, was[r as int].right_node, Some(r)));
    if t.root() != Some(pivot) {
        let u = t.parent_of(pivot)->0;
        lemma_subtree(t, u);
        lemma_linked_subtree(was, t, root, None, u);
    }
}

/// After a right rotation about `pivot` the table is linked as the shape with
/// the subtree under `pivot` turned right.
pub proof fn lemma_rotate_right_linked(
    was: Seq<Proc>,
    now: Seq<Proc>,
    t: Shape,
    root: Option<usize>,
    pivot: usize,
)
    requires
        t.distinct(),
        linked(was, t, root, None),
        t.slots().contains(pivot),
        t.subtree(pivot).lt() is Node,
        turned_right_table(was, now, pivot, t.subtree(pivot).lt().root()->0),
    ensures
        linked(
            now,
            t.graft(pivot, t.subtree(pivot).turned_right()),
            if root == Some(pivot) {
                t.subtree(pivot).lt().root()
            } else {
                root
            },
            None,
        ),
        forall|i: usize|
            i < was.len() && !t.slots().contains(i) ==> #[trigger] now[i as int] == was[i as int],
        forall|i: usize|
            i < was.len() ==> same_payload(was[i as int], #[trigger] now[i as int]) && now[i as int].node_color
                == was[i as int].node_color,
        t.graft(pivot, t.subtree(pivot).turned_right()).distinct(),
        t.graft(pivot, t.subtree(pivot).turned_right()).slots() == t.slots(),
        t.graft(pivot, t.subtree(pivot).turned_right()).in_order() == t.in_order(),
        t.graft(pivot, t.subtree(pivot).turned_right()).size() == t.size(),
        t.graft(pivot, t.subtree(pivot).turned_right()).subtree(t.subtree(pivot).lt().root()->0)
            == t.subtree(pivot).turned_right(),
{
    let sub = t.subtree(pivot);
    let a = sub.rt();
    let b = sub.lt().rt();
    let c = sub.lt().lt();
    let n = sub.turned_right();
    let r = sub.lt().root()->0;
    lemma_subtree(t, pivot);
    lemma_linked_subtree(was, t, root, None, pivot);
    lemma_linked_range(was, t, root, None);
    lemma_node_slots(sub);
    lemma_node_slots(sub.lt());
    lemma_turned_right(sub);
    assert(sub.lt().distinct());
    assert(linked(was, sub.lt(), Some(r), Some(pivot)));
    assert(linked(was, b, was[r as int].right_node, Some(r)));
    lemma_linked_frame(was, now, a, was[pivot as int].right_node, Some(pivot));
    lemma_linked_frame(was, now, c, was[r as int].left_node, Some(r));
    if b is Node {
        let bi = b.root()->0;
        lemma_node_slots(b);
        assert(b.distinct());
        lemma_linked_frame(was, now, b.rt(), was[bi as int].right_node, Some(bi));
        lemma_linked_frame(was, now, b.lt(), was[bi as int].left_node, Some(bi));
    }
    assert(linked(now, b, now[pivot as int].left_node, Some(pivot)));
    assert(linked(now, n.rt(), Some(pivot), Some(r)));
    lemma_graft_linked(was, now, t, root, None, pivot, n);
    lemma_graft_shape(t, pivot, n);
}

/// Rotates right about `pivot`: its left child takes its place, `pivot`
/// becomes that child's right child and takes over the child's former right
/// subtree. The parent links of all three are set, and the record above (or
/// the root of the tree) is pointed at the new top. No color changes.
/// The caller holds the guard of the tree.
pub fn rotate_right(tree: &mut RedBlackTree, procs: &mut Vec<Proc>, pivot: usize)
    requires
        old(tree).lock.locked,
        old(tree)@.distinct(),
        linked(old(procs)@, old(tree)@, old(tree).root, None),
        old(tree)@.slots().contains(pivot),
        old(tree)@.subtree(pivot).lt() is Node,
    ensures
        final(tree)@ == old(tree)@.graft(pivot, old(tree)@.subtree(pivot).turned_right()),
        final(tree)@.distinct(),
        linked(final(procs)@, final(tree)@, final(tree).root, None),
        final(tree)@.slots() == old(tree)@.slots(),
        final(tree)@.in_order() == old(tree)@.in_order(),
        final(tree)@.size() == old(tree)@.size(),
        final(tree)@.subtree(old(tree)@.subtree(pivot).lt().root()->0) == old(tree)@.subtree(
            pivot,
        ).turned_right(),
        (*final(tree)).same_books(*old(tree)),
        turned_right_table(old(procs)@, final(procs)@, pivot, old(tree)@.subtree(pivot).lt().root()->0),
        final(procs)@.len() == old(procs)@.len(),
        forall|i: usize|
            i < old(procs)@.len() ==> same_payload(old(procs)@[i as int], #[trigger] final(procs)@[i as int])
                && final(procs)@[i as int].node_color == old(procs)@[i as int].node_color,
        forall|i: usize|
            i < old(procs)@.len() && !old(tree)@.slots().contains(i) ==> #[trigger] final(procs)@[i as int]
                == old(procs)@[i as int],
{
    let ghost t = tree@;
    let ghost was = procs@;
    proof {
        lemma_right_parties(was, t, tree.root, pivot);
    }
    let r = procs[pivot].left_node.unwrap();
    let inner = procs[r].right_node;
    let up = procs[pivot].parent_node;
    let pivot_was = procs[pivot];
    let child_was = procs[r];
    procs[pivot] = Proc { left_node: inner, parent_node: Some(r), ..pivot_was };
    procs[r] = Proc { right_node: Some(pivot), parent_node: up, ..child_was };
    if let Some(bi) = inner {
        set_parent(procs, bi, Some(pivot));
    }
    match up {
        None => {
            tree.root = Some(r);
        },
        Some(u) => {
            if procs[u].left_node == Some(pivot) {
                set_left(procs, u, Some(r));
            } else {
                set_right(procs, u, Some(r));
            }
        },
    }
    tree.shape = Ghost(t.graft(pivot, t.subtree(pivot).turned_right()));
    proof {
        assert(procs@ == right_turn_writes(was, pivot, r));
        lemma_right_turn_writes(was, pivot, r);
        lemma_rotate_right_linked(was, procs@, t, old(tree).root, pivot);
    }
}

} // verus!
