//! Hanging a new leaf into a search tree: where it goes, and what the tree
//! keeps of its order, balance and colors.

use vstd::prelude::*;
use crate::invariants::{
    balanced, black_height, key, lemma_color_frame, ordered, red, red_ok, same_payload,
    same_standing, weight_sum,
};
use crate::process::Proc;
use crate::shape::{lemma_node_slots, node, Shape};

verus! {

/// The tree `t` with the slot `n` hung in as a leaf at the place where a
/// search for its key ends: at each node the search goes right where the
/// node's key is not above the new key (so ties go right) and left otherwise.
pub open spec fn planted(procs: Seq<Proc>, t: Shape, n: usize) -> Shape
    decreases t,
{
    match t {
        Shape::Leaf => node(Shape::Leaf, n, Shape::Leaf),
        Shape::Node { left, slot, right } => if key(procs, slot) <= key(procs, n) {
            node(*left, slot, planted(procs, *right, n))
        } else {
            node(planted(procs, *left, n), slot, *right)
        },
    }
}

/// What hanging `n` under the tree `t` does to the table: the record of `n`
/// becomes a red leaf, records in the tree keep payload, color and parent
/// link, and all other records stay as they are.
pub open spec fn grown(was: Seq<Proc>, now: Seq<Proc>, t: Shape, n: usize) -> bool {
    &&& now.len() == was.len()
    &&& same_payload(was[n as int], now[n as int])
    &&& red(now, n)
    &&& now[n as int].left_node is None
    &&& now[n as int].right_node is None
    &&& (t is Leaf ==> now[n as int].parent_node == was[n as int].parent_node)
    &&& forall|i: usize|
        i < was.len() && i != n ==> {
            &&& same_payload(was[i as int], #[trigger] now[i as int])
            &&& now[i as int].node_color == was[i as int].node_color
            &&& now[i as int].parent_node == was[i as int].parent_node
            &&& (!t.slots().contains(i) ==> now[i as int] == was[i as int])
        }
}

/// Where a new leaf goes depends on the keys alone.
pub proof fn lemma_planted_keys(was: Seq<Proc>, now: Seq<Proc>, t: Shape, n: usize)
    requires
        key(now, n) == key(was, n),
        forall|i: usize| #[trigger] t.slots().contains(i) ==> key(now, i) == key(was, i),
    ensures
        planted(now, t, n) == planted(was, t, n),
    decreases t,
{
    match t {
        Shape::Leaf => {},
        Shape::Node { left, slot, right } => {
            lemma_node_slots(t);
            lemma_planted_keys(was, now, *left, n);
            lemma_planted_keys(was, now, *right, n);
        },
    }
}

/// A new leaf adds its slot and nothing else.
pub proof fn lemma_planted_shape(procs: Seq<Proc>, t: Shape, n: usize)
    requires
        t.distinct(),
        !t.slots().contains(n),
    ensures
        planted(procs, t, n) is Node,
        planted(procs, t, n).slots() == t.slots().insert(n),
        planted(procs, t, n).distinct(),
        planted(procs, t, n).size() == t.size() + 1,
        t is Node ==> planted(procs, t, n).root() == t.root(),
        t is Leaf ==> planted(procs, t, n).root() == Some(n),
    decreases t,
{
    match t {
        Shape::Leaf => {},
        Shape::Node { left, slot, right } => {
            lemma_planted_shape(procs, *left, n);
            lemma_planted_shape(procs, *right, n);
        },
    }
}

/// A red leaf hung into a red-black search tree leaves it in order and
/// balanced, at the same black height; the only red-red pair that can arise
/// has the new leaf as its child. The weight grows by that of the leaf.
pub proof fn lemma_planted_colors(was: Seq<Proc>, now: Seq<Proc>, t: Shape, n: usize)
    requires
        t.distinct(),
        !t.slots().contains(n),
        ordered(was, t),
        balanced(was, t),
        red_ok(was, t, None),
        forall|i: usize| #[trigger] t.slots().contains(i) ==> same_standing(was[i as int], now[i as int]),
        key(now, n) == key(was, n),
        now[n as int].weight == was[n as int].weight,
        red(now, n),
    ensures
        ordered(now, planted(was, t, n)),
        balanced(now, planted(was, t, n)),
        black_height(now, planted(was, t, n)) == black_height(was, t),
        red_ok(now, planted(was, t, n), Some(n)),
        weight_sum(now, planted(was, t, n)) == weight_sum(was, t) + was[n as int].weight,
    decreases t,
{
    match t {
        Shape::Leaf => {
            let e = Shape::Leaf;
            assert(ordered(now, e) && balanced(now, e) && red_ok(now, e, Some(n)));
            assert(black_height(now, e) == 0 && weight_sum(now, e) == 0);
        },
        Shape::Node { left, slot, right } => {
            lemma_node_slots(t);
            lemma_planted_shape(was, *left, n);
            lemma_planted_shape(was, *right, n);
            lemma_color_frame(was, now, *left, None, Some(n));
            lemma_color_frame(was, now, *right, None, Some(n));
            if left.root() is Some {
                lemma_node_slots(*left);
            }
            if right.root() is Some {
                lemma_node_slots(*right);
            }
            if key(was, slot) <= key(was, n) {
                lemma_planted_colors(was, now, *right, n);
            } else {
                lemma_planted_colors(was, now, *left, n);
            }
        },
    }
}

/// The weights of the records in a tree add up to no more than the tree's
/// size times the largest weight, and no less than its size times the least.
pub proof fn lemma_weight_bound(procs: Seq<Proc>, t: Shape)
    ensures
        -0x8000_0000 * t.size() <= weight_sum(procs, t) <= 0x7fff_ffff * t.size(),
    decreases t,
{
    match t {
        Shape::Leaf => {},
        Shape::Node { left, slot, right } => {
            lemma_weight_bound(procs, *left);
            lemma_weight_bound(procs, *right);
        },
    }
}

} // verus!
