//! What holds of every sound run queue, stated once and proved.

use vstd::prelude::*;
use crate::invariants::{
    balanced, black_height, key, lemma_color_frame, lemma_linked_frame, lemma_linked_subtree, linked,
    no_red_red, red,
    same_links, same_standing, weight_sum,
};
use crate::order::{insert_by_key, lemma_in_order_slots, lemma_in_order_sorted, sorted_by_key};
use crate::planting::{lemma_planted_shape, planted};
use crate::process::Proc;
use crate::shape::{lemma_node_slots, lemma_subtree, Shape};
use crate::tree::RedBlackTree;

verus! {

/// The path, a list of turns (`true` for right), leads from the top of the
/// tree to an absent child and ends there.
pub open spec fn ends_at_leaf(t: Shape, path: Seq<bool>) -> bool
    decreases path.len(),
{
    match t {
        Shape::Leaf => path.len() == 0,
        Shape::Node { left, slot, right } => path.len() > 0 && ends_at_leaf(
            if path[0] {
                *right
            } else {
                *left
            },
            path.drop_first(),
        ),
    }
}

/// Number of black nodes that the path passes on its way down from the top.
pub open spec fn blacks_along(procs: Seq<Proc>, t: Shape, path: Seq<bool>) -> nat
    decreases path.len(),
{
    match t {
        Shape::Leaf => 0,
        Shape::Node { left, slot, right } => if path.len() == 0 {
            0
        } else {
            blacks_along(
                procs,
                if path[0] {
                    *right
                } else {
                    *left
                },
                path.drop_first(),
            ) + if red(procs, slot) {
                0nat
            } else {
                1nat
            }
        },
    }
}

/// In a balanced tree every path from the top to an absent child passes the
/// same number of black nodes, the black height of the tree.
pub proof fn lemma_paths_agree(procs: Seq<Proc>, t: Shape, path: Seq<bool>)
    requires
        balanced(procs, t),
        ends_at_leaf(t, path),
    ensures
        blacks_along(procs, t, path) == black_height(procs, t),
    decreases path.len(),
{
    match t {
        Shape::Leaf => {},
        Shape::Node { left, slot, right } => {
            if path[0] {
                lemma_paths_agree(procs, *right, path.drop_first());
            } else {
                lemma_paths_agree(procs, *left, path.drop_first());
            }
        },
    }
}

/// The red-black rules of a sound run queue: the root is black, no red node
/// has a red child, any two paths from the root to an absent child pass the
/// same number of black nodes, and from left to right the virtual runtimes
/// never fall.
pub proof fn lemma_red_black_rules(tree: RedBlackTree, procs: Seq<Proc>)
    requires
        tree.wf(procs),
    ensures
        tree.root matches Some(r) ==> !red(procs, r),
        no_red_red(procs, tree@),
        forall|a: Seq<bool>, b: Seq<bool>|
            ends_at_leaf(tree@, a) && ends_at_leaf(tree@, b) ==> #[trigger] blacks_along(procs, tree@, a)
                == #[trigger] blacks_along(procs, tree@, b),
        sorted_by_key(procs, tree@.in_order()),
{
    assert forall|a: Seq<bool>, b: Seq<bool>|
        ends_at_leaf(tree@, a) && ends_at_leaf(tree@, b) implies #[trigger] blacks_along(
        procs,
        tree@,
        a,
    ) == #[trigger] blacks_along(procs, tree@, b) by {
        lemma_paths_agree(procs, tree@, a);
        lemma_paths_agree(procs, tree@, b);
    }
    lemma_in_order_sorted(procs, tree@);
}

/// The leftmost slot of a tree is the first in its left-to-right order.
pub proof fn lemma_leftmost_first(t: Shape)
    ensures
        t is Leaf ==> t.leftmost() is None,
        t is Node ==> t.in_order().len() > 0 && t.leftmost() == Some(t.in_order()[0]),
    decreases t,
{
    match t {
        Shape::Leaf => {},
        Shape::Node { left, slot, right } => {
            lemma_leftmost_first(*left);
            let a = left.in_order();
        },
    }
}

/// The cached minimum of a sound run queue is what a fresh descent along the
/// left links from the root finds: the first slot from the left, which holds
/// the least virtual runtime in the tree; none in an empty tree.
pub proof fn lemma_cached_minimum(tree: RedBlackTree, procs: Seq<Proc>)
    requires
        tree.wf(procs),
    ensures
        tree.root is None ==> tree.min_vruntime is None,
        tree.root matches Some(r) ==> {
            &&& tree.min_vruntime == tree@.subtree(r).leftmost()
            &&& tree.min_vruntime matches Some(m)
            &&& m == tree@.in_order()[0]
            &&& forall|i: usize| #[trigger] tree@.slots().contains(i) ==> key(procs, m) <= key(procs, i)
        },
{
    lemma_leftmost_first(tree@);
    if tree.root is Some {
        let r = tree.root->0;
        lemma_in_order_sorted(procs, tree@);
        lemma_in_order_slots(tree@);
        let s = tree@.in_order();
        let m = s[0];
    }
}

/// From left to right no slot of a tree with distinct slots comes twice.
pub proof fn lemma_in_order_no_duplicates(t: Shape)
    requires
        t.distinct(),
    ensures
        t.in_order().no_duplicates(),
    decreases t,
{
    match t {
        Shape::Leaf => {},
        Shape::Node { left, slot, right } => {
            lemma_in_order_no_duplicates(*left);
            lemma_in_order_no_duplicates(*right);
            lemma_in_order_slots(*left);
            lemma_in_order_slots(*right);
            let a = left.in_order();
        },
    }
}

/// The books of a sound run queue: the node count is the number of records
/// that the links reach from the root, and the weight total is the sum of
/// their weights.
pub proof fn lemma_books(tree: RedBlackTree, procs: Seq<Proc>)
    requires
        tree.wf(procs),
    ensures
        tree@.slots().finite(),
        tree.num_of_nodes == tree@.slots().len(),
        tree.num_of_nodes == tree@.in_order().len(),
        tree.total_weight == weight_sum(procs, tree@),
{
    let s = tree@.in_order();
    lemma_in_order_slots(tree@);
    lemma_in_order_no_duplicates(tree@);
    s.unique_seq_to_set();
    assert(s.to_set() =~= tree@.slots()) by {}
}

/// In a sound run queue the links agree with each other: the root has no
/// parent, and every child that a queued record names is queued itself and
/// names that record as its parent.
pub proof fn lemma_links_agree(tree: RedBlackTree, procs: Seq<Proc>, p: usize, c: usize)
    requires
        tree.wf(procs),
        tree@.slots().contains(p),
        procs[p as int].left_node == Some(c) || procs[p as int].right_node == Some(c),
    ensures
        tree@.slots().contains(c),
        procs[c as int].parent_node == Some(p),
        tree.root matches Some(r) ==> procs[r as int].parent_node is None,
{
    let sub = tree@.subtree(p);
    lemma_subtree(tree@, p);
    lemma_linked_subtree(procs, tree@, tree.root, None, p);
    lemma_node_slots(sub);
    if procs[p as int].left_node == Some(c) {
        lemma_node_slots(sub.lt());
        assert(linked(procs, sub.lt(), Some(c), Some(p)));
    } else {
        lemma_node_slots(sub.rt());
        assert(linked(procs, sub.rt(), Some(c), Some(p)));
    }
}

/// The links leave no choice: two shapes that the same table spells out from
/// the same starting point are the same shape.
pub proof fn lemma_linked_unique(
    procs: Seq<Proc>,
    t: Shape,
    u: Shape,
    at: Option<usize>,
    parent: Option<usize>,
)
    requires
        linked(procs, t, at, parent),
        linked(procs, u, at, parent),
    ensures
        t == u,
    decreases t,
{
    match t {
        Shape::Leaf => {},
        Shape::Node { left, slot, right } => {
            lemma_linked_unique(procs, *left, u.lt(), procs[slot as int].left_node, Some(slot));
            lemma_linked_unique(procs, *right, u.rt(), procs[slot as int].right_node, Some(slot));
        },
    }
}

/// Soundness of a run queue depends only on the links, colors, keys and
/// weights of the records in the tree: whatever else changes in the table,
/// the queue stays sound.
pub proof fn lemma_wf_frame(tree: RedBlackTree, was: Seq<Proc>, now: Seq<Proc>)
    requires
        tree.wf(was),
        now.len() == was.len(),
        forall|i: usize| #[trigger]
            tree@.slots().contains(i) ==> same_links(was[i as int], now[i as int]) && same_standing(
                was[i as int],
                now[i as int],
            ),
    ensures
        tree.wf(now),
{
    lemma_linked_frame(was, now, tree@, tree.root, None);
    lemma_color_frame(was, now, tree@, None, None);
    if tree.root is Some {
        lemma_node_slots(tree@);
    }
}

/// The slot `e` is one of the nodes that the search for the place of `n`
/// passes on its way down the tree.
pub open spec fn on_search_path(procs: Seq<Proc>, t: Shape, n: usize, e: usize) -> bool
    decreases t,
{
    match t {
        Shape::Leaf => false,
        Shape::Node { left, slot, right } => slot == e || if key(procs, slot) <= key(procs, n) {
            on_search_path(procs, *right, n, e)
        } else {
            on_search_path(procs, *left, n, e)
        },
    }
}

/// The slot `a` stands somewhere before the slot `b` in the sequence.
pub open spec fn before(s: Seq<usize>, a: usize, b: usize) -> bool {
    exists|i: int, j: int| 0 <= i < j < s.len() && s[i] == a && s[j] == b
}

/// Ties go right: when the search for the place of a new leaf passes a node
/// whose key is the same as the new key (or less), the leaf is hung into that
/// node's right subtree, and its left subtree stays as it was.
pub proof fn lemma_tie_goes_right(procs: Seq<Proc>, t: Shape, n: usize, e: usize)
    requires
        t.distinct(),
        !t.slots().contains(n),
        on_search_path(procs, t, n, e),
        key(procs, e) <= key(procs, n),
    ensures
        t.slots().contains(e),
        planted(procs, t, n).subtree(e).rt().slots().contains(n),
        !planted(procs, t, n).subtree(e).lt().slots().contains(n),
        planted(procs, t, n).subtree(e).lt() == t.subtree(e).lt(),
    decreases t,
{
    match t {
        Shape::Leaf => {},
        Shape::Node { left, slot, right } => {
            lemma_planted_shape(procs, *left, n);
            lemma_planted_shape(procs, *right, n);
            if slot == e {
            } else if key(procs, slot) <= key(procs, n) {
                lemma_tie_goes_right(procs, *right, n, e);
            } else {
                lemma_tie_goes_right(procs, *left, n, e);
            }
        },
    }
}

/// Whatever hangs in the left subtree of a node stands before that node in
/// the left-to-right order.
pub proof fn lemma_left_is_before(t: Shape, e: usize, a: usize)
    requires
        t.distinct(),
        t.slots().contains(e),
        t.subtree(e).lt().slots().contains(a),
    ensures
        before(t.in_order(), a, e),
    decreases t,
{
    match t {
        Shape::Leaf => {},
        Shape::Node { left, slot, right } => {
            lemma_in_order_slots(*left);
            let x = left.in_order();
            let y = right.in_order();
            let s = t.in_order();
            if slot == e {
                let i = choose|i: int| 0 <= i < x.len() && x[i] == a;
                assert(s[i] == a && s[x.len() as int] == e);
            } else if left.slots().contains(e) {
                lemma_left_is_before(*left, e, a);
                let (i, j) = choose|i: int, j: int| 0 <= i < j < x.len() && x[i] == a && x[j] == e;
                assert(s[i] == a && s[j] == e);
            } else {
                lemma_left_is_before(*right, e, a);
                let (i, j) = choose|i: int, j: int| 0 <= i < j < y.len() && y[i] == a && y[j] == e;
                assert(s[i + x.len() + 1] == a && s[j + x.len() + 1] == e);
            }
        },
    }
}

/// In a sequence sorted by key the new slot is put in behind every slot whose
/// key is the same as its own or less.
pub proof fn lemma_insert_by_key_behind(procs: Seq<Proc>, s: Seq<usize>, n: usize, e: usize)
    requires
        sorted_by_key(procs, s),
        s.contains(e),
        key(procs, e) <= key(procs, n),
    ensures
        before(insert_by_key(procs, s, n), e, n),
    decreases s.len(),
{
    let r = insert_by_key(procs, s, n);
    let k = choose|k: int| 0 <= k < s.len() && s[k] == e;
    let rest = s.drop_first();
    let tail = insert_by_key(procs, rest, n);
    if k == 0 {
        lemma_insert_by_key_holds(procs, rest, n);
        let j = choose|j: int| 0 <= j < tail.len() && tail[j] == n;
        assert(r[0] == e && r[j + 1] == n);
    } else {
        assert(rest[k - 1] == e);
        lemma_insert_by_key_behind(procs, rest, n, e);
        let (i, j) = choose|i: int, j: int| 0 <= i < j < tail.len() && tail[i] == e && tail[j] == n;
        assert(r[i + 1] == e && r[j + 1] == n);
    }
}

/// The new slot is in the sequence it was put into.
pub proof fn lemma_insert_by_key_holds(procs: Seq<Proc>, s: Seq<usize>, n: usize)
    ensures
        insert_by_key(procs, s, n).contains(n),
        insert_by_key(procs, s, n).len() == s.len() + 1,
    decreases s.len(),
{
    let r = insert_by_key(procs, s, n);
    if s.len() == 0 {
        assert(r[0] == n);
    } else if key(procs, s[0]) <= key(procs, n) {
        let tail = insert_by_key(procs, s.drop_first(), n);
        lemma_insert_by_key_holds(procs, s.drop_first(), n);
        let j = choose|j: int| 0 <= j < tail.len() && tail[j] == n;
        assert(r[j + 1] == n);
    } else {
        assert(r[0] == n);
    }
}

/// Ties never go left, rebalanced or not: in any tree that lists the old
/// slots with the new one put in by key, the new slot is not in the left
/// subtree of any node whose key is the same as its own or less.
pub proof fn lemma_tie_never_left(procs: Seq<Proc>, was: Seq<usize>, t: Shape, n: usize, e: usize)
    requires
        sorted_by_key(procs, was),
        was.contains(e),
        !was.contains(n),
        key(procs, e) <= key(procs, n),
        t.distinct(),
        t.in_order() == insert_by_key(procs, was, n),
    ensures
        t.slots().contains(e),
        !t.subtree(e).lt().slots().contains(n),
{
    let s = t.in_order();
    lemma_insert_by_key_behind(procs, was, n, e);
    lemma_in_order_slots(t);
    lemma_in_order_no_duplicates(t);
    let (i, j) = choose|i: int, j: int| 0 <= i < j < s.len() && s[i] == e && s[j] == n;
    if t.subtree(e).lt().slots().contains(n) {
        lemma_left_is_before(t, e, n);
        let (a, b) = choose|a: int, b: int| 0 <= a < b < s.len() && s[a] == n && s[b] == e;
        assert(s[a] == s[j] && s[b] == s[i]);
    }
}

/// Two to the power of `n`.
pub open spec fn two_to(n: nat) -> nat
    decreases n,
{
    if n == 0 {
        1
    } else {
        2 * two_to((n - 1) as nat)
    }
}

/// Whether the top of the tree is red.
pub open spec fn red_top(procs: Seq<Proc>, t: Shape) -> bool {
    match t.root() {
        Some(r) => red(procs, r),
        None => false,
    }
}

/// A balanced tree without red-red pairs is shallow: no way down is longer
/// than twice the black height (and one more under a red top), and the tree
/// has at least two to the power of its black height, less one, nodes.
pub proof fn lemma_height_bound(procs: Seq<Proc>, t: Shape)
    requires
        balanced(procs, t),
        no_red_red(procs, t),
    ensures
        t.height() <= 2 * black_height(procs, t) + if red_top(procs, t) {
            1nat
        } else {
            0nat
        },
        two_to(black_height(procs, t)) <= t.size() + 1,
    decreases t,
{
    match t {
        Shape::Leaf => {},
        Shape::Node { left, slot, right } => {
            lemma_height_bound(procs, *left);
            lemma_height_bound(procs, *right);
        },
    }
}

/// A sound run queue is never deeper than twelve levels: with at most 64
/// nodes its black height is at most six.
pub proof fn lemma_queue_is_shallow(tree: RedBlackTree, procs: Seq<Proc>)
    requires
        tree.wf(procs),
    ensures
        black_height(procs, tree@) <= 6,
        tree@.height() <= 12,
        tree@.height() <= 2 * black_height(procs, tree@),
{
    lemma_height_bound(procs, tree@);
    let b = black_height(procs, tree@);
    if b >= 7 {
        lemma_two_to_grows(7, b);
        assert(two_to(7) == 128) by {
            reveal_with_fuel(two_to, 8);
        }
    }
}

/// A larger power of two is not less than a smaller one.
pub proof fn lemma_two_to_grows(a: nat, b: nat)
    requires
        a <= b,
    ensures
        two_to(a) <= two_to(b),
    decreases b,
{
    if a < b {
        lemma_two_to_grows(a, (b - 1) as nat);
    }
}

} // verus!
