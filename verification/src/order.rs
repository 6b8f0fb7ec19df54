//! The left-to-right order of a tree, and where a new slot comes to stand in
//! it.

use vstd::prelude::*;
use crate::invariants::{key, ordered};
use crate::planting::planted;
use crate::process::Proc;
use crate::shape::{lemma_node_slots, Shape};

verus! {

/// The sequence `s` with the slot `n` put in behind the leading run of slots
/// whose key is not above that of `n`. In a sequence sorted by key this is
/// the place behind all keys less than or equal to the new one.
pub open spec fn insert_by_key(procs: Seq<Proc>, s: Seq<usize>, n: usize) -> Seq<usize>
    decreases s.len(),
{
    if s.len() == 0 {
        seq![n]
    } else if key(procs, s[0]) <= key(procs, n) {
        seq![s[0]] + insert_by_key(procs, s.drop_first(), n)
    } else {
        seq![n] + s
    }
}

/// The keys along `s` never fall.
pub open spec fn sorted_by_key(procs: Seq<Proc>, s: Seq<usize>) -> bool {
    forall|i: int, j: int| 0 <= i <= j < s.len() ==> key(procs, s[i]) <= key(procs, s[j])
}

/// Every slot listed from left to right is a slot of the tree, and the list
/// is as long as the tree is large.
pub proof fn lemma_in_order_slots(t: Shape)
    ensures
        t.in_order().len() == t.size(),
        forall|k: int| 0 <= k < t.in_order().len() ==> t.slots().contains(#[trigger] t.in_order()[k]),
        forall|i: usize| #[trigger] t.slots().contains(i) ==> t.in_order().contains(i),
    decreases t,
{
    match t {
        Shape::Leaf => {},
        Shape::Node { left, slot, right } => {
            lemma_node_slots(t);
            lemma_in_order_slots(*left);
            lemma_in_order_slots(*right);
            let a = left.in_order();
            let b = right.in_order();
            let s = t.in_order();
            assert forall|i: usize| #[trigger] t.slots().contains(i) implies s.contains(i) by {
                if i == slot {
                    assert(s[a.len() as int] == slot);
                } else if left.slots().contains(i) {
                    let k = choose|k: int| 0 <= k < a.len() && a[k] == i;
                    assert(s[k] == i);
                } else {
                    let k = choose|k: int| 0 <= k < b.len() && b[k] == i;
                    assert(s[k + a.len() + 1] == i);
                }
            }
        },
    }
}

/// Behind a run of keys that are not above the new key, the new slot goes
/// where it would go in the rest.
pub proof fn lemma_insert_after(procs: Seq<Proc>, a: Seq<usize>, b: Seq<usize>, n: usize)
    requires
        forall|k: int| 0 <= k < a.len() ==> key(procs, #[trigger] a[k]) <= key(procs, n),
    ensures
        insert_by_key(procs, a + b, n) == a + insert_by_key(procs, b, n),
    decreases a.len(),
{
    if a.len() > 0 {
        let rest = a.drop_first();
        assert((a + b).drop_first() =~= rest + b);
        lemma_insert_after(procs, rest, b, n);
    }
}

/// Before a key that is above the new key, the new slot goes where it would
/// go in what stands before that key.
pub proof fn lemma_insert_before(procs: Seq<Proc>, a: Seq<usize>, b: Seq<usize>, n: usize)
    requires
        b.len() > 0,
        key(procs, b[0]) > key(procs, n),
    ensures
        insert_by_key(procs, a + b, n) == insert_by_key(procs, a, n) + b,
    decreases a.len(),
{
    if a.len() > 0 {
        let rest = a.drop_first();
        assert((a + b).drop_first() =~= rest + b);
        if key(procs, a[0]) <= key(procs, n) {
            lemma_insert_before(procs, rest, b, n);
        }
    }
}

/// Hanging a new leaf into a search tree puts its slot into the left-to-right
/// order behind all slots whose key is not above its own.
pub proof fn lemma_planted_in_order(procs: Seq<Proc>, t: Shape, n: usize)
    requires
        ordered(procs, t),
    ensures
        planted(procs, t, n).in_order() == insert_by_key(procs, t.in_order(), n),
    decreases t,
{
    match t {
        Shape::Leaf => {},
        Shape::Node { left, slot, right } => {
            let a = left.in_order();
            let b = right.in_order();
            lemma_in_order_slots(*left);
            if key(procs, slot) <= key(procs, n) {
                lemma_planted_in_order(procs, *right, n);
                lemma_insert_after(procs, a.push(slot), b, n);
            } else {
                lemma_planted_in_order(procs, *left, n);
                let tail = seq![slot] + b;
                assert(t.in_order() =~= a + tail);
                lemma_insert_before(procs, a, tail, n);
            }
        },
    }
}

/// In a search tree the keys from left to right never fall.
pub proof fn lemma_in_order_sorted(procs: Seq<Proc>, t: Shape)
    requires
        ordered(procs, t),
    ensures
        sorted_by_key(procs, t.in_order()),
    decreases t,
{
    match t {
        Shape::Leaf => {},
        Shape::Node { left, slot, right } => {
            lemma_in_order_sorted(procs, *left);
            lemma_in_order_sorted(procs, *right);
            lemma_in_order_slots(*left);
            lemma_in_order_slots(*right);
        },
    }
}

} // verus!
