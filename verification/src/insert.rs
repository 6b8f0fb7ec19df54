//! Putting a process on the run queue.

use vstd::prelude::*;
use crate::invariants::{lemma_linked_frame, lemma_linked_range, linked, same_payload};
use crate::lookup::get_minimum_vruntime_proc;
use crate::order::{insert_by_key, lemma_planted_in_order};
use crate::planting::{
    grown, lemma_planted_colors, lemma_planted_keys, lemma_planted_shape, lemma_weight_bound,
    planted,
};
use crate::process::{set_color, set_left, set_parent, set_right, Proc, ProcColor};
use crate::rebalance::recolor_and_rotate;
use crate::shape::{lemma_node_slots, Shape};
use crate::tree::{RedBlackTree, CAPACITY};
use crate::walk::{colors_of, lemma_grown_colors, mended};

verus! {

/// Hangs the record `new_proc` as a red leaf into the subtree that
/// `cur_proc` points at, and returns the top of that subtree afterwards:
/// `new_proc` itself where the subtree was empty. On the way down the new
/// record's parent link is pointed at each node passed, so that it ends up
/// naming the node the leaf hangs under; equal keys go right.
pub fn treenode_insertion(
    procs: &mut Vec<Proc>,
    cur_proc: Option<usize>,
    new_proc: usize,
    Ghost(t): Ghost<Shape>,
    Ghost(above): Ghost<Option<usize>>,
) -> (top: Option<usize>)
    requires
        t.distinct(),
        linked(old(procs)@, t, cur_proc, above),
        new_proc < old(procs)@.len(),
        !t.slots().contains(new_proc),
    ensures
        top == planted(old(procs)@, t, new_proc).root(),
        linked(
            final(procs)@,
            planted(old(procs)@, t, new_proc),
            top,
            if t is Leaf {
                final(procs)@[new_proc as int].parent_node
            } else {
                above
            },
        ),
        grown(old(procs)@, final(procs)@, t, new_proc),
    decreases t,
{
    let ghost was = procs@;
    set_color(procs, new_proc, ProcColor::RED);
    match cur_proc {
        None => {
            set_left(procs, new_proc, None);
            set_right(procs, new_proc, None);
            proof {
                let e = Shape::Leaf;
                assert(linked(procs@, e, None, Some(new_proc)));
            }
            Some(new_proc)
        },
        Some(cur) => {
            set_parent(procs, new_proc, Some(cur));
            let ghost marked = procs@;
            proof {
                lemma_node_slots(t);
                lemma_linked_range(was, t, cur_proc, above);
                lemma_planted_shape(was, t.lt(), new_proc);
                lemma_planted_shape(was, t.rt(), new_proc);
                lemma_planted_keys(was, marked, t.lt(), new_proc);
                lemma_planted_keys(was, marked, t.rt(), new_proc);
                lemma_linked_frame(was, marked, t.lt(), was[cur as int].left_node, Some(cur));
                lemma_linked_frame(was, marked, t.rt(), was[cur as int].right_node, Some(cur));
            }
            if procs[cur].v_runtime <= procs[new_proc].v_runtime {
                let below = procs[cur].right_node;
                let sub = treenode_insertion(procs, below, new_proc, Ghost(t.rt()), Ghost(Some(cur)));
                let ghost hung = procs@;
                set_right(procs, cur, sub);
                proof {
                    let q = planted(was, t.rt(), new_proc);
                    lemma_linked_frame(hung, procs@, q, sub, Some(cur));
                    lemma_linked_frame(was, procs@, t.lt(), was[cur as int].left_node, Some(cur));
                }
            } else {
                let below = procs[cur].left_node;
                let sub = treenode_insertion(procs, below, new_proc, Ghost(t.lt()), Ghost(Some(cur)));
                let ghost hung = procs@;
                set_left(procs, cur, sub);
                proof {
                    let q = planted(was, t.lt(), new_proc);
                    lemma_linked_frame(hung, procs@, q, sub, Some(cur));
                    lemma_linked_frame(was, procs@, t.rt(), was[cur as int].right_node, Some(cur));
                }
            }
            Some(cur)
        },
    }
}

/// Enters the newly linked record `p` into the books of the tree: one node
/// more, and its weight on top of the total. The caller holds the guard.
pub fn update_inserted_process_and_tree_properties(
    tree: &mut RedBlackTree,
    procs: &Vec<Proc>,
    p: usize,
)
    requires
        old(tree).lock.locked,
        p < procs@.len(),
        old(tree).num_of_nodes < CAPACITY,
        old(tree).num_of_nodes >= 0,
        -0x8000_0000 * old(tree).num_of_nodes <= old(tree).total_weight,
        old(tree).total_weight <= 0x7fff_ffff * old(tree).num_of_nodes,
    ensures
        final(tree).num_of_nodes == old(tree).num_of_nodes + 1,
        final(tree).total_weight == old(tree).total_weight + procs@[p as int].weight,
        final(tree).root == old(tree).root,
        final(tree).min_vruntime == old(tree).min_vruntime,
        final(tree).lock == old(tree).lock,
        final(tree).period == old(tree).period,
        final(tree)@ == old(tree)@,
{
    tree.num_of_nodes = tree.num_of_nodes + 1;
    tree.total_weight = tree.total_weight + procs[p].weight as i64;
}

/// Puts the process in slot `p` on the run queue, unless the queue is full:
/// with 64 processes queued the call changes nothing. Otherwise the record
/// is hung into the tree as a red leaf by its virtual runtime, behind all
/// queued processes with the same or a lesser one; count and weight total
/// are brought up to date, the tree is rebalanced from the new leaf upwards,
/// and the cached minimum is looked up afresh. The guard of the tree is held
/// for the duration.
///
/// The record's links and color are overwritten; whatever children it named
/// before are forgotten.
pub fn insert_process(tree: &mut RedBlackTree, procs: &mut Vec<Proc>, p: usize)
    requires
        old(tree).wf(old(procs)@),
        p < old(procs)@.len(),
        !old(tree)@.slots().contains(p),
        !old(tree).lock.locked,
    ensures
        final(tree).wf(final(procs)@),
        !final(tree).lock.locked,
        final(tree).period == old(tree).period,
        final(procs)@.len() == old(procs)@.len(),
        forall|i: usize|
            i < old(procs)@.len() ==> same_payload(old(procs)@[i as int], #[trigger] final(procs)@[i as int]),
        forall|i: usize|
            i < old(procs)@.len() && i != p && !old(tree)@.slots().contains(i)
                ==> #[trigger] final(procs)@[i as int] == old(procs)@[i as int],
        old(tree).num_of_nodes >= CAPACITY ==> *final(tree) == *old(tree)
            && final(procs)@ == old(procs)@,
        old(tree).num_of_nodes < CAPACITY ==> {
            &&& (final(tree)@, colors_of(final(procs)@)) == mended(
                colors_of(old(procs)@).update(p as int, ProcColor::RED),
                planted(old(procs)@, old(tree)@, p),
                p,
            )
            &&& final(tree)@.in_order() == insert_by_key(old(procs)@, old(tree)@.in_order(), p)
            &&& final(tree)@.slots() == old(tree)@.slots().insert(p)
            &&& final(tree).num_of_nodes == old(tree).num_of_nodes + 1
            &&& final(tree).total_weight == old(tree).total_weight + old(procs)@[p as int].weight
        },
{
    let ghost t = tree@;
    let ghost was = procs@;
    tree.lock.acquire();
    if tree.num_of_nodes < CAPACITY {
        let was_empty = tree.num_of_nodes == 0;
        proof {
            lemma_planted_shape(was, t, p);
        }
        let top = treenode_insertion(procs, tree.root, p, Ghost(t), Ghost(None));
        let ghost planted_in = procs@;
        tree.root = top;
        if was_empty {
            if let Some(root) = tree.root {
                set_parent(procs, root, None);
            }
        }
        tree.shape = Ghost(planted(was, t, p));
        proof {
            let now = procs@;
            if t is Leaf {
                let e = Shape::Leaf;
                assert(linked(now, e, None, Some(p)));
            }
            lemma_planted_in_order(was, t, p);
            lemma_linked_range(was, t, old(tree).root, None);
            lemma_planted_colors(was, now, t, p);
            lemma_weight_bound(was, t);
            assert(procs@.len() == procs.len());
            lemma_grown_colors(was, planted_in, t, p);
        }
        update_inserted_process_and_tree_properties(tree, procs, p);
        recolor_and_rotate(tree, procs, p);
        tree.min_vruntime = get_minimum_vruntime_proc(tree, procs, tree.root);
    }
    tree.lock.release();
}

} // verus!
