//! Looking things up in the tree: the process that runs next, and whether a
//! record is on the queue.

use vstd::prelude::*;
use crate::invariants::{
    key, lemma_child, lemma_linked_range, lemma_linked_subtree, lemma_subtree_colors, linked,
    ordered,
};
use crate::process::Proc;
use crate::shape::lemma_subtree;
use crate::tree::RedBlackTree;

verus! {

/// Follows the left links from `traversing_process` down to the node that
/// has no left child. That node is the leftmost of the subtree and holds its
/// least key. Starting from nothing yields nothing.
pub fn get_minimum_vruntime_proc(
    tree: &RedBlackTree,
    procs: &Vec<Proc>,
    traversing_process: Option<usize>,
) -> (found: Option<usize>)
    requires
        tree@.distinct(),
        linked(procs@, tree@, tree.root, None),
        ordered(procs@, tree@),
        traversing_process matches Some(s) ==> tree@.slots().contains(s),
    ensures
        traversing_process is None ==> found is None,
        traversing_process matches Some(s) ==> {
            &&& found == tree@.subtree(s).leftmost()
            &&& found matches Some(m)
            &&& tree@.subtree(s).slots().contains(m)
            &&& forall|i: usize| #[trigger]
                tree@.subtree(s).slots().contains(i) ==> key(procs@, m) <= key(procs@, i)
        },
    decreases
            (match traversing_process {
                Some(s) => tree@.subtree(s).size(),
                None => 0,
            }),
{
    match traversing_process {
        None => None,
        Some(process) => {
            proof {
                lemma_subtree(tree@, process);
                lemma_linked_subtree(procs@, tree@, tree.root, None, process);
                lemma_subtree_colors(procs@, tree@, process, None);
            }
            match procs[process].left_node {
                Some(left_node) => {
                    proof {
                        let sub = tree@.subtree(process);
                        assert(linked(procs@, sub.lt(), Some(left_node), Some(process)));
                        lemma_child(procs@, tree@, tree.root, left_node, process);
                    }
                    get_minimum_vruntime_proc(tree, procs, Some(left_node))
                },
                None => Some(process),
            }
        },
    }
}

/// Whether the record in slot `p` is linked into the tree. Climbs the parent
/// links from `p`, checking at each step that the record above points back
/// down; a record of the tree reaches the root that way within as many steps
/// as the tree has nodes, and no other record ever does.
pub fn is_queued(tree: &RedBlackTree, procs: &Vec<Proc>, p: usize) -> (queued: bool)
    requires
        tree@.distinct(),
        linked(procs@, tree@, tree.root, None),
        tree.num_of_nodes == tree@.size(),
    ensures
        queued == tree@.slots().contains(p),
{
    proof {
        lemma_linked_range(procs@, tree@, tree.root, None);
    }
    if p >= procs.len() {
        return false;
    }
    let mut cur = p;
    let mut steps: i32 = 0;
    proof {
        if tree@.slots().contains(p) {
            lemma_subtree(tree@, p);
        }
    }
    while steps < tree.num_of_nodes
        invariant
            tree@.distinct(),
            linked(procs@, tree@, tree.root, None),
            tree.num_of_nodes == tree@.size(),
            tree.root == tree@.root(),
            cur < procs.len(),
            0 <= steps <= tree.num_of_nodes,
            tree@.slots().contains(p) == tree@.slots().contains(cur),
            tree@.slots().contains(cur) ==> tree@.subtree(cur).size() >= steps + 1,
        decreases tree.num_of_nodes - steps,
    {
        proof {
            if tree@.slots().contains(cur) {
                lemma_subtree(tree@, cur);
                lemma_linked_subtree(procs@, tree@, tree.root, None, cur);
            }
        }
        if tree.root == Some(cur) {
            return true;
        }
        match procs[cur].parent_node {
            None => {
                return false;
            },
            Some(above) => {
                proof {
                    if tree@.slots().contains(cur) {
                        lemma_child(procs@, tree@, tree.root, cur, above);
                    }
                }
                if above >= procs.len() {
                    return false;
                }
                if procs[above].left_node != Some(cur) && procs[above].right_node != Some(cur) {
                    return false;
                }
                proof {
                    if tree@.slots().contains(above) {
                        lemma_subtree(tree@, above);
                        lemma_linked_subtree(procs@, tree@, tree.root, None, above);
                    }
                }
                cur = above;
            },
        }
        steps = steps + 1;
    }
    proof {
        if tree@.slots().contains(cur) {
            lemma_subtree(tree@, cur);
        }
    }
    false
}

} // verus!
