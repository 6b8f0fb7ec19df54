use cfs_tree::insert::insert_process;
use cfs_tree::lookup::{get_minimum_vruntime_proc, is_queued};
use cfs_tree::process::{Proc, ProcColor, ProcState};
use cfs_tree::tree::{RedBlackTree, CAPACITY};

fn record(pid: i32, v_runtime: i32, weight: i32) -> Proc {
    Proc {
        pid,
        state: ProcState::RUNNABLE,
        weight,
        v_runtime,
        niceness: 0,
        current_run: 0,
        max_exectime: 0,
        node_color: ProcColor::BLACK,
        left_node: None,
        right_node: None,
        parent_node: None,
    }
}

fn table(keys: &[i32]) -> Vec<Proc> {
    let mut procs = Vec::new();
    for (i, k) in keys.iter().enumerate() {
        procs.push(record(i as i32 + 1, *k, 1));
    }
    procs
}

fn walk(procs: &Vec<Proc>, at: Option<usize>, out: &mut Vec<usize>) {
    if let Some(i) = at {
        walk(procs, procs[i].left_node, out);
        out.push(i);
        walk(procs, procs[i].right_node, out);
    }
}

fn keys_in_order(tree: &RedBlackTree, procs: &Vec<Proc>) -> Vec<i32> {
    let mut slots = Vec::new();
    walk(procs, tree.root, &mut slots);
    slots.iter().map(|i| procs[*i].v_runtime).collect()
}

fn height(procs: &Vec<Proc>, at: Option<usize>) -> usize {
    match at {
        None => 0,
        Some(i) => 1 + height(procs, procs[i].left_node).max(height(procs, procs[i].right_node)),
    }
}

fn subtree_has(procs: &Vec<Proc>, at: Option<usize>, slot: usize) -> bool {
    match at {
        None => false,
        Some(i) => {
            i == slot || subtree_has(procs, procs[i].left_node, slot)
                || subtree_has(procs, procs[i].right_node, slot)
        }
    }
}

#[test]
fn four_inserts_come_out_in_order() {
    let mut procs = table(&[10, 20, 5, 15]);
    let mut tree = RedBlackTree::new(100);
    for p in 0..4 {
        insert_process(&mut tree, &mut procs, p);
    }
    assert_eq!(keys_in_order(&tree, &procs), vec![5, 10, 15, 20]);
    let root = tree.root.unwrap();
    assert_eq!(procs[root].node_color, ProcColor::BLACK);
    let next = get_minimum_vruntime_proc(&tree, &procs, tree.root).unwrap();
    assert_eq!(procs[next].v_runtime, 5);
    assert_eq!(next, 2);
    assert_eq!(tree.min_vruntime, Some(2));
    assert_eq!(tree.num_of_nodes, 4);
    assert_eq!(tree.total_weight, 4);
    assert_eq!(tree.period, 100);
}

#[test]
fn four_inserts_give_the_expected_shape() {
    let mut procs = table(&[10, 20, 5, 15]);
    let mut tree = RedBlackTree::new(100);
    for p in 0..4 {
        insert_process(&mut tree, &mut procs, p);
    }
    // 10 at the top, black; 5 and 20 below it, black after the recoloring
    // that the red uncle of 15 caused; 15 red under 20.
    assert_eq!(tree.root, Some(0));
    assert_eq!(procs[0].left_node, Some(2));
    assert_eq!(procs[0].right_node, Some(1));
    assert_eq!(procs[0].parent_node, None);
    assert_eq!(procs[1].left_node, Some(3));
    assert_eq!(procs[1].right_node, None);
    assert_eq!(procs[1].parent_node, Some(0));
    assert_eq!(procs[2].left_node, None);
    assert_eq!(procs[2].right_node, None);
    assert_eq!(procs[2].parent_node, Some(0));
    assert_eq!(procs[3].left_node, None);
    assert_eq!(procs[3].right_node, None);
    assert_eq!(procs[3].parent_node, Some(1));
    assert_eq!(procs[0].node_color, ProcColor::BLACK);
    assert_eq!(procs[1].node_color, ProcColor::BLACK);
    assert_eq!(procs[2].node_color, ProcColor::BLACK);
    assert_eq!(procs[3].node_color, ProcColor::RED);
}

#[test]
fn three_rising_keys_are_rotated_into_balance() {
    let mut procs = table(&[1, 2, 3]);
    let mut tree = RedBlackTree::new(10);
    insert_process(&mut tree, &mut procs, 0);
    assert_eq!(tree.root, Some(0));
    insert_process(&mut tree, &mut procs, 1);
    assert_eq!(tree.root, Some(0));
    assert_eq!(procs[0].right_node, Some(1));
    insert_process(&mut tree, &mut procs, 2);
    // A chain 1 - 2 - 3 would keep 1 at the top; the rotation brings 2 up.
    assert_eq!(tree.root, Some(1));
    assert_eq!(procs[1].left_node, Some(0));
    assert_eq!(procs[1].right_node, Some(2));
    assert_eq!(procs[1].parent_node, None);
    assert_eq!(procs[0].parent_node, Some(1));
    assert_eq!(procs[2].parent_node, Some(1));
    assert_eq!(procs[0].right_node, None);
    assert_eq!(procs[1].node_color, ProcColor::BLACK);
    assert_eq!(procs[0].node_color, ProcColor::RED);
    assert_eq!(procs[2].node_color, ProcColor::RED);
    assert!(height(&procs, tree.root) <= 2);
    assert_eq!(keys_in_order(&tree, &procs), vec![1, 2, 3]);
}

#[test]
fn three_falling_keys_are_rotated_into_balance() {
    let mut procs = table(&[3, 2, 1]);
    let mut tree = RedBlackTree::new(10);
    for p in 0..3 {
        insert_process(&mut tree, &mut procs, p);
    }
    assert_eq!(tree.root, Some(1));
    assert_eq!(procs[1].left_node, Some(2));
    assert_eq!(procs[1].right_node, Some(0));
    assert_eq!(height(&procs, tree.root), 2);
    assert_eq!(tree.min_vruntime, Some(2));
}

#[test]
fn inner_child_on_the_left_takes_two_rotations() {
    let mut procs = table(&[30, 10, 20]);
    let mut tree = RedBlackTree::new(10);
    for p in 0..3 {
        insert_process(&mut tree, &mut procs, p);
    }
    // 20 was the right child of 10 under 30: it ends up on top.
    assert_eq!(tree.root, Some(2));
    assert_eq!(procs[2].left_node, Some(1));
    assert_eq!(procs[2].right_node, Some(0));
    assert_eq!(procs[2].node_color, ProcColor::BLACK);
    assert_eq!(procs[0].node_color, ProcColor::RED);
    assert_eq!(procs[1].node_color, ProcColor::RED);
    assert_eq!(procs[0].parent_node, Some(2));
    assert_eq!(procs[1].parent_node, Some(2));
    assert_eq!(procs[1].right_node, None);
    assert_eq!(procs[0].left_node, None);
}

#[test]
fn inner_child_on_the_right_takes_two_rotations() {
    let mut procs = table(&[10, 30, 20]);
    let mut tree = RedBlackTree::new(10);
    for p in 0..3 {
        insert_process(&mut tree, &mut procs, p);
    }
    assert_eq!(tree.root, Some(2));
    assert_eq!(procs[2].left_node, Some(0));
    assert_eq!(procs[2].right_node, Some(1));
    assert_eq!(procs[2].node_color, ProcColor::BLACK);
    assert_eq!(procs[0].node_color, ProcColor::RED);
    assert_eq!(procs[1].node_color, ProcColor::RED);
}

#[test]
fn a_full_queue_declines_the_next_process() {
    let keys: Vec<i32> = (0..65).map(|i| (i * 37) % 101).collect();
    let mut procs = table(&keys);
    let mut tree = RedBlackTree::new(7);
    for p in 0..64 {
        insert_process(&mut tree, &mut procs, p);
        assert_eq!(tree.num_of_nodes, p as i32 + 1);
    }
    assert_eq!(tree.num_of_nodes, CAPACITY);
    let procs_before = procs.clone();
    let root_before = tree.root;
    let min_before = tree.min_vruntime;
    let weight_before = tree.total_weight;
    let order_before = keys_in_order(&tree, &procs);

    insert_process(&mut tree, &mut procs, 64);

    assert_eq!(tree.num_of_nodes, 64);
    assert_eq!(tree.root, root_before);
    assert_eq!(tree.min_vruntime, min_before);
    assert_eq!(tree.total_weight, weight_before);
    assert_eq!(tree.period, 7);
    assert!(!tree.lock.locked);
    assert_eq!(procs, procs_before);
    assert_eq!(keys_in_order(&tree, &procs), order_before);
    assert!(!is_queued(&tree, &procs, 64));
}

#[test]
fn equal_keys_queue_up_behind_each_other() {
    let mut procs = table(&[5, 5, 5, 5, 3, 5, 7, 5]);
    let mut tree = RedBlackTree::new(1);
    for p in 0..8 {
        insert_process(&mut tree, &mut procs, p);
        // The new record is never in the left subtree of a record with the same key.
        for e in 0..p {
            if procs[e].v_runtime == procs[p].v_runtime {
                assert!(!subtree_has(&procs, procs[e].left_node, p));
            }
        }
    }
    let mut slots = Vec::new();
    walk(&procs, tree.root, &mut slots);
    assert_eq!(slots, vec![4, 0, 1, 2, 3, 5, 7, 6]);
    // The first of the equal keys is not the one that runs next: 3 is less.
    assert_eq!(tree.min_vruntime, Some(4));
}

#[test]
fn a_tie_lands_to_the_right_of_every_node_it_passes() {
    let mut procs = table(&[5, 5, 5, 5]);
    let mut tree = RedBlackTree::new(1);
    for p in 0..3 {
        insert_process(&mut tree, &mut procs, p);
    }
    // Slot 1 on top, slot 0 to its left, slot 2 to its right, all with key 5.
    assert_eq!(tree.root, Some(1));
    assert_eq!((procs[1].left_node, procs[1].right_node), (Some(0), Some(2)));
    insert_process(&mut tree, &mut procs, 3);
    // The search passed slots 1 and 2 and went right at both.
    assert!(subtree_has(&procs, procs[1].right_node, 3));
    assert!(subtree_has(&procs, procs[2].right_node, 3));
    assert_eq!(procs[3].parent_node, Some(2));
    // Slot 0 was not on the way: the new record is not below it, on either side.
    assert!(!subtree_has(&procs, Some(0), 3));
    let mut slots = Vec::new();
    walk(&procs, tree.root, &mut slots);
    assert_eq!(slots, vec![0, 1, 2, 3]);
}

#[test]
fn an_equal_key_goes_into_the_right_subtree_of_the_node_it_meets() {
    let mut procs = table(&[10, 10]);
    let mut tree = RedBlackTree::new(1);
    insert_process(&mut tree, &mut procs, 0);
    insert_process(&mut tree, &mut procs, 1);
    assert_eq!(tree.root, Some(0));
    assert_eq!(procs[0].right_node, Some(1));
    assert_eq!(procs[0].left_node, None);
    assert_eq!(procs[1].parent_node, Some(0));
}

#[test]
fn a_lesser_key_goes_left() {
    let mut procs = table(&[10, 9]);
    let mut tree = RedBlackTree::new(1);
    insert_process(&mut tree, &mut procs, 0);
    insert_process(&mut tree, &mut procs, 1);
    assert_eq!(procs[0].left_node, Some(1));
    assert_eq!(procs[0].right_node, None);
    assert_eq!(tree.min_vruntime, Some(1));
}

#[test]
fn either_order_of_two_late_arrivals_fills_the_queue_once() {
    for first in [63usize, 64usize] {
        let second = 127 - first;
        let keys: Vec<i32> = (0..65).map(|i| 100 - i).collect();
        let mut procs = table(&keys);
        let mut tree = RedBlackTree::new(1);
        for p in 0..63 {
            insert_process(&mut tree, &mut procs, p);
        }
        // Whichever of the two gets hold of the queue first takes the place.
        assert!(!tree.lock.holding());
        insert_process(&mut tree, &mut procs, first);
        assert!(!tree.lock.holding());
        assert_eq!(tree.num_of_nodes, 64);
        let snapshot = procs.clone();
        insert_process(&mut tree, &mut procs, second);
        assert!(!tree.lock.holding());
        assert_eq!(tree.num_of_nodes, 64);
        assert_eq!(procs, snapshot);
        assert!(is_queued(&tree, &procs, first));
        assert!(!is_queued(&tree, &procs, second));
        let order = keys_in_order(&tree, &procs);
        assert_eq!(order.len(), 64);
        for w in order.windows(2) {
            assert!(w[0] <= w[1]);
        }
    }
}
