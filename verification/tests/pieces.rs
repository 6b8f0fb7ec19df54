use cfs_tree::insert::{insert_process, update_inserted_process_and_tree_properties};
use cfs_tree::lookup::{get_minimum_vruntime_proc, is_queued};
use cfs_tree::process::{set_color, set_left, set_parent, set_right, Proc, ProcColor, ProcState};
use cfs_tree::rebalance::{
    get_uncle, l_and_lr_situations, mend_red_pair, r_and_rl_situations, recolor_and_rotate,
};
use cfs_tree::rotate::{rotate_left, rotate_right};
use cfs_tree::spinlock::Spinlock;
use cfs_tree::tree::RedBlackTree;

fn record(v_runtime: i32) -> Proc {
    Proc {
        pid: v_runtime,
        state: ProcState::SLEEPING,
        weight: 1,
        v_runtime,
        niceness: 0,
        current_run: 0,
        max_exectime: 0,
        node_color: ProcColor::BLACK,
        left_node: None,
        right_node: None,
        parent_node: None,
    }
}

/// Seven records in a full tree of three levels:
/// slot 3 (key 40) on top, slots 1 and 5 below, slots 0, 2, 4, 6 at the bottom.
fn seven() -> (RedBlackTree, Vec<Proc>) {
    let mut procs: Vec<Proc> = (1..8).map(|i| record(i * 10 + 10)).collect();
    let mut tree = RedBlackTree::new(1);
    for p in [3usize, 1, 5, 0, 2, 4, 6] {
        insert_process(&mut tree, &mut procs, p);
    }
    assert_eq!(tree.root, Some(3));
    assert_eq!((procs[3].left_node, procs[3].right_node), (Some(1), Some(5)));
    assert_eq!((procs[1].left_node, procs[1].right_node), (Some(0), Some(2)));
    assert_eq!((procs[5].left_node, procs[5].right_node), (Some(4), Some(6)));
    (tree, procs)
}

fn links(p: &Proc) -> (Option<usize>, Option<usize>, Option<usize>) {
    (p.parent_node, p.left_node, p.right_node)
}

#[test]
fn an_empty_queue_has_nothing_to_run() {
    let tree = RedBlackTree::new(42);
    let procs: Vec<Proc> = vec![record(1)];
    assert_eq!(tree.num_of_nodes, 0);
    assert_eq!(tree.total_weight, 0);
    assert_eq!(tree.root, None);
    assert_eq!(tree.min_vruntime, None);
    assert_eq!(tree.period, 42);
    assert!(!tree.lock.locked);
    assert_eq!(get_minimum_vruntime_proc(&tree, &procs, tree.root), None);
    assert_eq!(get_minimum_vruntime_proc(&tree, &procs, None), None);
    assert!(!is_queued(&tree, &procs, 0));
    assert!(!is_queued(&tree, &procs, 5));
}

#[test]
fn a_single_record_is_a_black_root() {
    let mut procs: Vec<Proc> = vec![record(5)];
    procs[0].node_color = ProcColor::RED;
    procs[0].parent_node = Some(0);
    let mut tree = RedBlackTree::new(1);
    insert_process(&mut tree, &mut procs, 0);
    assert_eq!(tree.root, Some(0));
    assert_eq!(tree.min_vruntime, Some(0));
    assert_eq!(tree.num_of_nodes, 1);
    assert_eq!(tree.total_weight, 1);
    assert_eq!(links(&procs[0]), (None, None, None));
    assert_eq!(procs[0].node_color, ProcColor::BLACK);
    assert_eq!(procs[0].state, ProcState::SLEEPING);
    assert!(is_queued(&tree, &procs, 0));
}

#[test]
fn the_minimum_of_a_subtree_is_its_leftmost_node() {
    let (tree, procs) = seven();
    assert_eq!(get_minimum_vruntime_proc(&tree, &procs, Some(3)), Some(0));
    assert_eq!(get_minimum_vruntime_proc(&tree, &procs, Some(1)), Some(0));
    assert_eq!(get_minimum_vruntime_proc(&tree, &procs, Some(5)), Some(4));
    assert_eq!(get_minimum_vruntime_proc(&tree, &procs, Some(2)), Some(2));
    assert_eq!(get_minimum_vruntime_proc(&tree, &procs, Some(6)), Some(6));
    assert_eq!(get_minimum_vruntime_proc(&tree, &procs, None), None);
}

#[test]
fn the_uncle_is_the_sibling_of_the_parent() {
    let (tree, procs) = seven();
    assert_eq!(get_uncle(&tree, &procs, 0), Some(5));
    assert_eq!(get_uncle(&tree, &procs, 2), Some(5));
    assert_eq!(get_uncle(&tree, &procs, 4), Some(1));
    assert_eq!(get_uncle(&tree, &procs, 6), Some(1));
    // No grandparent, no uncle.
    assert_eq!(get_uncle(&tree, &procs, 1), None);
    assert_eq!(get_uncle(&tree, &procs, 5), None);
    assert_eq!(get_uncle(&tree, &procs, 3), None);
}

#[test]
fn an_only_child_has_no_sibling_to_be_an_uncle() {
    let mut procs: Vec<Proc> = vec![record(10), record(20), record(5), record(15)];
    let mut tree = RedBlackTree::new(1);
    for p in 0..4 {
        insert_process(&mut tree, &mut procs, p);
    }
    // 15 hangs under 20 under 10; the other child of 10 is 5.
    assert_eq!(get_uncle(&tree, &procs, 3), Some(2));
    let mut procs: Vec<Proc> = vec![record(10), record(20)];
    let mut tree = RedBlackTree::new(1);
    for p in 0..2 {
        insert_process(&mut tree, &mut procs, p);
    }
    assert_eq!(get_uncle(&tree, &procs, 1), None);
}

#[test]
fn a_left_rotation_about_the_root_brings_the_right_child_up() {
    let (mut tree, mut procs) = seven();
    tree.lock.acquire();
    let colors: Vec<ProcColor> = procs.iter().map(|p| p.node_color).collect();
    rotate_left(&mut tree, &mut procs, 3);
    assert_eq!(tree.root, Some(5));
    assert_eq!(links(&procs[5]), (None, Some(3), Some(6)));
    assert_eq!(links(&procs[3]), (Some(5), Some(1), Some(4)));
    assert_eq!(links(&procs[4]), (Some(3), None, None));
    assert_eq!(links(&procs[1]), (Some(3), Some(0), Some(2)));
    assert_eq!(links(&procs[6]), (Some(5), None, None));
    assert_eq!(links(&procs[0]), (Some(1), None, None));
    assert_eq!(links(&procs[2]), (Some(1), None, None));
    assert_eq!(procs.iter().map(|p| p.node_color).collect::<Vec<_>>(), colors);
    assert_eq!(tree.num_of_nodes, 7);
    assert_eq!(tree.total_weight, 7);
}

#[test]
fn a_right_rotation_below_the_root_relinks_the_parent() {
    let (mut tree, mut procs) = seven();
    tree.lock.acquire();
    rotate_right(&mut tree, &mut procs, 5);
    assert_eq!(tree.root, Some(3));
    assert_eq!(links(&procs[3]), (None, Some(1), Some(4)));
    assert_eq!(links(&procs[4]), (Some(3), None, Some(5)));
    assert_eq!(links(&procs[5]), (Some(4), None, Some(6)));
    assert_eq!(links(&procs[6]), (Some(5), None, None));
    assert_eq!(links(&procs[1]), (Some(3), Some(0), Some(2)));

    rotate_right(&mut tree, &mut procs, 1);
    assert_eq!(links(&procs[3]), (None, Some(0), Some(4)));
    assert_eq!(links(&procs[0]), (Some(3), None, Some(1)));
    assert_eq!(links(&procs[1]), (Some(0), None, Some(2)));
    assert_eq!(links(&procs[2]), (Some(1), None, None));
}

#[test]
fn a_rotation_hands_the_inner_subtree_over() {
    let (mut tree, mut procs) = seven();
    tree.lock.acquire();
    rotate_right(&mut tree, &mut procs, 3);
    // 1 comes up; its right subtree (slot 2) becomes the left subtree of 3.
    assert_eq!(tree.root, Some(1));
    assert_eq!(links(&procs[1]), (None, Some(0), Some(3)));
    assert_eq!(links(&procs[3]), (Some(1), Some(2), Some(5)));
    assert_eq!(links(&procs[2]), (Some(3), None, None));
}

#[test]
fn opposite_rotations_undo_each_other() {
    let (mut tree, mut procs) = seven();
    tree.lock.acquire();
    let before = procs.clone();
    rotate_left(&mut tree, &mut procs, 3);
    assert!(procs != before);
    rotate_right(&mut tree, &mut procs, 5);
    assert_eq!(procs, before);
    assert_eq!(tree.root, Some(3));
    rotate_right(&mut tree, &mut procs, 1);
    rotate_left(&mut tree, &mut procs, 0);
    assert_eq!(procs, before);
}

#[test]
fn rotations_keep_the_order_from_left_to_right() {
    fn walk(procs: &Vec<Proc>, at: Option<usize>, out: &mut Vec<usize>) {
        if let Some(i) = at {
            walk(procs, procs[i].left_node, out);
            out.push(i);
            walk(procs, procs[i].right_node, out);
        }
    }
    let (mut tree, mut procs) = seven();
    tree.lock.acquire();
    rotate_left(&mut tree, &mut procs, 1);
    rotate_right(&mut tree, &mut procs, 3);
    rotate_left(&mut tree, &mut procs, 5);
    let mut order = Vec::new();
    walk(&procs, tree.root, &mut order);
    assert_eq!(order, vec![0, 1, 2, 3, 4, 5, 6]);
    for p in 0..7 {
        assert!(is_queued(&tree, &procs, p));
    }
}

#[test]
fn only_linked_records_count_as_queued() {
    let mut procs: Vec<Proc> = (0..6).map(|i| record(i)).collect();
    let mut tree = RedBlackTree::new(1);
    for p in [0usize, 2, 4] {
        insert_process(&mut tree, &mut procs, p);
    }
    // An outsider that claims a queued record as its parent is not queued.
    procs[1].parent_node = Some(2);
    // Nor is one whose links run in a circle.
    procs[3].parent_node = Some(5);
    procs[5].parent_node = Some(3);
    procs[3].left_node = Some(5);
    procs[5].left_node = Some(3);
    for p in 0..6 {
        assert_eq!(is_queued(&tree, &procs, p), p % 2 == 0);
    }
    assert!(!is_queued(&tree, &procs, 6));
    assert!(!is_queued(&tree, &procs, usize::MAX));
}

#[test]
fn the_guard_is_taken_and_given_back() {
    let mut lock = Spinlock::new();
    assert!(!lock.holding());
    lock.acquire();
    assert!(lock.holding());
    assert!(lock.locked);
    lock.release();
    assert!(!lock.holding());
    lock.acquire();
    assert!(lock.holding());
}

#[test]
fn setters_change_one_field_of_one_record() {
    let mut procs: Vec<Proc> = vec![record(1), record(2), record(3)];
    let before = procs.clone();
    set_left(&mut procs, 1, Some(0));
    assert_eq!(procs[1].left_node, Some(0));
    set_right(&mut procs, 1, Some(2));
    assert_eq!(procs[1].right_node, Some(2));
    set_parent(&mut procs, 1, Some(1));
    assert_eq!(procs[1].parent_node, Some(1));
    set_color(&mut procs, 1, ProcColor::RED);
    assert_eq!(procs[1].node_color, ProcColor::RED);
    assert_eq!(procs[0], before[0]);
    assert_eq!(procs[2], before[2]);
    let mut expected = before[1];
    expected.left_node = Some(0);
    expected.right_node = Some(2);
    expected.parent_node = Some(1);
    expected.node_color = ProcColor::RED;
    assert_eq!(procs[1], expected);
    set_left(&mut procs, 1, None);
    set_color(&mut procs, 1, ProcColor::BLACK);
    assert_eq!(procs[1].left_node, None);
    assert_eq!(procs[1].node_color, ProcColor::BLACK);
}

/// Hangs `child` as a red leaf under `parent`, the way the descent leaves it.
fn hang(procs: &mut Vec<Proc>, parent: usize, child: usize, on_the_left: bool) {
    if on_the_left {
        set_left(procs, parent, Some(child));
    } else {
        set_right(procs, parent, Some(child));
    }
    set_parent(procs, child, Some(parent));
    set_color(procs, child, ProcColor::RED);
    set_left(procs, child, None);
    set_right(procs, child, None);
}

/// A black root in slot 0 with a red child in slot 1, and slot 2 hung red
/// under that child: a red pair with no uncle.
fn red_pair(keys: [i32; 3], parent_on_the_left: bool, child_on_the_left: bool) -> (RedBlackTree, Vec<Proc>) {
    let mut procs: Vec<Proc> = keys.iter().map(|k| record(*k)).collect();
    let mut tree = RedBlackTree::new(1);
    insert_process(&mut tree, &mut procs, 0);
    insert_process(&mut tree, &mut procs, 1);
    assert_eq!(tree.root, Some(0));
    if parent_on_the_left {
        assert_eq!(links(&procs[0]), (None, Some(1), None));
    } else {
        assert_eq!(links(&procs[0]), (None, None, Some(1)));
    }
    assert_eq!(procs[1].node_color, ProcColor::RED);
    hang(&mut procs, 1, 2, child_on_the_left);
    // What follows is a step of an insertion: the guard is held.
    tree.lock.acquire();
    (tree, procs)
}

fn colors(procs: &Vec<Proc>) -> Vec<ProcColor> {
    procs.iter().map(|p| p.node_color).collect()
}

#[test]
fn an_outer_pair_on_the_left_is_lifted_by_one_rotation() {
    let (mut tree, mut procs) = red_pair([30, 20, 10], true, true);
    l_and_lr_situations(&mut tree, &mut procs, 2, 1, 0);
    assert_eq!(tree.root, Some(1));
    assert_eq!(links(&procs[1]), (None, Some(2), Some(0)));
    assert_eq!(links(&procs[2]), (Some(1), None, None));
    assert_eq!(links(&procs[0]), (Some(1), None, None));
    assert_eq!(colors(&procs), vec![ProcColor::RED, ProcColor::BLACK, ProcColor::RED]);
}

#[test]
fn an_inner_pair_on_the_left_is_straightened_first() {
    let (mut tree, mut procs) = red_pair([30, 10, 20], true, false);
    l_and_lr_situations(&mut tree, &mut procs, 2, 1, 0);
    assert_eq!(tree.root, Some(2));
    assert_eq!(links(&procs[2]), (None, Some(1), Some(0)));
    assert_eq!(links(&procs[1]), (Some(2), None, None));
    assert_eq!(links(&procs[0]), (Some(2), None, None));
    assert_eq!(colors(&procs), vec![ProcColor::RED, ProcColor::RED, ProcColor::BLACK]);
}

#[test]
fn an_outer_pair_on_the_right_is_lifted_by_one_rotation() {
    let (mut tree, mut procs) = red_pair([10, 20, 30], false, false);
    r_and_rl_situations(&mut tree, &mut procs, 2, 1, 0);
    assert_eq!(tree.root, Some(1));
    assert_eq!(links(&procs[1]), (None, Some(0), Some(2)));
    assert_eq!(links(&procs[0]), (Some(1), None, None));
    assert_eq!(links(&procs[2]), (Some(1), None, None));
    assert_eq!(colors(&procs), vec![ProcColor::RED, ProcColor::BLACK, ProcColor::RED]);
}

#[test]
fn an_inner_pair_on_the_right_is_straightened_first() {
    let (mut tree, mut procs) = red_pair([10, 30, 20], false, true);
    r_and_rl_situations(&mut tree, &mut procs, 2, 1, 0);
    assert_eq!(tree.root, Some(2));
    assert_eq!(links(&procs[2]), (None, Some(0), Some(1)));
    assert_eq!(links(&procs[0]), (Some(2), None, None));
    assert_eq!(links(&procs[1]), (Some(2), None, None));
    assert_eq!(colors(&procs), vec![ProcColor::RED, ProcColor::RED, ProcColor::BLACK]);
}

#[test]
fn a_red_uncle_is_answered_by_recoloring_alone() {
    let mut procs: Vec<Proc> = vec![record(20), record(10), record(30), record(5)];
    let mut tree = RedBlackTree::new(1);
    for p in 0..3 {
        insert_process(&mut tree, &mut procs, p);
    }
    assert_eq!(colors(&procs)[..3], [ProcColor::BLACK, ProcColor::RED, ProcColor::RED]);
    hang(&mut procs, 1, 3, true);
    tree.lock.acquire();
    let links_before: Vec<_> = procs.iter().map(links).collect();
    mend_red_pair(&mut tree, &mut procs, 3, 1, 0);
    // Parent and uncle black; the grandparent turned red and, being the
    // root, black again.
    assert_eq!(
        colors(&procs),
        vec![ProcColor::BLACK, ProcColor::BLACK, ProcColor::BLACK, ProcColor::RED]
    );
    assert_eq!(procs.iter().map(links).collect::<Vec<_>>(), links_before);
    assert_eq!(tree.root, Some(0));
}

#[test]
fn the_walk_leaves_a_red_leaf_under_a_black_parent_alone() {
    let mut procs: Vec<Proc> = vec![record(20), record(10)];
    let mut tree = RedBlackTree::new(1);
    insert_process(&mut tree, &mut procs, 0);
    hang(&mut procs, 0, 1, true);
    tree.lock.acquire();
    let before = procs.clone();
    recolor_and_rotate(&mut tree, &mut procs, 1);
    assert_eq!(procs, before);
    assert_eq!(tree.root, Some(0));
}

#[test]
fn the_walk_blackens_a_red_root() {
    let mut procs: Vec<Proc> = vec![record(20)];
    let mut tree = RedBlackTree::new(1);
    insert_process(&mut tree, &mut procs, 0);
    set_color(&mut procs, 0, ProcColor::RED);
    tree.lock.acquire();
    recolor_and_rotate(&mut tree, &mut procs, 0);
    assert_eq!(procs[0].node_color, ProcColor::BLACK);
    assert_eq!(links(&procs[0]), (None, None, None));
}

#[test]
fn the_walk_rotates_where_there_is_no_uncle() {
    let (mut tree, mut procs) = red_pair([30, 20, 10], true, true);
    recolor_and_rotate(&mut tree, &mut procs, 2);
    assert_eq!(tree.root, Some(1));
    assert_eq!(links(&procs[1]), (None, Some(2), Some(0)));
    assert_eq!(colors(&procs), vec![ProcColor::RED, ProcColor::BLACK, ProcColor::RED]);
}

#[test]
fn the_books_take_one_node_and_its_weight() {
    let mut procs: Vec<Proc> = vec![record(1), record(2)];
    procs[1].weight = 88761;
    let mut tree = RedBlackTree::new(9);
    tree.lock.acquire();
    update_inserted_process_and_tree_properties(&mut tree, &procs, 1);
    assert_eq!(tree.num_of_nodes, 1);
    assert_eq!(tree.total_weight, 88761);
    procs[0].weight = -15;
    update_inserted_process_and_tree_properties(&mut tree, &procs, 0);
    assert_eq!(tree.num_of_nodes, 2);
    assert_eq!(tree.total_weight, 88746);
    assert_eq!(tree.root, None);
    assert_eq!(tree.min_vruntime, None);
    assert_eq!(tree.period, 9);
    assert!(tree.lock.holding());
}
