use cfs_tree::insert::insert_process;
use cfs_tree::lookup::{get_minimum_vruntime_proc, is_queued};
use cfs_tree::process::{Proc, ProcColor, ProcState};
use cfs_tree::tree::RedBlackTree;

fn record(pid: i32, v_runtime: i32, weight: i32) -> Proc {
    Proc {
        pid,
        state: ProcState::RUNNABLE,
        weight,
        v_runtime,
        niceness: pid % 40 - 20,
        current_run: pid * 3,
        max_exectime: pid * 5,
        node_color: ProcColor::BLACK,
        left_node: None,
        right_node: None,
        parent_node: None,
    }
}

struct Audit {
    blacks: u32,
    count: i32,
    weight: i64,
}

/// Walks the subtree under `at` and panics on any breach of the tree rules.
fn audit(
    procs: &Vec<Proc>,
    at: Option<usize>,
    parent: Option<usize>,
    lo: Option<i32>,
    hi: Option<i32>,
) -> Audit {
    match at {
        None => Audit { blacks: 0, count: 0, weight: 0 },
        Some(i) => {
            let me = &procs[i];
            assert_eq!(me.parent_node, parent, "parent link of slot {}", i);
            if let Some(lo) = lo {
                assert!(lo <= me.v_runtime, "slot {} is below a key to its left", i);
            }
            if let Some(hi) = hi {
                assert!(me.v_runtime <= hi, "slot {} is above a key to its right", i);
            }
            if me.node_color == ProcColor::RED {
                for child in [me.left_node, me.right_node] {
                    if let Some(c) = child {
                        assert_eq!(procs[c].node_color, ProcColor::BLACK, "red {} has red child {}", i, c);
                    }
                }
            }
            let l = audit(procs, me.left_node, Some(i), lo, Some(me.v_runtime));
            let r = audit(procs, me.right_node, Some(i), Some(me.v_runtime), hi);
            assert_eq!(l.blacks, r.blacks, "black heights differ under slot {}", i);
            let own = if me.node_color == ProcColor::BLACK { 1 } else { 0 };
            Audit {
                blacks: l.blacks + own,
                count: l.count + r.count + 1,
                weight: l.weight + r.weight + me.weight as i64,
            }
        }
    }
}

fn height(procs: &Vec<Proc>, at: Option<usize>) -> u32 {
    match at {
        None => 0,
        Some(i) => 1 + height(procs, procs[i].left_node).max(height(procs, procs[i].right_node)),
    }
}

fn leftmost(procs: &Vec<Proc>, at: Option<usize>) -> Option<usize> {
    let mut cur = at?;
    while let Some(l) = procs[cur].left_node {
        cur = l;
    }
    Some(cur)
}

fn in_order(procs: &Vec<Proc>, at: Option<usize>, out: &mut Vec<usize>) {
    if let Some(i) = at {
        in_order(procs, procs[i].left_node, out);
        out.push(i);
        in_order(procs, procs[i].right_node, out);
    }
}

/// Inserts all records in turn and audits the tree after each insertion.
fn fill_and_audit(keys: &[i32], weights: &[i32]) {
    let mut procs: Vec<Proc> = Vec::new();
    for i in 0..keys.len() {
        procs.push(record(i as i32, keys[i], weights[i]));
    }
    let untouched = procs.clone();
    let mut tree = RedBlackTree::new(20);
    let mut expected_order: Vec<usize> = Vec::new();
    let mut expected_weight: i64 = 0;
    for p in 0..keys.len() {
        insert_process(&mut tree, &mut procs, p);

        // The books.
        if p < 64 {
            // Behind all queued keys that are not above the new one.
            let at = expected_order.iter().take_while(|e| keys[**e] <= keys[p]).count();
            // In a sorted order the leading run is all of them.
            assert_eq!(at, expected_order.iter().filter(|e| keys[**e] <= keys[p]).count());
            expected_order.insert(at, p);
            expected_weight += weights[p] as i64;
        }
        let root = tree.root.expect("a root");
        assert_eq!(procs[root].node_color, ProcColor::BLACK);
        let found = audit(&procs, tree.root, None, None, None);
        assert_eq!(found.count, tree.num_of_nodes);
        assert_eq!(found.count as usize, expected_order.len());
        assert_eq!(found.weight, tree.total_weight);
        assert_eq!(tree.total_weight, expected_weight);

        // The depth: at most twice the black height, which the size bounds.
        let deep = height(&procs, tree.root);
        assert!(deep <= 2 * found.blacks);
        assert!(2i64.pow(found.blacks) <= found.count as i64 + 1);
        assert!(found.blacks <= 6);
        assert!(deep <= 12);

        // The order.
        let mut order = Vec::new();
        in_order(&procs, tree.root, &mut order);
        assert_eq!(order, expected_order);

        // The cached minimum.
        assert_eq!(tree.min_vruntime, leftmost(&procs, tree.root));
        assert_eq!(tree.min_vruntime, get_minimum_vruntime_proc(&tree, &procs, tree.root));
        assert_eq!(tree.min_vruntime, Some(expected_order[0]));

        // The guard and the period.
        assert!(!tree.lock.holding());
        assert_eq!(tree.period, 20);

        // Nothing but links and colors changes, and only for queued records.
        for i in 0..procs.len() {
            let mut same = procs[i];
            same.node_color = untouched[i].node_color;
            same.left_node = untouched[i].left_node;
            same.right_node = untouched[i].right_node;
            same.parent_node = untouched[i].parent_node;
            assert_eq!(same, untouched[i]);
            assert_eq!(is_queued(&tree, &procs, i), expected_order.contains(&i));
            if !expected_order.contains(&i) {
                assert_eq!(procs[i], untouched[i]);
            }
        }
    }
}

#[test]
fn rising_keys_stay_sound() {
    let keys: Vec<i32> = (0..64).collect();
    let weights: Vec<i32> = (0..64).map(|i| i + 1).collect();
    fill_and_audit(&keys, &weights);
}

#[test]
fn falling_keys_stay_sound() {
    let keys: Vec<i32> = (0..64).map(|i| 1000 - 7 * i).collect();
    let weights: Vec<i32> = vec![1024; 64];
    fill_and_audit(&keys, &weights);
}

#[test]
fn scattered_keys_stay_sound() {
    let mut seed: u32 = 12345;
    for _ in 0..25 {
        let mut keys = Vec::new();
        let mut weights = Vec::new();
        for _ in 0..70 {
            seed = seed.wrapping_mul(1103515245).wrapping_add(12345);
            keys.push(((seed >> 16) % 2000) as i32 - 1000);
            seed = seed.wrapping_mul(1103515245).wrapping_add(12345);
            weights.push(((seed >> 16) % 90000) as i32);
        }
        fill_and_audit(&keys, &weights);
    }
}

#[test]
fn many_equal_keys_stay_sound() {
    let mut seed: u32 = 99;
    for _ in 0..25 {
        let mut keys = Vec::new();
        for _ in 0..64 {
            seed = seed.wrapping_mul(1103515245).wrapping_add(12345);
            keys.push(((seed >> 16) % 4) as i32);
        }
        fill_and_audit(&keys, &vec![3; 64]);
    }
    fill_and_audit(&vec![7; 64], &vec![1; 64]);
}

#[test]
fn extreme_keys_and_weights_stay_sound() {
    let mut keys = Vec::new();
    let mut weights = Vec::new();
    for i in 0..64 {
        keys.push(match i % 4 {
            0 => i32::MIN,
            1 => i32::MAX,
            2 => -1,
            _ => 0,
        });
        weights.push(if i % 2 == 0 { i32::MAX } else { i32::MIN });
    }
    fill_and_audit(&keys, &weights);
}

#[test]
fn the_weight_total_holds_sixty_four_times_the_largest_weight() {
    let mut procs: Vec<Proc> = (0..64).map(|i| record(i, i, i32::MAX)).collect();
    let mut tree = RedBlackTree::new(1);
    for p in 0..64 {
        insert_process(&mut tree, &mut procs, p);
    }
    assert_eq!(tree.total_weight, 64 * 2147483647i64);
    assert_eq!(tree.total_weight, 137438953408);

    let mut procs: Vec<Proc> = (0..64).map(|i| record(i, i, i32::MIN)).collect();
    let mut tree = RedBlackTree::new(1);
    for p in 0..64 {
        insert_process(&mut tree, &mut procs, p);
    }
    assert_eq!(tree.total_weight, -137438953472);
}

#[test]
fn stale_links_of_a_new_record_are_forgotten() {
    let mut procs: Vec<Proc> = vec![record(1, 10, 1), record(2, 20, 1), record(3, 30, 1)];
    procs[1].left_node = Some(2);
    procs[1].right_node = Some(0);
    procs[1].parent_node = Some(2);
    procs[0].parent_node = Some(1);
    let mut tree = RedBlackTree::new(1);
    insert_process(&mut tree, &mut procs, 0);
    assert_eq!(procs[0].parent_node, None);
    assert_eq!(procs[0].node_color, ProcColor::BLACK);
    insert_process(&mut tree, &mut procs, 1);
    assert_eq!(procs[1].left_node, None);
    assert_eq!(procs[1].right_node, None);
    assert_eq!(procs[1].parent_node, Some(0));
    assert_eq!(procs[1].node_color, ProcColor::RED);
    let found = audit(&procs, tree.root, None, None, None);
    assert_eq!(found.count, 2);
    assert_eq!(found.blacks, 1);
}

#[test]
fn records_need_not_be_queued_in_table_order() {
    let mut procs: Vec<Proc> = (0..10).map(|i| record(i, 100 - i, 2)).collect();
    let mut tree = RedBlackTree::new(1);
    for p in [7usize, 2, 9, 0, 4] {
        insert_process(&mut tree, &mut procs, p);
    }
    let found = audit(&procs, tree.root, None, None, None);
    assert_eq!(found.count, 5);
    assert_eq!(tree.total_weight, 10);
    let mut order = Vec::new();
    in_order(&procs, tree.root, &mut order);
    assert_eq!(order, vec![9, 7, 4, 2, 0]);
    for i in [1usize, 3, 5, 6, 8] {
        assert!(!is_queued(&tree, &procs, i));
        assert_eq!(procs[i], record(i as i32, 100 - i as i32, 2));
    }
}
