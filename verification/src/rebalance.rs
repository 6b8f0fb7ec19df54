//! Rebalancing after an insertion: the walk from the new node towards the
//! root that puts the red-black rules back in force by recoloring and
//! rotating.

use vstd::prelude::*;
use crate::invariants::{
    lemma_child, lemma_color_frame, lemma_linked_frame, lemma_linked_range, lemma_linked_subtree,
    linked, red, weight_sum,
};
use crate::mending::{
    lemma_blacken_root, lemma_line_left, lemma_line_right, lemma_recolor, lemma_red_pair,
    lemma_triangle_left, lemma_triangle_right, painted, red_pair, unpainted,
};
use crate::process::{set_color, Proc, ProcColor};
use crate::rotate::{lemma_left_parties, lemma_right_parties, rotate_left, rotate_right};
use crate::shape::{lemma_node_slots, lemma_subtree, Shape};
use crate::tree::RedBlackTree;
use crate::walk::{blackened, colors_of, lemma_painted_colors, mended, repainted, walked};

verus! {

/// The slot `x` is red under its red parent `p`, which hangs under `g`;
/// nothing else is amiss in the tree, and its guard is held.
pub open spec fn red_under_red(
    tree: RedBlackTree,
    procs: Seq<Proc>,
    x: usize,
    p: usize,
    g: usize,
) -> bool {
    &&& tree.lock.locked
    &&& tree.mending(procs, x)
    &&& procs[x as int].parent_node == Some(p)
    &&& procs[p as int].parent_node == Some(g)
    &&& red(procs, p)
}

/// Whether `x` has an uncle and that uncle is red.
pub open spec fn red_uncle(procs: Seq<Proc>, t: Shape, x: usize) -> bool {
    match t.uncle_of(x) {
        Some(u) => red(procs, u),
        None => false,
    }
}

/// The uncle of a red pair, looked up through the links, is black or absent.
pub open spec fn uncle_black(procs: Seq<Proc>, p: usize, g: usize) -> bool {
    &&& procs[g as int].left_node == Some(p) ==> (procs[g as int].right_node matches Some(u) ==> !red(
        procs,
        u,
    ))
    &&& procs[g as int].left_node != Some(p) ==> (procs[g as int].left_node matches Some(u) ==> !red(
        procs,
        u,
    ))
}

/// Where the links show a red pair, the shape shows it too: the three
/// generations hang under each other on the sides the links name.
pub proof fn lemma_generations(tree: RedBlackTree, procs: Seq<Proc>, x: usize, p: usize, g: usize)
    requires
        red_under_red(tree, procs, x, p, g),
    ensures
        red_pair(procs, tree@, x, p, g),
        x < procs.len() && p < procs.len() && g < procs.len(),
        x != p && p != g && x != g,
        !red(procs, g),
        procs[p as int].left_node == Some(x) || procs[p as int].right_node == Some(x),
        procs[p as int].left_node == Some(x) ==> tree@.subtree(p).lt() == tree@.subtree(x),
        procs[p as int].right_node == Some(x) ==> tree@.subtree(p).rt() == tree@.subtree(x),
        tree@.subtree(p).lt() != tree@.subtree(p).rt(),
        procs[g as int].left_node == Some(p) || procs[g as int].right_node == Some(p),
        procs[g as int].left_node == Some(p) ==> tree@.subtree(g).lt() == tree@.subtree(p),
        procs[g as int].right_node == Some(p) ==> tree@.subtree(g).rt() == tree@.subtree(p),
        tree@.subtree(g).lt() != tree@.subtree(g).rt(),
        procs[g as int].left_node == tree@.subtree(g).lt().root(),
        procs[g as int].right_node == tree@.subtree(g).rt().root(),
        procs[p as int].left_node == tree@.subtree(p).lt().root(),
        procs[p as int].right_node == tree@.subtree(p).rt().root(),
        tree@.parent_of(x) == Some(p),
        tree@.parent_of(p) == Some(g),
        tree@.subtree(x).root() == Some(x),
        tree@.subtree(p).root() == Some(p),
        tree@.subtree(g).root() == Some(g),
        tree@.subtree(x).size() < tree@.subtree(g).size(),
        tree@.subtree(g).size() <= tree@.size(),
{
    let t = tree@;
    lemma_linked_range(procs, t, tree.root, None);
    lemma_child(procs, t, tree.root, x, p);
    lemma_child(procs, t, tree.root, p, g);
    lemma_red_pair(procs, t, x, p, g);
}

/// The sibling of the parent of `x`, read off the links; none where `x` has
/// no grandparent or the grandparent no second child.
pub fn get_uncle(tree: &RedBlackTree, procs: &Vec<Proc>, x: usize) -> (uncle: Option<usize>)
    requires
        tree@.distinct(),
        linked(procs@, tree@, tree.root, None),
        tree@.slots().contains(x),
    ensures
        uncle == tree@.uncle_of(x),
{
    proof {
        lemma_linked_subtree(procs@, tree@, tree.root, None, x);
    }
    match procs[x].parent_node {
        None => None,
        Some(p) => {
            proof {
                lemma_child(procs@, tree@, tree.root, x, p);
                lemma_linked_subtree(procs@, tree@, tree.root, None, p);
            }
            match procs[p].parent_node {
                None => None,
                Some(g) => {
                    proof {
                        lemma_child(procs@, tree@, tree.root, p, g);
                    }
                    if procs[g].left_node == Some(p) {
                        procs[g].right_node
                    } else {
                        procs[g].left_node
                    }
                },
            }
        },
    }
}

/// The outer case on the left, `x` left of `p` left of `g` with a black or
/// absent uncle: rotates right about `g` and colors `p` black and `g` red.
pub fn lift_left(tree: &mut RedBlackTree, procs: &mut Vec<Proc>, x: usize, p: usize, g: usize)
    requires
        red_under_red(*old(tree), old(procs)@, x, p, g),
        old(procs)@[g as int].left_node == Some(p),
        old(procs)@[p as int].left_node == Some(x),
        uncle_black(old(procs)@, p, g),
    ensures
        final(tree)@ == old(tree)@.graft(g, old(tree)@.subtree(g).turned_right()),
        painted(old(procs)@, final(procs)@, p, p, g),
        final(tree).settled(final(procs)@),
        (*final(tree)).rearranged(final(procs)@, *old(tree), old(procs)@),
{
    let ghost t = tree@;
    let ghost was = procs@;
    proof {
        lemma_generations(*tree, was, x, p, g);
    }
    rotate_right(tree, procs, g);
    let ghost now = procs@;
    set_color(procs, p, ProcColor::BLACK);
    set_color(procs, g, ProcColor::RED);
    proof {
        let last = procs@;
        lemma_line_left(was, last, t, x, p, g);
        lemma_linked_frame(now, last, tree@, tree.root, None);
    }
}

/// The inner case on the left, `x` right of `p` left of `g`: rotates left
/// about `p`, after which `p` is the red child on the outside, under `x`.
pub fn straighten_left(tree: &mut RedBlackTree, procs: &mut Vec<Proc>, x: usize, p: usize, g: usize)
    requires
        red_under_red(*old(tree), old(procs)@, x, p, g),
        old(procs)@[g as int].left_node == Some(p),
        old(procs)@[p as int].right_node == Some(x),
        uncle_black(old(procs)@, p, g),
    ensures
        red_under_red(*final(tree), final(procs)@, p, x, g),
        final(procs)@[g as int].left_node == Some(x),
        final(procs)@[x as int].left_node == Some(p),
        uncle_black(final(procs)@, x, g),
        final(tree)@ == old(tree)@.graft(p, old(tree)@.subtree(p).turned_left()),
        unpainted(old(procs)@, final(procs)@),
        (*final(tree)).rearranged(final(procs)@, *old(tree), old(procs)@),
{
    let ghost t = tree@;
    let ghost was = procs@;
    proof {
        lemma_generations(*tree, was, x, p, g);
        lemma_left_parties(was, t, tree.root, p);
    }
    rotate_left(tree, procs, p);
    proof {
        let now = procs@;
        lemma_triangle_left(was, now, t, x, p, g);
        if was[g as int].right_node is Some {
            lemma_subtree(t, g);
            lemma_node_slots(t.subtree(g));
            lemma_node_slots(t.subtree(g).rt());
        }
    }
}

/// The two cases with the parent on the left of the grandparent and a black
/// or absent uncle: an inner red child is first rotated to the outside, then
/// the grandparent is rotated the other way, and the new top of the three is
/// colored black over the red grandparent.
pub fn l_and_lr_situations(
    tree: &mut RedBlackTree,
    procs: &mut Vec<Proc>,
    x: usize,
    p: usize,
    g: usize,
)
    requires
        red_under_red(*old(tree), old(procs)@, x, p, g),
        old(procs)@[g as int].left_node == Some(p),
        uncle_black(old(procs)@, p, g),
    ensures
        final(tree)@ == (if old(procs)@[p as int].right_node == Some(x) {
            let straight = old(tree)@.graft(p, old(tree)@.subtree(p).turned_left());
            straight.graft(g, straight.subtree(g).turned_right())
        } else {
            old(tree)@.graft(g, old(tree)@.subtree(g).turned_right())
        }),
        old(procs)@[p as int].right_node == Some(x) ==> painted(old(procs)@, final(procs)@, x, x, g),
        old(procs)@[p as int].right_node != Some(x) ==> painted(old(procs)@, final(procs)@, p, p, g),
        final(tree).settled(final(procs)@),
        (*final(tree)).rearranged(final(procs)@, *old(tree), old(procs)@),
{
    proof {
        lemma_generations(*tree, procs@, x, p, g);
    }
    if procs[p].right_node == Some(x) {
        straighten_left(tree, procs, x, p, g);
        lift_left(tree, procs, p, x, g);
    } else {
        lift_left(tree, procs, x, p, g);
    }
}

/// The outer case on the right, `x` right of `p` right of `g` with a black or
/// absent uncle: rotates left about `g` and colors `p` black and `g` red.
pub fn lift_right(tree: &mut RedBlackTree, procs: &mut Vec<Proc>, x: usize, p: usize, g: usize)
    requires
        red_under_red(*old(tree), old(procs)@, x, p, g),
        old(procs)@[g as int].right_node == Some(p),
        old(procs)@[p as int].right_node == Some(x),
        uncle_black(old(procs)@, p, g),
    ensures
        final(tree)@ == old(tree)@.graft(g, old(tree)@.subtree(g).turned_left()),
        painted(old(procs)@, final(procs)@, p, p, g),
        final(tree).settled(final(procs)@),
        (*final(tree)).rearranged(final(procs)@, *old(tree), old(procs)@),
{
    let ghost t = tree@;
    let ghost was = procs@;
    proof {
        lemma_generations(*tree, was, x, p, g);
    }
    rotate_left(tree, procs, g);
    let ghost now = procs@;
    set_color(procs, p, ProcColor::BLACK);
    set_color(procs, g, ProcColor::RED);
    proof {
        let last = procs@;
        lemma_line_right(was, last, t, x, p, g);
        lemma_linked_frame(now, last, tree@, tree.root, None);
    }
}

/// The inner case on the right, `x` left of `p` right of `g`: rotates right
/// about `p`, after which `p` is the red child on the outside, under `x`.
pub fn straighten_right(tree: &mut RedBlackTree, procs: &mut Vec<Proc>, x: usize, p: usize, g: usize)
    requires
        red_under_red(*old(tree), old(procs)@, x, p, g),
        old(procs)@[g as int].right_node == Some(p),
        old(procs)@[p as int].left_node == Some(x),
        uncle_black(old(procs)@, p, g),
    ensures
        red_under_red(*final(tree), final(procs)@, p, x, g),
        final(procs)@[g as int].right_node == Some(x),
        final(procs)@[x as int].right_node == Some(p),
        uncle_black(final(procs)@, x, g),
        final(tree)@ == old(tree)@.graft(p, old(tree)@.subtree(p).turned_right()),
        unpainted(old(procs)@, final(procs)@),
        (*final(tree)).rearranged(final(procs)@, *old(tree), old(procs)@),
{
    let ghost t = tree@;
    let ghost was = procs@;
    proof {
        lemma_generations(*tree, was, x, p, g);
        lemma_right_parties(was, t, tree.root, p);
    }
    rotate_right(tree, procs, p);
    proof {
        let now = procs@;
        lemma_triangle_right(was, now, t, x, p, g);
        if was[g as int].left_node is Some {
            lemma_subtree(t, g);
            lemma_node_slots(t.subtree(g));
            lemma_node_slots(t.subtree(g).lt());
        }
    }
}

/// The two cases with the parent on the right of the grandparent and a black
/// or absent uncle: an inner red child is first rotated to the outside, then
/// the grandparent is rotated the other way, and the new top of the three is
/// colored black over the red grandparent.
pub fn r_and_rl_situations(
    tree: &mut RedBlackTree,
    procs: &mut Vec<Proc>,
    x: usize,
    p: usize,
    g: usize,
)
    requires
        red_under_red(*old(tree), old(procs)@, x, p, g),
        old(procs)@[g as int].right_node == Some(p),
        uncle_black(old(procs)@, p, g),
    ensures
        final(tree)@ == (if old(procs)@[p as int].left_node == Some(x) {
            let straight = old(tree)@.graft(p, old(tree)@.subtree(p).turned_right());
            straight.graft(g, straight.subtree(g).turned_left())
        } else {
            old(tree)@.graft(g, old(tree)@.subtree(g).turned_left())
        }),
        old(procs)@[p as int].left_node == Some(x) ==> painted(old(procs)@, final(procs)@, x, x, g),
        old(procs)@[p as int].left_node != Some(x) ==> painted(old(procs)@, final(procs)@, p, p, g),
        final(tree).settled(final(procs)@),
        (*final(tree)).rearranged(final(procs)@, *old(tree), old(procs)@),
{
    proof {
        lemma_generations(*tree, procs@, x, p, g);
    }
    if procs[p].left_node == Some(x) {
        straighten_right(tree, procs, x, p, g);
        lift_right(tree, procs, p, x, g);
    } else {
        lift_right(tree, procs, x, p, g);
    }
}

/// The case of a red uncle: colors parent and uncle black and the
/// grandparent red, and goes on rebalancing from the grandparent.
pub fn update_tree(
    tree: &mut RedBlackTree,
    procs: &mut Vec<Proc>,
    parent: usize,
    uncle: usize,
    grandparent: usize,
    Ghost(x): Ghost<usize>,
)
    requires
        red_under_red(*old(tree), old(procs)@, x, parent, grandparent),
        old(tree)@.uncle_of(x) == Some(uncle),
        red(old(procs)@, uncle),
    ensures
        (final(tree)@, colors_of(final(procs)@)) == mended(
            repainted(colors_of(old(procs)@), parent, uncle, grandparent),
            old(tree)@,
            grandparent,
        ),
        final(tree).settled(final(procs)@),
        final(tree).root matches Some(r) ==> !red(final(procs)@, r),
        (*final(tree)).rearranged(final(procs)@, *old(tree), old(procs)@),
    decreases old(tree)@.size() - old(tree)@.subtree(grandparent).size(), 1nat,
{
    let ghost t = tree@;
    let ghost was = procs@;
    proof {
        lemma_generations(*tree, was, x, parent, grandparent);
        lemma_node_slots(t.subtree(grandparent));
        lemma_subtree(t, grandparent);
        if t.subtree(grandparent).lt() == t.subtree(parent) {
            lemma_node_slots(t.subtree(grandparent).rt());
        } else {
            lemma_node_slots(t.subtree(grandparent).lt());
        }
        assert(procs@.len() == procs.len());
    }
    set_color(procs, parent, ProcColor::BLACK);
    set_color(procs, uncle, ProcColor::BLACK);
    set_color(procs, grandparent, ProcColor::RED);
    proof {
        let now = procs@;
        lemma_painted_colors(was, now, parent, uncle, grandparent);
        lemma_recolor(was, now, t, x, parent, uncle, grandparent);
        lemma_linked_frame(was, now, t, tree.root, None);
    }
    recolor_and_rotate(tree, procs, grandparent);
}

/// Colors the root black. With it the one red-red pair that the walk may
/// have left, a red slot `y` directly under a red root, is gone.
pub fn blacken_root(tree: &RedBlackTree, procs: &mut Vec<Proc>, Ghost(y): Ghost<usize>)
    requires
        tree.lock.locked,
        tree.mending(old(procs)@, y) || tree.settled(old(procs)@),
        tree@.slots().contains(y),
        tree@.parent_of(y) matches Some(w) ==> !red(old(procs)@, w) || tree.root == Some(w),
    ensures
        final(procs)@ == (match tree.root {
            Some(r) => old(procs)@.update(
                r as int,
                (Proc { node_color: ProcColor::BLACK, ..old(procs)@[r as int] }),
            ),
            None => old(procs)@,
        }),
        colors_of(final(procs)@) == blackened(colors_of(old(procs)@), tree@.root()),
        tree.settled(final(procs)@),
        tree.root matches Some(r) ==> !red(final(procs)@, r),
        weight_sum(final(procs)@, tree@) == weight_sum(old(procs)@, tree@),
{
    let ghost was = procs@;
    proof {
        lemma_linked_range(was, tree@, tree.root, None);
        lemma_color_frame(was, was, tree@, None, Some(y));
    }
    if let Some(r) = tree.root {
        set_color(procs, r, ProcColor::BLACK);
        proof {
            let now = procs@;
            lemma_blacken_root(was, now, tree@, y);
            lemma_linked_frame(was, now, tree@, tree.root, None);
        }
    }
}

/// Restores the red-black rules after the red slot `x` was hung into the
/// tree. Walks up from `x`: under a black parent nothing is to do; under a
/// red parent with a red uncle the three are recolored and the walk goes on
/// from the grandparent; with a black or absent uncle one or two rotations
/// end the walk. At the end the root is colored black. The caller holds the
/// guard of the tree throughout.
pub fn recolor_and_rotate(tree: &mut RedBlackTree, procs: &mut Vec<Proc>, x: usize)
    requires
        old(tree).lock.locked,
        old(tree).mending(old(procs)@, x),
    ensures
        (final(tree)@, colors_of(final(procs)@)) == mended(colors_of(old(procs)@), old(tree)@, x),
        final(tree).settled(final(procs)@),
        final(tree).root matches Some(r) ==> !red(final(procs)@, r),
        (*final(tree)).rearranged(final(procs)@, *old(tree), old(procs)@),
    decreases old(tree)@.size() - old(tree)@.subtree(x).size(), 0nat,
{
    let ghost t = tree@;
    let ghost was = procs@;
    let ghost mut y = x;
    proof {
        lemma_linked_subtree(was, t, tree.root, None, x);
    }
    match procs[x].parent_node {
        None => {},
        Some(p) => {
            proof {
                lemma_child(was, t, tree.root, x, p);
                lemma_subtree(t, p);
                lemma_linked_subtree(was, t, tree.root, None, p);
            }
            if procs[p].node_color == ProcColor::RED {
                match procs[p].parent_node {
                    None => {},
                    Some(g) => {
                        proof {
                            lemma_generations(*tree, was, x, p, g);
                        }
                        mend_red_pair(tree, procs, x, p, g);
                        proof {
                            y = tree.root->0;
                        }
                    },
                }
            }
        },
    }
    blacken_root(tree, procs, Ghost(y));
}

/// One step of the walk at a red pair, `x` under `p` under `g`: by the color
/// of the uncle and the sides the three hang on, either recolors and walks
/// on from `g`, or rotates and is done.
pub fn mend_red_pair(tree: &mut RedBlackTree, procs: &mut Vec<Proc>, x: usize, p: usize, g: usize)
    requires
        red_under_red(*old(tree), old(procs)@, x, p, g),
    ensures
        final(tree)@ == walked(colors_of(old(procs)@), old(tree)@, x).0,
        colors_of(final(procs)@) == (if red_uncle(old(procs)@, old(tree)@, x) {
            blackened(walked(colors_of(old(procs)@), old(tree)@, x).1, final(tree)@.root())
        } else {
            walked(colors_of(old(procs)@), old(tree)@, x).1
        }),
        red_uncle(old(procs)@, old(tree)@, x) ==> (final(tree).root matches Some(r) ==> !red(
            final(procs)@,
            r,
        )),
        final(tree).settled(final(procs)@),
        (*final(tree)).rearranged(final(procs)@, *old(tree), old(procs)@),
    decreases old(tree)@.size() - old(tree)@.subtree(g).size(), 2nat,
{
    let ghost t = tree@;
    let ghost was = procs@;
    proof {
        lemma_generations(*tree, was, x, p, g);
        assert(procs@.len() == procs.len());
    }
    let uncle = get_uncle(tree, procs, x);
    let mut uncle_red = false;
    if let Some(u) = uncle {
        proof {
            lemma_node_slots(t.subtree(g));
            lemma_subtree(t, g);
            if t.subtree(g).lt() == t.subtree(p) {
                lemma_node_slots(t.subtree(g).rt());
            } else {
                lemma_node_slots(t.subtree(g).lt());
            }
        }
        uncle_red = procs[u].node_color == ProcColor::RED;
    }
    if uncle_red {
        update_tree(tree, procs, p, uncle.unwrap(), g, Ghost(x));
    } else if procs[g].left_node == Some(p) {
        l_and_lr_situations(tree, procs, x, p, g);
    } else {
        r_and_rl_situations(tree, procs, x, p, g);
    }
}

} // verus!
