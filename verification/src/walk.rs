//! The rebalancing walk as a function of shape and colors: what the tree
//! looks like when the walk from a red slot towards the root is over.

use vstd::prelude::*;
use crate::mending::painted;
use crate::planting::grown;
use crate::process::{Proc, ProcColor};
use crate::shape::{lemma_subtree, Shape};

verus! {

/// The colors of the records, slot by slot.
pub open spec fn colors_of(procs: Seq<Proc>) -> Seq<ProcColor> {
    Seq::new(procs.len(), |i: int| procs[i].node_color)
}

/// The colors with `b1` and `b2` black and `r` red.
pub open spec fn repainted(colors: Seq<ProcColor>, b1: usize, b2: usize, r: usize) -> Seq<ProcColor> {
    colors.update(b1 as int, ProcColor::BLACK).update(b2 as int, ProcColor::BLACK).update(
        r as int,
        ProcColor::RED,
    )
}

/// The colors with the root, if there is one, black.
pub open spec fn blackened(colors: Seq<ProcColor>, root: Option<usize>) -> Seq<ProcColor> {
    match root {
        Some(r) => colors.update(r as int, ProcColor::BLACK),
        None => colors,
    }
}

/// Shape and colors at the end of the walk that starts at the red slot `x`,
/// before the root is colored black.
///
/// Under a black parent, or with no parent or no grandparent, nothing
/// changes. Under a red parent with a red uncle, parent and uncle turn black
/// and the grandparent red, and the walk goes on from the grandparent. With a
/// black or absent uncle the walk ends: an inner child is first rotated to
/// the outside about its parent, then the grandparent is rotated away from
/// the pair, and the new top of the three is black over the red grandparent.
pub open spec fn walked(colors: Seq<ProcColor>, t: Shape, x: usize) -> (Shape, Seq<ProcColor>)
    decreases t.size() - t.subtree(x).size(),
{
    if !t.distinct() || !t.slots().contains(x) {
        (t, colors)
    } else {
        match t.parent_of(x) {
            None => (t, colors),
            Some(p) => if colors[p as int] != ProcColor::RED {
                (t, colors)
            } else {
                match t.parent_of(p) {
                    None => (t, colors),
                    Some(g) => {
                        let uncle = t.uncle_of(x);
                        if uncle is Some && colors[uncle->0 as int] == ProcColor::RED {
                            proof {
                                lemma_subtree(t, x);
                                lemma_subtree(t, p);
                                lemma_subtree(t, g);
                            }
                            walked(repainted(colors, p, uncle->0, g), t, g)
                        } else if t.subtree(g).lt().root() == Some(p) {
                            if t.subtree(p).rt().root() == Some(x) {
                                let straight = t.graft(p, t.subtree(p).turned_left());
                                (
                                    straight.graft(g, straight.subtree(g).turned_right()),
                                    repainted(colors, x, x, g),
                                )
                            } else {
                                (t.graft(g, t.subtree(g).turned_right()), repainted(colors, p, p, g))
                            }
                        } else {
                            if t.subtree(p).lt().root() == Some(x) {
                                let straight = t.graft(p, t.subtree(p).turned_right());
                                (
                                    straight.graft(g, straight.subtree(g).turned_left()),
                                    repainted(colors, x, x, g),
                                )
                            } else {
                                (t.graft(g, t.subtree(g).turned_left()), repainted(colors, p, p, g))
                            }
                        }
                    },
                }
            },
        }
    }
}

/// Shape and colors after rebalancing from the red slot `x`: the walk, and
/// then the root colored black.
pub open spec fn mended(colors: Seq<ProcColor>, t: Shape, x: usize) -> (Shape, Seq<ProcColor>) {
    let end = walked(colors, t, x);
    (end.0, blackened(end.1, end.0.root()))
}

/// Painting three records of the table is repainting their colors.
pub proof fn lemma_painted_colors(was: Seq<Proc>, now: Seq<Proc>, b1: usize, b2: usize, r: usize)
    requires
        painted(was, now, b1, b2, r),
        b1 < was.len(),
        b2 < was.len(),
        r < was.len(),
        was.len() <= usize::MAX,
    ensures
        colors_of(now) == repainted(colors_of(was), b1, b2, r),
{
}

/// Hanging a record into the tree colors it red and no other record.
pub proof fn lemma_grown_colors(was: Seq<Proc>, now: Seq<Proc>, t: Shape, n: usize)
    requires
        grown(was, now, t, n),
        n < was.len(),
        was.len() <= usize::MAX,
    ensures
        colors_of(now) == colors_of(was).update(n as int, ProcColor::RED),
{
}

} // verus!
