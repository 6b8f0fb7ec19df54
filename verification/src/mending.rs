//! Why each step of the rebalancing walk is sound: what recoloring and the
//! rotations do to order, balance and the red-red rule.

use vstd::prelude::*;
use crate::invariants::{
    balanced, black_height, child_ok, key, lemma_color_frame, lemma_graft_colors, lemma_red_ok_top,
    lemma_subtree_colors, ordered, red, red_ok, same_standing, weight_sum,
};
use crate::process::{Proc, ProcColor};
use crate::shape::{
    lemma_graft_self, lemma_node_slots, lemma_subtree, lemma_turned_left, lemma_turned_right, Shape,
};

verus! {

/// The state in which the walk finds the tree when it has work to do: an
/// ordered, balanced tree whose only breach of the red-red rule is the red
/// slot `x` under its red parent `p`, which hangs under `g`.
pub open spec fn red_pair(procs: Seq<Proc>, t: Shape, x: usize, p: usize, g: usize) -> bool {
    &&& t.distinct()
    &&& ordered(procs, t)
    &&& balanced(procs, t)
    &&& red_ok(procs, t, Some(x))
    &&& t.slots().contains(x)
    &&& t.slots().contains(p)
    &&& t.slots().contains(g)
    &&& t.parent_of(x) == Some(p)
    &&& t.parent_of(p) == Some(g)
    &&& red(procs, x)
    &&& red(procs, p)
    &&& forall|i: usize| #[trigger] t.slots().contains(i) ==> i < procs.len()
}

/// The table `now` has the keys and weights of `was`, and its colors too, but
/// that `b1` and `b2` are black and `r` is red.
pub open spec fn painted(was: Seq<Proc>, now: Seq<Proc>, b1: usize, b2: usize, r: usize) -> bool {
    &&& now.len() == was.len()
    &&& forall|i: usize|
        i < was.len() ==> {
            &&& (#[trigger] now[i as int]).v_runtime == was[i as int].v_runtime
            &&& now[i as int].weight == was[i as int].weight
            &&& now[i as int].node_color == (if i == r {
                ProcColor::RED
            } else if i == b1 || i == b2 {
                ProcColor::BLACK
            } else {
                was[i as int].node_color
            })
        }
}

/// The table `now` has the keys, weights and colors of `was`.
pub open spec fn unpainted(was: Seq<Proc>, now: Seq<Proc>) -> bool {
    &&& now.len() == was.len()
    &&& forall|i: usize| i < was.len() ==> same_standing(was[i as int], #[trigger] now[i as int])
}

/// What order, balance and the red-red rule say of the three generations
/// around a red pair: the grandparent is black, and the subtrees under it
/// are sound in themselves.
pub proof fn lemma_red_pair(procs: Seq<Proc>, t: Shape, x: usize, p: usize, g: usize)
    requires
        red_pair(procs, t, x, p, g),
        t.subtree(g).lt() == t.subtree(p) || t.subtree(g).rt() == t.subtree(p),
        t.subtree(p).lt() == t.subtree(x) || t.subtree(p).rt() == t.subtree(x),
    ensures
        !red(procs, g),
        x != p,
        x != g,
        p != g,
        t.subtree(g).root() == Some(g),
        t.subtree(p).root() == Some(p),
        t.subtree(x).root() == Some(x),
        t.subtree(g).distinct(),
        t.subtree(p).distinct(),
        t.subtree(x).distinct(),
        t.subtree(g).slots().contains(x),
        t.subtree(g).slots().contains(p),
        forall|i: usize| #[trigger] t.subtree(g).slots().contains(i) ==> t.slots().contains(i),
        ordered(procs, t.subtree(g)),
        balanced(procs, t.subtree(g)),
        red_ok(procs, t.subtree(g), Some(x)),
        ordered(procs, t.subtree(p)),
        balanced(procs, t.subtree(p)),
        red_ok(procs, t.subtree(p), Some(x)),
        ordered(procs, t.subtree(x)),
        balanced(procs, t.subtree(x)),
        red_ok(procs, t.subtree(x), None),
{
    lemma_subtree(t, g);
    lemma_subtree(t, x);
    lemma_subtree_colors(procs, t, g, Some(x));
    lemma_subtree_colors(procs, t, x, Some(x));
    lemma_red_ok_top(procs, t.subtree(x), x);
}

/// Recoloring when the uncle is red: with parent and uncle black and the
/// grandparent red, the tree is as sound as before, and the only red-red
/// pair left, if any, has the grandparent as its child.
pub proof fn lemma_recolor(
    was: Seq<Proc>,
    now: Seq<Proc>,
    t: Shape,
    x: usize,
    p: usize,
    u: usize,
    g: usize,
)
    requires
        red_pair(was, t, x, p, g),
        t.subtree(p).lt() == t.subtree(x) || t.subtree(p).rt() == t.subtree(x),
        (t.subtree(g).lt() == t.subtree(p) && t.subtree(g).rt().root() == Some(u)) || (t.subtree(
            g,
        ).rt() == t.subtree(p) && t.subtree(g).lt().root() == Some(u)),
        red(was, u),
        painted(was, now, p, u, g),
    ensures
        ordered(now, t),
        balanced(now, t),
        red_ok(now, t, Some(g)),
        red(now, g),
        weight_sum(now, t) == weight_sum(was, t),
        black_height(now, t) == black_height(was, t),
{
    let gs = t.subtree(g);
    let ps = t.subtree(p);
    let xs = t.subtree(x);
    let us = if gs.lt() == ps {
        gs.rt()
    } else {
        gs.lt()
    };
    let sib = if ps.lt() == xs {
        ps.rt()
    } else {
        ps.lt()
    };
    lemma_red_pair(was, t, x, p, g);
    lemma_node_slots(gs);
    lemma_node_slots(ps);
    lemma_node_slots(us);
    assert(us.distinct());
    assert(balanced(was, us) && ordered(was, us) && red_ok(was, us, Some(x)));
    lemma_color_frame(was, now, xs, None, Some(g));
    lemma_color_frame(was, now, sib, Some(x), Some(g));
    lemma_color_frame(was, now, us.lt(), Some(x), Some(g));
    lemma_color_frame(was, now, us.rt(), Some(x), Some(g));
    assert(balanced(now, ps) && ordered(now, ps) && red_ok(now, ps, Some(g)));
    assert(balanced(now, us) && ordered(now, us) && red_ok(now, us, Some(g)));
    assert(balanced(now, gs) && ordered(now, gs) && red_ok(now, gs, Some(g)));
    assert(weight_sum(now, ps) == weight_sum(was, ps));
    assert(weight_sum(now, us) == weight_sum(was, us));
    lemma_graft_self(t, g);
    lemma_graft_colors(was, now, t, g, gs, Some(x), Some(g));
}

/// The inner case on the left: `x` is the right child of `p`, which is the
/// left child of `g`. A left rotation about `p` leaves the tree as sound as
/// before, with `p` now the red child of the red `x`.
pub proof fn lemma_triangle_left(
    was: Seq<Proc>,
    now: Seq<Proc>,
    t: Shape,
    x: usize,
    p: usize,
    g: usize,
)
    requires
        red_pair(was, t, x, p, g),
        t.subtree(g).lt() == t.subtree(p),
        t.subtree(p).rt() == t.subtree(x),
        unpainted(was, now),
    ensures
        ordered(now, t.graft(p, t.subtree(p).turned_left())),
        balanced(now, t.graft(p, t.subtree(p).turned_left())),
        red_ok(now, t.graft(p, t.subtree(p).turned_left()), Some(p)),
        weight_sum(now, t.graft(p, t.subtree(p).turned_left())) == weight_sum(was, t),
        black_height(now, t.graft(p, t.subtree(p).turned_left())) == black_height(was, t),
{
    let gs = t.subtree(g);
    let ps = t.subtree(p);
    let xs = t.subtree(x);
    let n = ps.turned_left();
    lemma_red_pair(was, t, x, p, g);
    lemma_node_slots(gs);
    lemma_turned_left(ps);
    lemma_node_slots(n);
    lemma_node_slots(n.lt());
    lemma_color_frame(was, now, ps.lt(), Some(x), Some(p));
    lemma_color_frame(was, now, xs.lt(), Some(x), Some(p));
    lemma_color_frame(was, now, xs.rt(), Some(x), Some(p));
    assert(ordered(now, n.lt()));
    assert(balanced(now, n.lt()));
    if ps.lt() is Node {
        lemma_node_slots(ps.lt());
    }
    if xs.lt() is Node {
        lemma_node_slots(xs.lt());
    }
    if xs.rt() is Node {
        lemma_node_slots(xs.rt());
    }
    assert(red_ok(was, ps.lt(), Some(x)) && red_ok(was, ps.rt(), Some(x)));
    assert(red_ok(now, n.lt(), Some(p)));
    assert(balanced(now, n));
    assert(weight_sum(now, n.lt()) == weight_sum(was, ps.lt()) + was[p as int].weight + weight_sum(
        was,
        xs.lt(),
    ));
    assert(weight_sum(was, xs) == weight_sum(was, xs.lt()) + was[x as int].weight + weight_sum(
        was,
        xs.rt(),
    ));
    lemma_graft_colors(was, now, t, p, n, Some(x), Some(p));
}

/// The outer case on the left: `x` is the left child of `p`, which is the
/// left child of `g`, and the uncle is black or absent. After a right
/// rotation about `g`, with `p` black and `g` red, no red-red pair remains.
pub proof fn lemma_line_left(was: Seq<Proc>, now: Seq<Proc>, t: Shape, x: usize, p: usize, g: usize)
    requires
        red_pair(was, t, x, p, g),
        t.subtree(g).lt() == t.subtree(p),
        t.subtree(p).lt() == t.subtree(x),
        child_ok(was, t.subtree(g).rt(), None),
        painted(was, now, p, p, g),
    ensures
        ordered(now, t.graft(g, t.subtree(g).turned_right())),
        balanced(now, t.graft(g, t.subtree(g).turned_right())),
        red_ok(now, t.graft(g, t.subtree(g).turned_right()), None),
        weight_sum(now, t.graft(g, t.subtree(g).turned_right())) == weight_sum(was, t),
        black_height(now, t.graft(g, t.subtree(g).turned_right())) == black_height(was, t),
{
    let gs = t.subtree(g);
    let ps = t.subtree(p);
    let xs = t.subtree(x);
    let n = gs.turned_right();
    lemma_red_pair(was, t, x, p, g);
    lemma_turned_right(gs);
    lemma_node_slots(n);
    lemma_node_slots(n.rt());
    lemma_color_frame(was, now, xs, None, None);
    lemma_color_frame(was, now, ps.rt(), Some(x), None);
    lemma_color_frame(was, now, gs.rt(), Some(x), None);
    assert(ordered(now, n.rt()));
    assert(balanced(now, n.rt()));
    if ps.rt() is Node {
        lemma_node_slots(ps.rt());
    }
    if gs.rt() is Node {
        lemma_node_slots(gs.rt());
    }
    assert(red_ok(now, n.rt(), None));
    assert(weight_sum(was, ps) == weight_sum(was, xs) + was[p as int].weight + weight_sum(was, ps.rt()));
    assert(weight_sum(now, n.rt()) == weight_sum(was, ps.rt()) + was[g as int].weight + weight_sum(
        was,
        gs.rt(),
    ));
    lemma_graft_colors(was, now, t, g, n, Some(x), None);
}

/// The inner case on the right: `x` is the left child of `p`, which is the
/// right child of `g`. A right rotation about `p` leaves the tree as sound as
/// before, with `p` now the red child of the red `x`.
pub proof fn lemma_triangle_right(
    was: Seq<Proc>,
    now: Seq<Proc>,
    t: Shape,
    x: usize,
    p: usize,
    g: usize,
)
    requires
        red_pair(was, t, x, p, g),
        t.subtree(g).rt() == t.subtree(p),
        t.subtree(p).lt() == t.subtree(x),
        unpainted(was, now),
    ensures
        ordered(now, t.graft(p, t.subtree(p).turned_right())),
        balanced(now, t.graft(p, t.subtree(p).turned_right())),
        red_ok(now, t.graft(p, t.subtree(p).turned_right()), Some(p)),
        weight_sum(now, t.graft(p, t.subtree(p).turned_right())) == weight_sum(was, t),
        black_height(now, t.graft(p, t.subtree(p).turned_right())) == black_height(was, t),
{
    let gs = t.subtree(g);
    let ps = t.subtree(p);
    let xs = t.subtree(x);
    let n = ps.turned_right();
    lemma_red_pair(was, t, x, p, g);
    lemma_node_slots(gs);
    lemma_turned_right(ps);
    lemma_node_slots(n);
    lemma_node_slots(n.rt());
    lemma_color_frame(was, now, ps.rt(), Some(x), Some(p));
    lemma_color_frame(was, now, xs.rt(), Some(x), Some(p));
    lemma_color_frame(was, now, xs.lt(), Some(x), Some(p));
    assert(ordered(now, n.rt()));
    assert(balanced(now, n.rt()));
    if ps.rt() is Node {
        lemma_node_slots(ps.rt());
    }
    if xs.rt() is Node {
        lemma_node_slots(xs.rt());
    }
    if xs.lt() is Node {
        lemma_node_slots(xs.lt());
    }
    assert(red_ok(was, ps.rt(), Some(x)) && red_ok(was, ps.lt(), Some(x)));
    assert(red_ok(now, n.rt(), Some(p)));
    assert(weight_sum(now, n.rt()) == weight_sum(was, ps.rt()) + was[p as int].weight + weight_sum(
        was,
        xs.rt(),
    ));
    assert(weight_sum(was, xs) == weight_sum(was, xs.rt()) + was[x as int].weight + weight_sum(
        was,
        xs.lt(),
    ));
    lemma_graft_colors(was, now, t, p, n, Some(x), Some(p));
}

/// The outer case on the right: `x` is the right child of `p`, which is the
/// right child of `g`, and the uncle is black or absent. After a left
/// rotation about `g`, with `p` black and `g` red, no red-red pair remains.
pub proof fn lemma_line_right(was: Seq<Proc>, now: Seq<Proc>, t: Shape, x: usize, p: usize, g: usize)
    requires
        red_pair(was, t, x, p, g),
        t.subtree(g).rt() == t.subtree(p),
        t.subtree(p).rt() == t.subtree(x),
        child_ok(was, t.subtree(g).lt(), None),
        painted(was, now, p, p, g),
    ensures
        ordered(now, t.graft(g, t.subtree(g).turned_left())),
        balanced(now, t.graft(g, t.subtree(g).turned_left())),
        red_ok(now, t.graft(g, t.subtree(g).turned_left()), None),
        weight_sum(now, t.graft(g, t.subtree(g).turned_left())) == weight_sum(was, t),
        black_height(now, t.graft(g, t.subtree(g).turned_left())) == black_height(was, t),
{
    let gs = t.subtree(g);
    let ps = t.subtree(p);
    let xs = t.subtree(x);
    let n = gs.turned_left();
    lemma_red_pair(was, t, x, p, g);
    lemma_node_slots(gs);
    lemma_turned_left(gs);
    lemma_node_slots(n);
    lemma_node_slots(n.lt());
    lemma_color_frame(was, now, xs, None, None);
    lemma_color_frame(was, now, ps.lt(), Some(x), None);
    lemma_color_frame(was, now, gs.lt(), Some(x), None);
    assert forall|i: usize| #[trigger] ps.lt().slots().contains(i) implies key(now, i) <= key(now, p)
        && key(now, g) <= key(now, i) by {}
    assert(ordered(now, n.lt()));
    assert(balanced(now, n.lt()));
    if ps.lt() is Node {
        lemma_node_slots(ps.lt());
    }
    if gs.lt() is Node {
        lemma_node_slots(gs.lt());
    }
    assert(red_ok(now, n.lt(), None));
    assert(weight_sum(was, ps) == weight_sum(was, xs) + was[p as int].weight + weight_sum(was, ps.lt()));
    assert(weight_sum(now, n.lt()) == weight_sum(was, ps.lt()) + was[g as int].weight + weight_sum(
        was,
        gs.lt(),
    ));
    lemma_graft_colors(was, now, t, g, n, Some(x), None);
}

/// A red slot whose parent is not red needs no let-off.
pub proof fn lemma_drop_let_off(procs: Seq<Proc>, t: Shape, x: usize)
    requires
        t.distinct(),
        red_ok(procs, t, Some(x)),
        t.parent_of(x) matches Some(w) ==> !red(procs, w),
    ensures
        red_ok(procs, t, None),
    decreases t,
{
    match t {
        Shape::Leaf => {},
        Shape::Node { left, slot, right } => {
            if slot == x {
                lemma_color_frame(procs, procs, *left, Some(x), None);
                lemma_color_frame(procs, procs, *right, Some(x), None);
            } else if left.slots().contains(x) {
                lemma_drop_let_off(procs, *left, x);
                lemma_color_frame(procs, procs, *right, Some(x), None);
            } else {
                lemma_drop_let_off(procs, *right, x);
                lemma_color_frame(procs, procs, *left, Some(x), None);
            }
        },
    }
}

/// Coloring the root black keeps order and balance, and with the root black
/// a red slot directly under it breaks no rule.
pub proof fn lemma_blacken_root(was: Seq<Proc>, now: Seq<Proc>, t: Shape, x: usize)
    requires
        t.distinct(),
        t.root() matches Some(r) && r < was.len() && now == was.update(
            r as int,
            (Proc { node_color: ProcColor::BLACK, ..was[r as int] }),
        ),
        forall|i: usize| #[trigger] t.slots().contains(i) ==> i < was.len(),
        ordered(was, t),
        balanced(was, t),
        red_ok(was, t, Some(x)),
        t.slots().contains(x),
        t.parent_of(x) matches Some(w) ==> !red(was, w) || t.root() == Some(w),
    ensures
        ordered(now, t),
        balanced(now, t),
        red_ok(now, t, None),
        weight_sum(now, t) == weight_sum(was, t),
{
    let r = t.root()->0;
    lemma_node_slots(t);
    lemma_color_frame(was, now, t.lt(), Some(x), Some(x));
    lemma_color_frame(was, now, t.rt(), Some(x), Some(x));
    if t.parent_of(x) is Some {
        let w = t.parent_of(x)->0;
        lemma_subtree(t, x);
    }
    lemma_drop_let_off(now, t, x);
}

} // verus!
