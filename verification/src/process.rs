//! Process records: the scheduling state of one process, together with the
//! three links and the color that let the record stand as a tree node.

use vstd::prelude::*;

verus! {

/// Life-cycle state of a process. The scheduler only reads it.
#[derive(Clone, Copy, Debug, PartialEq, Eq, Structural)]
pub enum ProcState {
    UNUSED,
    USED,
    SLEEPING,
    RUNNABLE,
    RUNNING,
    ZOMBIE,
}

/// Color of a record while it is linked into the tree.
#[derive(Clone, Copy, Debug, PartialEq, Eq, Structural)]
pub enum ProcColor {
    RED,
    BLACK,
}

/// One process record. Links are slot numbers in the process table.
#[derive(Clone, Copy, Debug, PartialEq, Eq)]
pub struct Proc {
    /// Process id.
    pub pid: i32,
    /// Life-cycle state; owned by the surrounding kernel.
    pub state: ProcState,
    /// Scheduling weight, derived from the niceness: the larger, the slower
    /// the virtual runtime grows.
    pub weight: i32,
    /// Virtual runtime so far: the key by which the tree is ordered.
    pub v_runtime: i32,
    /// Niceness.
    pub niceness: i32,
    /// Length of the current run.
    pub current_run: i32,
    /// Longest run allowed.
    pub max_exectime: i32,
    /// Color; means something only while the record is linked into the tree.
    pub node_color: ProcColor,
    /// Slot of the left child.
    pub left_node: Option<usize>,
    /// Slot of the right child.
    pub right_node: Option<usize>,
    /// Slot of the parent; none for the root.
    pub parent_node: Option<usize>,
}

/// Points the left link of the record in slot `i` at `to`.
pub fn set_left(procs: &mut Vec<Proc>, i: usize, to: Option<usize>)
    requires
        i < old(procs).len(),
    ensures
        final(procs)@ == old(procs)@.update(i as int, (Proc { left_node: to, ..old(procs)@[i as int] })),
{
    procs[i].left_node = to;
}

/// Points the right link of the record in slot `i` at `to`.
pub fn set_right(procs: &mut Vec<Proc>, i: usize, to: Option<usize>)
    requires
        i < old(procs).len(),
    ensures
        final(procs)@ == old(procs)@.update(i as int, (Proc { right_node: to, ..old(procs)@[i as int] })),
{
    procs[i].right_node = to;
}

/// Points the parent link of the record in slot `i` at `to`.
pub fn set_parent(procs: &mut Vec<Proc>, i: usize, to: Option<usize>)
    requires
        i < old(procs).len(),
    ensures
        final(procs)@ == old(procs)@.update(i as int, (Proc { parent_node: to, ..old(procs)@[i as int] })),
{
    procs[i].parent_node = to;
}

/// Colors the record in slot `i`.
pub fn set_color(procs: &mut Vec<Proc>, i: usize, color: ProcColor)
    requires
        i < old(procs).len(),
    ensures
        final(procs)@ == old(procs)@.update(i as int, (Proc { node_color: color, ..old(procs)@[i as int] })),
{
    procs[i].node_color = color;
}

} // verus!
