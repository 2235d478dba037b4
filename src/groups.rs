use vstd::prelude::*;

verus! {

/// The three kinds of constraint group of a 9x9 board.
#[derive(Clone, Copy, Debug, PartialEq, Eq, Structural)]
pub enum GroupKind {
    Row,
    Col,
    Box,
}

/// Index of the group of kind `kind` that holds position `p` (row-major, 0..81).
pub open spec fn group_of(kind: GroupKind, p: int) -> int {
    match kind {
        GroupKind::Row => p / 9,
        GroupKind::Col => p % 9,
        GroupKind::Box => (p % 9) / 3 + 3 * ((p / 9) / 3),
    }
}

/// Position of the `k`-th member (0..9) of group `g` of kind `kind`.
pub open spec fn cell_of(kind: GroupKind, g: int, k: int) -> int {
    match kind {
        GroupKind::Row => 9 * g + k,
        GroupKind::Col => 9 * k + g,
        GroupKind::Box => 9 * (3 * (g / 3) + k / 3) + 3 * (g % 3) + k % 3,
    }
}

/// Where position `p` stands among the members of its group of kind `kind`.
pub open spec fn slot_of(kind: GroupKind, p: int) -> int {
    match kind {
        GroupKind::Row => p % 9,
        GroupKind::Col => p / 9,
        GroupKind::Box => 3 * ((p / 9) % 3) + (p % 9) % 3,
    }
}

/// Two positions share a row, a column or a box.
pub open spec fn same_group(p: int, q: int) -> bool {
    ||| group_of(GroupKind::Row, p) == group_of(GroupKind::Row, q)
    ||| group_of(GroupKind::Col, p) == group_of(GroupKind::Col, q)
    ||| group_of(GroupKind::Box, p) == group_of(GroupKind::Box, q)
}

/// Each member of a group lies on the board and belongs to that group.
pub proof fn lemma_cell_in_group(kind: GroupKind, g: int, k: int)
    requires
        0 <= g < 9,
        0 <= k < 9,
    ensures
        0 <= cell_of(kind, g, k) < 81,
        group_of(kind, cell_of(kind, g, k)) == g,
        slot_of(kind, cell_of(kind, g, k)) == k,
{
}

/// Every position is the member of its own group at its own slot.
pub proof fn lemma_cell_of_slot(kind: GroupKind, p: int)
    requires
        0 <= p < 81,
    ensures
        0 <= group_of(kind, p) < 9,
        0 <= slot_of(kind, p) < 9,
        cell_of(kind, group_of(kind, p), slot_of(kind, p)) == p,
{
}

/// The position of the `k`-th member of group `g` of kind `kind`.
pub fn group_cell(kind: GroupKind, g: usize, k: usize) -> (p: usize)
    requires
        g < 9,
        k < 9,
    ensures
        p == cell_of(kind, g as int, k as int),
        p < 81,
{
    proof {
        lemma_cell_in_group(kind, g as int, k as int);
    }
    match kind {
        GroupKind::Row => 9 * g + k,
        GroupKind::Col => 9 * k + g,
        GroupKind::Box => 9 * (3 * (g / 3) + k / 3) + 3 * (g % 3) + k % 3,
    }
}

/// The index of the group of kind `kind` that holds position `p`.
pub fn group_index(kind: GroupKind, p: usize) -> (g: usize)
    requires
        p < 81,
    ensures
        g == group_of(kind, p as int),
        g < 9,
{
    match kind {
        GroupKind::Row => p / 9,
        GroupKind::Col => p % 9,
        GroupKind::Box => (p % 9) / 3 + 3 * ((p / 9) / 3),
    }
}

} // verus!
