//! The update rule of one tick, stated over the positions at the start of
//! the tick.
use vstd::prelude::*;

use crate::grid::{cell_center, cell_index, in_world, Pos};

verus! {

/// `q` stands in the same column as `p`, strictly lower.
pub open spec fn below_in_column(q: Pos, p: Pos, cell: int) -> bool {
    cell_index(q.0, cell) == cell_index(p.0, cell) && q.1 < p.1
}

/// The Y of the highest position of `snap` below `p` in its column, if any.
pub open spec fn highest_below(snap: Seq<Pos>, p: Pos, cell: int) -> Option<int>
    decreases snap.len(),
{
    if snap.len() == 0 {
        None
    } else {
        let rest = highest_below(snap.drop_last(), p, cell);
        let q = snap.last();
        if below_in_column(q, p, cell) {
            match rest {
                Some(v) => if v >= q.1 {
                    Some(v)
                } else {
                    Some(q.1)
                },
                None => Some(q.1),
            }
        } else {
            rest
        }
    }
}

/// Some position of `snap` lies in the cell `(col, row)`.
pub open spec fn cell_taken(snap: Seq<Pos>, col: int, row: int, cell: int) -> bool
    decreases snap.len(),
{
    if snap.len() == 0 {
        false
    } else {
        let q = snap.last();
        (cell_index(q.0, cell) == col && cell_index(q.1, cell) == row) || cell_taken(
            snap.drop_last(),
            col,
            row,
            cell,
        )
    }
}

/// `a` and `b` are less than one cell apart.
pub open spec fn within_cell(a: int, b: int, cell: int) -> bool {
    -cell < a - b < cell
}

/// Some particle below `p` in its column lies within one cell of the Y to
/// which `p` would fall.
pub open spec fn blocked(snap: Seq<Pos>, p: Pos, cell: int, fall: int) -> bool {
    exists|i: int|
        0 <= i < snap.len() && #[trigger] below_in_column(snap[i], p, cell) && within_cell(
            snap[i].1,
            p.1 - fall,
            cell,
        )
}

/// A particle may move sideways to world X `x` at the height of row `row`.
pub open spec fn side_free(snap: Seq<Pos>, x: int, row: int, cell: int) -> bool {
    in_world(x) && !cell_taken(snap, cell_index(x, cell), row, cell)
}

/// Where a blocked particle comes to rest: the centre of the cell above its
/// support.
pub open spec fn rest_height(support: int, cell: int) -> int {
    cell_center(cell_index(support, cell) + 1, cell)
}

/// `y`, raised to the floor where it lies below.
pub open spec fn above_floor(y: int, floor: int) -> int {
    if y <= floor {
        floor
    } else {
        y
    }
}

/// Where the rule sends the particle at `p` in one tick, given the
/// positions `snap` at the start of the tick, the cell edge, the distance
/// fallen in the tick and the lowest permitted Y. A blocked particle comes
/// to rest above the highest particle below it (or keeps its place where
/// that would lie above the world), unless a diagonal cell at the height of
/// that support is free: then it moves one column (left first) and keeps
/// falling.
pub open spec fn intended(snap: Seq<Pos>, p: Pos, cell: int, fall: int, floor: int) -> Pos {
    let next = above_floor(p.1 - fall, floor);
    if blocked(snap, p, cell, fall) {
        match highest_below(snap, p, cell) {
            Some(v) => {
                let row = cell_index(v, cell);
                if side_free(snap, p.0 - cell, row, cell) {
                    (p.0 - cell, next)
                } else if side_free(snap, p.0 + cell, row, cell) {
                    (p.0 + cell, next)
                } else if in_world(rest_height(v, cell)) {
                    (p.0, rest_height(v, cell))
                } else {
                    p
                }
            },
            None => (p.0, next),
        }
    } else {
        (p.0, next)
    }
}

/// `a` and `b` lie in one cell.
pub open spec fn same_cell(a: Pos, b: Pos, cell: int) -> bool {
    cell_index(a.0, cell) == cell_index(b.0, cell) && cell_index(a.1, cell) == cell_index(b.1, cell)
}

/// The order in which claims on a cell are served: lower first, then
/// further left.
pub open spec fn ranks_before(a: Pos, b: Pos) -> bool {
    a.1 < b.1 || (a.1 == b.1 && a.0 < b.0)
}

/// A particle ranked before `p` is sent into the cell of `q` this tick.
pub open spec fn claimed_before(
    snap: Seq<Pos>,
    p: Pos,
    q: Pos,
    cell: int,
    fall: int,
    floor: int,
) -> bool {
    exists|j: int|
        0 <= j < snap.len() && ranks_before(snap[j], p) && same_cell(
            #[trigger] intended(snap, snap[j], cell, fall, floor),
            q,
            cell,
        )
}

/// The particle at `p` makes its move: its target lies in the world, and is
/// its own cell or a cell that was free at the start of the tick and that no
/// particle ranked before it claims.
pub open spec fn moves(snap: Seq<Pos>, p: Pos, cell: int, fall: int, floor: int) -> bool {
    let q = intended(snap, p, cell, fall, floor);
    &&& in_world(q.0)
    &&& in_world(q.1)
    &&& (same_cell(q, p, cell) || (!cell_taken(snap, cell_index(q.0, cell), cell_index(q.1, cell), cell)
        && !claimed_before(snap, p, q, cell, fall, floor)))
}

/// Where the particle at `p` stands after one tick: where the rule sends it
/// if it makes that move, else where it stood.
pub open spec fn step_one(snap: Seq<Pos>, p: Pos, cell: int, fall: int, floor: int) -> Pos {
    if moves(snap, p, cell, fall, floor) {
        intended(snap, p, cell, fall, floor)
    } else {
        p
    }
}

/// All positions after one tick: each particle is moved by `step_one`
/// against the same snapshot.
pub open spec fn step_all(snap: Seq<Pos>, cell: int, fall: int, floor: int) -> Seq<Pos> {
    Seq::new(snap.len(), |i: int| step_one(snap, snap[i], cell, fall, floor))
}

/// What `highest_below` finds: the largest Y among the positions below `p`
/// in its column, or nothing when there is none.
pub proof fn lemma_highest_below(snap: Seq<Pos>, p: Pos, cell: int)
    ensures
        match highest_below(snap, p, cell) {
            Some(v) => (exists|i: int|
                0 <= i < snap.len() && below_in_column(snap[i], p, cell) && snap[i].1 == v) && (
            forall|i: int|
                0 <= i < snap.len() && #[trigger] below_in_column(snap[i], p, cell) ==> snap[i].1
                    <= v),
            None => forall|i: int|
                0 <= i < snap.len() ==> !#[trigger] below_in_column(snap[i], p, cell),
        },
    decreases snap.len(),
{
    if snap.len() > 0 {
        let init = snap.drop_last();
        lemma_highest_below(init, p, cell);
        assert forall|i: int| 0 <= i < init.len() implies init[i] == snap[i] by {}
        let last = snap.len() - 1;
        assert(snap[last] == snap.last());
        match highest_below(init, p, cell) {
            Some(v) => {
                let i0 = choose|i: int|
                    0 <= i < init.len() && below_in_column(init[i], p, cell) && init[i].1 == v;
                assert(snap[i0] == init[i0]);
            },
            None => {},
        }
    }
}

/// What `cell_taken` finds: some position of `snap` in the cell.
pub proof fn lemma_cell_taken(snap: Seq<Pos>, col: int, row: int, cell: int)
    ensures
        cell_taken(snap, col, row, cell) <==> exists|i: int|
            0 <= i < snap.len() && cell_index(#[trigger] snap[i].0, cell) == col && cell_index(
                snap[i].1,
                cell,
            ) == row,
    decreases snap.len(),
{
    if snap.len() > 0 {
        let init = snap.drop_last();
        lemma_cell_taken(init, col, row, cell);
        assert forall|i: int| 0 <= i < init.len() implies init[i] == snap[i] by {}
        let last = snap.len() - 1;
        assert(snap[last] == snap.last());
        if cell_taken(init, col, row, cell) {
            let i0 = choose|i: int|
                0 <= i < init.len() && cell_index(#[trigger] init[i].0, cell) == col
                    && cell_index(init[i].1, cell) == row;
            assert(snap[i0] == init[i0]);
        }
        if exists|i: int|
            0 <= i < snap.len() && cell_index(#[trigger] snap[i].0, cell) == col && cell_index(
                snap[i].1,
                cell,
            ) == row {
            let i0 = choose|i: int|
                0 <= i < snap.len() && cell_index(#[trigger] snap[i].0, cell) == col
                    && cell_index(snap[i].1, cell) == row;
            if i0 < last {
                assert(init[i0] == snap[i0]);
            }
        }
    }
}

} // verus!
