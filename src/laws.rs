//! Properties of the engine that hold across calls and inputs, proved over
//! the spec functions that the engine's contracts use.
use vstd::prelude::*;

use crate::engine::{
    after_brush, after_brush_excluding, after_spawn, after_spawn_unless, cells_distinct, centered,
    BrushPattern,
};
use crate::grid::{cell_center, cell_index, fall_of, floor_of, valid_cell_size, Pos};
use crate::rules::{
    above_floor, below_in_column, blocked, cell_taken, claimed_before, highest_below, intended,
    lemma_cell_taken, lemma_highest_below, moves, ranks_before, rest_height, same_cell, side_free,
    step_all, step_one, within_cell,
};

verus! {

/// The lowest permitted Y is the centre of a row, and lies in the world.
pub proof fn lemma_floor_is_center(height: nat, cell: int)
    requires
        valid_cell_size(cell),
    ensures
        floor_of(height as int, cell) == cell_center(-(height as int / (2 * cell)), cell),
        centered(floor_of(height as int, cell), cell),
        floor_of(height as int, cell) <= cell / 2,
{
    let k = -(height as int / (2 * cell));
    crate::grid::lemma_center_in_cell(k, cell);
    assert(height as int / (2 * cell) >= 0) by {
        vstd::arithmetic::div_mod::lemma_div_pos_is_pos(height as int, 2 * cell);
    }
    assert(k * cell <= 0) by (nonlinear_arith)
        requires
            k <= 0,
            cell >= 1,
    ;
}

/// Converting a cell centre to grid coordinates and back gives the same
/// position, and snapping any coordinate to its cell centre twice moves it
/// no further than snapping it once.
pub proof fn lemma_resnap(k: int, v: int, cell: int)
    requires
        cell >= 1,
    ensures
        cell_index(cell_center(k, cell), cell) == k,
        cell_center(cell_index(cell_center(k, cell), cell), cell) == cell_center(k, cell),
        cell_center(cell_index(cell_center(cell_index(v, cell), cell), cell), cell) == cell_center(
            cell_index(v, cell),
            cell,
        ),
{
    crate::grid::lemma_center_in_cell(k, cell);
    crate::grid::lemma_center_in_cell(cell_index(v, cell), cell);
}

/// A particle that comes to rest lands on the centre of the cell above its
/// support, so re-snapping it moves nothing.
pub proof fn lemma_rest_is_center(support: int, cell: int)
    requires
        cell >= 1,
    ensures
        centered(rest_height(support, cell), cell),
        cell_index(rest_height(support, cell), cell) == cell_index(support, cell) + 1,
        rest_height(support, cell) > support,
{
    let k = cell_index(support, cell);
    crate::grid::lemma_center_in_cell(k + 1, cell);
    vstd::arithmetic::div_mod::lemma_fundamental_div_mod(support, cell);
    vstd::arithmetic::div_mod::lemma_mod_bound(support, cell);
    assert((k + 1) * cell == cell * k + cell) by (nonlinear_arith);
}

/// Where the rule does not simply let a particle fall or leave it in place,
/// it puts the particle on a cell centre: resting on a support, or resting
/// on the floor.
pub proof fn lemma_settled_on_center(s: Seq<Pos>, p: Pos, cell: int, fall: int, height: nat)
    requires
        valid_cell_size(cell),
    ensures
        ({
            let floor = floor_of(height as int, cell);
            let q = intended(s, p, cell, fall, floor);
            &&& q == p || q.1 == floor || q.1 == p.1 - fall || centered(q.1, cell)
            &&& centered(floor, cell)
        }),
{
    lemma_floor_is_center(height, cell);
    match highest_below(s, p, cell) {
        Some(v) => lemma_rest_is_center(v, cell),
        None => {},
    }
}

/// A blocked particle always has a support below it in its column.
pub proof fn lemma_blocked_has_support(s: Seq<Pos>, p: Pos, cell: int, fall: int)
    requires
        blocked(s, p, cell, fall),
    ensures
        highest_below(s, p, cell) is Some,
{
    lemma_highest_below(s, p, cell);
    let i = choose|i: int|
        0 <= i < s.len() && #[trigger] below_in_column(s[i], p, cell) && within_cell(
            s[i].1,
            p.1 - fall,
            cell,
        );
    assert(below_in_column(s[i], p, cell));
}

/// A blocked particle whose two diagonal cells at the height of its support
/// are both free goes left, and keeps falling.
pub proof fn lemma_left_diagonal_first(
    s: Seq<Pos>,
    p: Pos,
    cell: int,
    fall: int,
    floor: int,
    v: int,
)
    requires
        blocked(s, p, cell, fall),
        highest_below(s, p, cell) == Some(v),
        side_free(s, p.0 - cell, cell_index(v, cell), cell),
        side_free(s, p.0 + cell, cell_index(v, cell), cell),
    ensures
        intended(s, p, cell, fall, floor) == (p.0 - cell, above_floor(p.1 - fall, floor)),
        moves(s, p, cell, fall, floor) ==> step_one(s, p, cell, fall, floor) == (
            p.0 - cell,
            above_floor(p.1 - fall, floor),
        ),
{
}

/// A particle resting one cell above a particle on the floor, whose two
/// diagonal floor cells are taken, stays where it is through a tick that
/// falls less than a cell, and so does the particle beneath it.
pub proof fn lemma_stack_stays(
    s: Seq<Pos>,
    l: int,
    u: int,
    a: int,
    b: int,
    cell: int,
    fall: int,
    height: nat,
)
    requires
        valid_cell_size(cell),
        0 <= fall < cell,
        cells_distinct(s, cell),
        forall|i: int| 0 <= i < s.len() ==> #[trigger] s[i].1 >= floor_of(height as int, cell),
        0 <= l < s.len(),
        0 <= u < s.len(),
        0 <= a < s.len(),
        0 <= b < s.len(),
        centered(s[l].0, cell),
        s[l].1 == floor_of(height as int, cell),
        s[u] == (s[l].0, s[l].1 + cell),
        s[a] == (s[l].0 - cell, s[l].1),
        s[b] == (s[l].0 + cell, s[l].1),
    ensures
        step_all(s, cell, fall, floor_of(height as int, cell))[u] == s[u],
        step_all(s, cell, fall, floor_of(height as int, cell))[l] == s[l],
{
    let floor = floor_of(height as int, cell);
    let x = s[l].0;
    let kf = -(height as int / (2 * cell));
    lemma_floor_is_center(height, cell);
    crate::grid::lemma_center_in_cell(kf, cell);
    crate::grid::lemma_center_in_cell(kf + 1, cell);
    crate::grid::lemma_center_shift(kf + 1, cell);
    let kx = cell_index(x, cell);
    crate::grid::lemma_center_shift(kx, cell);
    crate::grid::lemma_center_in_cell(kx - 1, cell);
    crate::grid::lemma_center_in_cell(kx + 1, cell);
    assert(same_cell(s[u], s[u], cell));
    assert(same_cell(s[l], s[l], cell));
    // The particle beneath: nothing lies below the floor, so it is not blocked.
    if blocked(s, s[l], cell, fall) {
        let i = choose|i: int|
            0 <= i < s.len() && #[trigger] below_in_column(s[i], s[l], cell) && within_cell(
                s[i].1,
                s[l].1 - fall,
                cell,
            );
        assert(s[i].1 >= floor);
    }
    assert(intended(s, s[l], cell, fall, floor) == s[l]);
    // The upper particle: its highest support is the particle beneath.
    lemma_highest_below(s, s[u], cell);
    assert(below_in_column(s[l], s[u], cell));
    let v = highest_below(s, s[u], cell)->Some_0;
    let k = choose|k: int| 0 <= k < s.len() && below_in_column(s[k], s[u], cell) && s[k].1 == v;
    assert(s[k].1 >= floor);
    vstd::arithmetic::div_mod::lemma_div_is_ordered(floor, s[k].1, cell);
    vstd::arithmetic::div_mod::lemma_div_is_ordered(s[k].1, s[u].1, cell);
    if k != l {
        if cell_index(s[k].1, cell) == kf {
            assert(same_cell(s[k], s[l], cell));
            if k < l {
                assert(cell_index(s[k].0, cell) != cell_index(s[l].0, cell) || cell_index(
                    s[k].1,
                    cell,
                ) != cell_index(s[l].1, cell));
            } else {
                assert(cell_index(s[l].0, cell) != cell_index(s[k].0, cell) || cell_index(
                    s[l].1,
                    cell,
                ) != cell_index(s[k].1, cell));
            }
        } else {
            assert(k != u);
            if k < u {
                assert(cell_index(s[k].0, cell) != cell_index(s[u].0, cell) || cell_index(
                    s[k].1,
                    cell,
                ) != cell_index(s[u].1, cell));
            } else {
                assert(cell_index(s[u].0, cell) != cell_index(s[k].0, cell) || cell_index(
                    s[u].1,
                    cell,
                ) != cell_index(s[k].1, cell));
            }
        }
    }
    assert(v == floor);
    lemma_cell_taken(s, kx - 1, kf, cell);
    lemma_cell_taken(s, kx + 1, kf, cell);
    assert(cell_index(s[a].0, cell) == kx - 1);
    assert(cell_index(s[b].0, cell) == kx + 1);
    assert(intended(s, s[u], cell, fall, floor) == s[u]);
}

/// No tick lets a particle end below the floor, when every particle stood
/// at or above it before the tick.
pub proof fn lemma_floor_kept(s: Seq<Pos>, cell: int, fall: int, height: nat)
    requires
        valid_cell_size(cell),
        forall|i: int| 0 <= i < s.len() ==> #[trigger] s[i].1 >= floor_of(height as int, cell),
    ensures
        forall|i: int|
            0 <= i < s.len() ==> #[trigger] step_all(s, cell, fall, floor_of(height as int, cell))[i].1
                >= floor_of(height as int, cell),
{
    let floor = floor_of(height as int, cell);
    assert forall|i: int| 0 <= i < s.len() implies #[trigger] step_all(s, cell, fall, floor)[i].1
        >= floor by {
        let p = s[i];
        lemma_highest_below(s, p, cell);
        match highest_below(s, p, cell) {
            Some(v) => {
                let i0 = choose|j: int|
                    0 <= j < s.len() && below_in_column(s[j], p, cell) && s[j].1 == v;
                assert(s[i0].1 >= floor);
                lemma_rest_is_center(v, cell);
            },
            None => {},
        }
    }
}

/// No tick puts two particles into one cell: when no two shared a cell at
/// the start of the tick, none do at its end.
pub proof fn lemma_tick_keeps_cells_distinct(s: Seq<Pos>, cell: int, fall: int, floor: int)
    requires
        cell >= 1,
        cells_distinct(s, cell),
    ensures
        cells_distinct(step_all(s, cell, fall, floor), cell),
{
    let t = step_all(s, cell, fall, floor);
    assert forall|i: int, j: int| 0 <= i < j < t.len() implies #[trigger] cell_index(t[i].0, cell)
        != #[trigger] cell_index(t[j].0, cell) || cell_index(t[i].1, cell) != cell_index(
        t[j].1,
        cell,
    ) by {
        let a = s[i];
        let b = s[j];
        assert(!same_cell(a, b, cell));
        lemma_cell_taken(s, cell_index(t[i].0, cell), cell_index(t[i].1, cell), cell);
        lemma_cell_taken(s, cell_index(t[j].0, cell), cell_index(t[j].1, cell), cell);
        if same_cell(t[i], t[j], cell) {
            let qa = intended(s, a, cell, fall, floor);
            let qb = intended(s, b, cell, fall, floor);
            let ma = moves(s, a, cell, fall, floor);
            let mb = moves(s, b, cell, fall, floor);
            if ma && mb && !same_cell(qa, a, cell) && !same_cell(qb, b, cell) {
                if ranks_before(a, b) {
                    assert(claimed_before(s, b, qb, cell, fall, floor));
                } else {
                    assert(ranks_before(b, a));
                    assert(claimed_before(s, a, qa, cell, fall, floor));
                }
            } else if ma && !same_cell(qa, a, cell) {
                assert(same_cell(t[j], b, cell));
            } else if mb && !same_cell(qb, b, cell) {
                assert(same_cell(t[i], a, cell));
            }
        }
    }
}

/// Two snapshots that hold the same positions send every particle to the
/// same target.
proof fn lemma_intended_ignores_order(
    s: Seq<Pos>,
    t: Seq<Pos>,
    p: Pos,
    cell: int,
    fall: int,
    floor: int,
)
    requires
        forall|q: Pos| s.contains(q) <==> t.contains(q),
    ensures
        intended(s, p, cell, fall, floor) == intended(t, p, cell, fall, floor),
{
    lemma_highest_below(s, p, cell);
    lemma_highest_below(t, p, cell);
    match (highest_below(s, p, cell), highest_below(t, p, cell)) {
        (Some(a), Some(b)) => {
            let i = choose|i: int|
                0 <= i < s.len() && below_in_column(s[i], p, cell) && s[i].1 == a;
            assert(s.contains(s[i]));
            let k = choose|k: int|
                0 <= k < t.len() && below_in_column(t[k], p, cell) && t[k].1 == b;
            assert(t.contains(t[k]));
        },
        (Some(a), None) => {
            let i = choose|i: int|
                0 <= i < s.len() && below_in_column(s[i], p, cell) && s[i].1 == a;
            assert(s.contains(s[i]));
        },
        (None, Some(b)) => {
            let k = choose|k: int|
                0 <= k < t.len() && below_in_column(t[k], p, cell) && t[k].1 == b;
            assert(t.contains(t[k]));
        },
        (None, None) => {},
    }
    if blocked(s, p, cell, fall) {
        let i = choose|i: int|
            0 <= i < s.len() && #[trigger] below_in_column(s[i], p, cell) && within_cell(
                s[i].1,
                p.1 - fall,
                cell,
            );
        assert(s.contains(s[i]));
        let k = choose|k: int| 0 <= k < t.len() && t[k] == s[i];
        assert(below_in_column(t[k], p, cell));
    }
    if blocked(t, p, cell, fall) {
        let k = choose|k: int|
            0 <= k < t.len() && #[trigger] below_in_column(t[k], p, cell) && within_cell(
                t[k].1,
                p.1 - fall,
                cell,
            );
        assert(t.contains(t[k]));
        let i = choose|i: int| 0 <= i < s.len() && s[i] == t[k];
        assert(below_in_column(s[i], p, cell));
    }
    lemma_taken_ignores_order(s, t, cell);
}

proof fn lemma_taken_ignores_order(s: Seq<Pos>, t: Seq<Pos>, cell: int)
    requires
        forall|q: Pos| s.contains(q) <==> t.contains(q),
    ensures
        forall|col: int, row: int| cell_taken(s, col, row, cell) == cell_taken(t, col, row, cell),
{
    assert forall|col: int, row: int| cell_taken(s, col, row, cell) == cell_taken(
        t,
        col,
        row,
        cell,
    ) by {
        lemma_cell_taken(s, col, row, cell);
        lemma_cell_taken(t, col, row, cell);
        if cell_taken(s, col, row, cell) {
            let i = choose|i: int|
                0 <= i < s.len() && cell_index(#[trigger] s[i].0, cell) == col && cell_index(
                    s[i].1,
                    cell,
                ) == row;
            assert(s.contains(s[i]));
            let j = choose|j: int| 0 <= j < t.len() && t[j] == s[i];
            assert(cell_index(t[j].0, cell) == col);
        }
        if cell_taken(t, col, row, cell) {
            let j = choose|j: int|
                0 <= j < t.len() && cell_index(#[trigger] t[j].0, cell) == col && cell_index(
                    t[j].1,
                    cell,
                ) == row;
            assert(t.contains(t[j]));
            let i = choose|i: int| 0 <= i < s.len() && s[i] == t[j];
            assert(cell_index(s[i].0, cell) == col);
        }
    }
}

/// Two snapshots that hold the same positions, in whatever order, lead a
/// particle to the same place: a particle's move depends on its own position
/// and the set of positions at the start of the tick, never on the order in
/// which particles are stored or processed.
pub proof fn lemma_step_ignores_order(
    s: Seq<Pos>,
    t: Seq<Pos>,
    p: Pos,
    cell: int,
    fall: int,
    floor: int,
)
    requires
        forall|q: Pos| s.contains(q) <==> t.contains(q),
    ensures
        step_one(s, p, cell, fall, floor) == step_one(t, p, cell, fall, floor),
{
    lemma_intended_ignores_order(s, t, p, cell, fall, floor);
    lemma_taken_ignores_order(s, t, cell);
    let q = intended(s, p, cell, fall, floor);
    if claimed_before(s, p, q, cell, fall, floor) {
        let j = choose|j: int|
            0 <= j < s.len() && ranks_before(s[j], p) && same_cell(
                #[trigger] intended(s, s[j], cell, fall, floor),
                q,
                cell,
            );
        assert(s.contains(s[j]));
        let k = choose|k: int| 0 <= k < t.len() && t[k] == s[j];
        lemma_intended_ignores_order(s, t, s[j], cell, fall, floor);
        assert(same_cell(intended(t, t[k], cell, fall, floor), q, cell));
    }
    if claimed_before(t, p, q, cell, fall, floor) {
        let k = choose|k: int|
            0 <= k < t.len() && ranks_before(t[k], p) && same_cell(
                #[trigger] intended(t, t[k], cell, fall, floor),
                q,
                cell,
            );
        assert(t.contains(t[k]));
        let j = choose|j: int| 0 <= j < s.len() && s[j] == t[k];
        lemma_intended_ignores_order(s, t, t[k], cell, fall, floor);
        assert(same_cell(intended(s, s[j], cell, fall, floor), q, cell));
    }
}

/// A spawn never puts a second particle into a cell: when no two particles
/// shared a cell before, none do after.
pub proof fn lemma_spawn_keeps_cells_distinct(s: Seq<Pos>, x: int, y: int, cell: int)
    requires
        cell >= 1,
        cells_distinct(s, cell),
    ensures
        cells_distinct(after_spawn(s, x, y, cell), cell),
{
    let t = after_spawn(s, x, y, cell);
    if t != s {
        let kx = cell_index(x, cell);
        let ky = cell_index(y, cell);
        crate::grid::lemma_center_in_cell(kx, cell);
        crate::grid::lemma_center_in_cell(ky, cell);
        lemma_cell_taken(s, kx, ky, cell);
        assert forall|i: int, j: int| 0 <= i < j < t.len() implies #[trigger] cell_index(
            t[i].0,
            cell,
        ) != #[trigger] cell_index(t[j].0, cell) || cell_index(t[i].1, cell) != cell_index(
            t[j].1,
            cell,
        ) by {
            assert(t[i] == s[i]);
            if j < s.len() {
                assert(t[j] == s[j]);
            }
        }
    }
}

/// A brush spawn, with or without excluded columns, never puts a second
/// particle into a cell either.
pub proof fn lemma_brush_keeps_cells_distinct(
    s: Seq<Pos>,
    x: int,
    y: int,
    cell: int,
    pattern: BrushPattern,
    excluded: Seq<i64>,
)
    requires
        cell >= 1,
        cells_distinct(s, cell),
    ensures
        cells_distinct(after_brush_excluding(s, x, y, cell, pattern, excluded), cell),
        cells_distinct(after_brush(s, x, y, cell, pattern), cell),
{
    lemma_brush_excluding(s, x, y, cell, pattern, excluded);
    lemma_brush_excluding(s, x, y, cell, pattern, Seq::empty());
}

proof fn lemma_brush_excluding(
    s: Seq<Pos>,
    x: int,
    y: int,
    cell: int,
    pattern: BrushPattern,
    excluded: Seq<i64>,
)
    requires
        cell >= 1,
        cells_distinct(s, cell),
    ensures
        cells_distinct(after_brush_excluding(s, x, y, cell, pattern, excluded), cell),
{
    let s0 = after_spawn_unless(s, x, y, cell, excluded);
    lemma_spawn_keeps_cells_distinct(s, x, y, cell);
    let s1 = after_spawn_unless(s0, x - 2 * cell, y, cell, excluded);
    lemma_spawn_keeps_cells_distinct(s0, x - 2 * cell, y, cell);
    let s2 = after_spawn_unless(s1, x + 2 * cell, y, cell, excluded);
    lemma_spawn_keeps_cells_distinct(s1, x + 2 * cell, y, cell);
    let s3 = after_spawn_unless(s2, x, y - 2 * cell, cell, excluded);
    lemma_spawn_keeps_cells_distinct(s2, x, y - 2 * cell, cell);
    lemma_spawn_keeps_cells_distinct(s3, x, y + 2 * cell, cell);
}

/// The positions after a run of ticks, each given as its duration in
/// microseconds and the viewport height.
pub open spec fn run(s: Seq<Pos>, cell: int, speed: int, ticks: Seq<(int, int)>) -> Seq<Pos>
    decreases ticks.len(),
{
    if ticks.len() == 0 {
        s
    } else {
        run(
            step_all(s, cell, fall_of(speed, ticks[0].0), floor_of(ticks[0].1, cell)),
            cell,
            speed,
            ticks.drop_first(),
        )
    }
}

/// Storing the particles in another order changes nothing but their order
/// in one tick: `perm` maps each index of `t` to the index of the same
/// particle in `s`, and `inv` undoes it.
pub proof fn lemma_tick_ignores_order(
    s: Seq<Pos>,
    t: Seq<Pos>,
    perm: spec_fn(int) -> int,
    inv: spec_fn(int) -> int,
    cell: int,
    fall: int,
    floor: int,
)
    requires
        s.len() == t.len(),
        forall|j: int| 0 <= j < t.len() ==> 0 <= #[trigger] perm(j) < s.len() && t[j] == s[perm(j)],
        forall|i: int| 0 <= i < s.len() ==> 0 <= #[trigger] inv(i) < t.len() && perm(inv(i)) == i,
    ensures
        forall|j: int|
            0 <= j < t.len() ==> #[trigger] step_all(t, cell, fall, floor)[j] == step_all(
                s,
                cell,
                fall,
                floor,
            )[perm(j)],
{
    assert forall|q: Pos| s.contains(q) <==> t.contains(q) by {
        if s.contains(q) {
            let i = choose|i: int| 0 <= i < s.len() && s[i] == q;
            assert(t[inv(i)] == q);
        }
        if t.contains(q) {
            let j = choose|j: int| 0 <= j < t.len() && t[j] == q;
            assert(s[perm(j)] == q);
        }
    }
    assert forall|j: int| 0 <= j < t.len() implies #[trigger] step_all(t, cell, fall, floor)[j]
        == step_all(s, cell, fall, floor)[perm(j)] by {
        lemma_step_ignores_order(s, t, t[j], cell, fall, floor);
    }
}

/// Replaying the same ticks on the same particles, stored in any order,
/// gives every particle the same position after every tick: the outcome
/// depends on nothing but the particles and the ticks.
pub proof fn lemma_run_deterministic(
    s: Seq<Pos>,
    t: Seq<Pos>,
    perm: spec_fn(int) -> int,
    inv: spec_fn(int) -> int,
    cell: int,
    speed: int,
    ticks: Seq<(int, int)>,
)
    requires
        s.len() == t.len(),
        forall|j: int| 0 <= j < t.len() ==> 0 <= #[trigger] perm(j) < s.len() && t[j] == s[perm(j)],
        forall|i: int| 0 <= i < s.len() ==> 0 <= #[trigger] inv(i) < t.len() && perm(inv(i)) == i,
    ensures
        run(t, cell, speed, ticks).len() == run(s, cell, speed, ticks).len(),
        forall|j: int|
            0 <= j < t.len() ==> #[trigger] run(t, cell, speed, ticks)[j] == run(
                s,
                cell,
                speed,
                ticks,
            )[perm(j)],
    decreases ticks.len(),
{
    if ticks.len() > 0 {
        let fall = fall_of(speed, ticks[0].0);
        let floor = floor_of(ticks[0].1, cell);
        lemma_tick_ignores_order(s, t, perm, inv, cell, fall, floor);
        lemma_run_deterministic(
            step_all(s, cell, fall, floor),
            step_all(t, cell, fall, floor),
            perm,
            inv,
            cell,
            speed,
            ticks.drop_first(),
        );
    }
}

} // verus!
