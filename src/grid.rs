//! Integer world coordinates and the square grid laid over them.
use vstd::prelude::*;

verus! {

/// Half the edge of the square world: every coordinate a particle can hold
/// lies in `-WORLD_LIMIT ..= WORLD_LIMIT`. Every cell edge that an `i64`
/// holds has the centre of cell 0 inside it.
pub const WORLD_LIMIT: i64 = 4_611_686_018_427_387_904;

/// A bound above every distance fallen in one tick.
pub const MAX_FALL: i128 = 0x8000_0000_0000_0000_0000_0000;

/// A world position `(x, y)` in spec code.
pub type Pos = (int, int);

/// The grid index of a world coordinate: floor division by the cell edge.
pub open spec fn cell_index(v: int, cell: int) -> int {
    v / cell
}

/// The world coordinate of the centre of the cell with index `k`: half a
/// cell, rounded down, above the cell's lower edge.
pub open spec fn cell_center(k: int, cell: int) -> int {
    k * cell + cell / 2
}

/// The lowest world Y a particle may hold on a viewport `height` units tall:
/// the centre of the lowest whole row of cells in the lower half. Like every
/// cell centre it lies half a cell, rounded down, above the row's lower
/// edge; for an odd cell edge that is one unit below rounding the half cell
/// up, and it keeps a particle resting on the floor at a cell centre.
pub open spec fn floor_of(height: int, cell: int) -> int {
    -(height / (2 * cell)) * cell + cell / 2
}

/// How far a particle falls in `dt_us` microseconds at `speed` units per
/// second, rounded down.
pub open spec fn fall_of(speed: int, dt_us: int) -> int {
    speed * dt_us / 1_000_000
}

pub open spec fn in_world(v: int) -> bool {
    -WORLD_LIMIT <= v <= WORLD_LIMIT
}

pub open spec fn valid_cell_size(cell: int) -> bool {
    1 <= cell <= i64::MAX
}

/// The centre of a cell lies in that cell.
pub proof fn lemma_center_in_cell(k: int, cell: int)
    requires
        cell > 0,
    ensures
        cell_index(cell_center(k, cell), cell) == k,
{
    vstd::arithmetic::div_mod::lemma_fundamental_div_mod_converse(
        cell_center(k, cell),
        cell,
        k,
        cell / 2,
    );
}

/// Moving a cell centre by one cell edge gives the centre of the
/// neighbouring cell.
pub proof fn lemma_center_shift(k: int, cell: int)
    requires
        cell > 0,
    ensures
        cell_center(k, cell) - cell == cell_center(k - 1, cell),
        cell_center(k, cell) + cell == cell_center(k + 1, cell),
{
    assert((k - 1) * cell == k * cell - cell) by (nonlinear_arith);
    assert((k + 1) * cell == k * cell + cell) by (nonlinear_arith);
}

/// A coordinate one cell or more above another lies in a higher cell.
pub proof fn lemma_index_gap(a: int, b: int, cell: int)
    requires
        cell > 0,
        a >= b + cell,
    ensures
        cell_index(a, cell) > cell_index(b, cell),
{
    vstd::arithmetic::div_mod::lemma_fundamental_div_mod(a, cell);
    vstd::arithmetic::div_mod::lemma_fundamental_div_mod(b, cell);
    let qa = a / cell;
    let qb = b / cell;
    assert(0 <= a % cell < cell) by {
        vstd::arithmetic::div_mod::lemma_mod_bound(a, cell);
    }
    assert(0 <= b % cell < cell) by {
        vstd::arithmetic::div_mod::lemma_mod_bound(b, cell);
    }
    assert(cell * qa > cell * qb - cell);
    assert(qa > qb - 1) by (nonlinear_arith)
        requires
            cell * qa > cell * qb - cell,
            cell > 0,
    ;
}

/// The grid index of a coordinate in the world lies in the world too.
pub proof fn lemma_index_in_world(v: int, cell: int)
    requires
        cell >= 1,
        in_world(v),
    ensures
        in_world(cell_index(v, cell)),
{
    let q = v / cell;
    vstd::arithmetic::div_mod::lemma_fundamental_div_mod(v, cell);
    vstd::arithmetic::div_mod::lemma_mod_bound(v, cell);
    assert(-WORLD_LIMIT <= q <= WORLD_LIMIT) by (nonlinear_arith)
        requires
            v == cell * q + (v % cell),
            0 <= v % cell < cell,
            cell >= 1,
            -WORLD_LIMIT <= v <= WORLD_LIMIT,
    ;
}

/// The grid index of `v`.
pub fn grid_coord(v: i64, cell: i64) -> (r: i64)
    requires
        cell > 0,
    ensures
        r == cell_index(v as int, cell as int),
{
    proof {
        let q = v as int / cell as int;
        vstd::arithmetic::div_mod::lemma_fundamental_div_mod(v as int, cell as int);
        vstd::arithmetic::div_mod::lemma_mod_bound(v as int, cell as int);
        assert(i64::MIN <= q <= i64::MAX) by (nonlinear_arith)
            requires
                v == cell * q + ((v as int) % (cell as int)),
                0 <= (v as int) % (cell as int) < cell,
                cell >= 1,
                i64::MIN <= v <= i64::MAX,
        ;
    }
    match v.checked_div_euclid(cell) {
        Some(q) => q,
        None => 0,
    }
}

/// The centre of the cell that holds `v`.
pub fn snap_to_center(v: i64, cell: i64) -> (r: i128)
    requires
        cell >= 1,
    ensures
        r == cell_center(cell_index(v as int, cell as int), cell as int),
{
    let k = grid_coord(v, cell);
    proof {
        vstd::arithmetic::div_mod::lemma_fundamental_div_mod(v as int, cell as int);
        vstd::arithmetic::div_mod::lemma_mod_bound(v as int, cell as int);
        assert(v - cell < k * cell <= v) by (nonlinear_arith)
            requires
                v == cell * k + ((v as int) % (cell as int)),
                0 <= (v as int) % (cell as int) < cell,
        ;
    }
    let base = (k as i128) * (cell as i128);
    base + (cell as i128) / 2
}

/// The lowest world Y a particle may hold on a viewport `viewport_height`
/// units tall.
pub fn bottom_boundary(viewport_height: u32, cell: i64) -> (r: i128)
    requires
        cell >= 1,
    ensures
        r == floor_of(viewport_height as int, cell as int),
        in_world(r as int),
{
    let rows: i128 = (viewport_height as i128) / (2 * (cell as i128));
    proof {
        vstd::arithmetic::div_mod::lemma_fundamental_div_mod(viewport_height as int, 2 * cell);
        vstd::arithmetic::div_mod::lemma_mod_bound(viewport_height as int, 2 * cell);
        assert(0 <= rows * cell <= viewport_height) by (nonlinear_arith)
            requires
                viewport_height == (2 * cell) * rows + (viewport_height as int % (2 * cell)),
                viewport_height as int % (2 * cell) >= 0,
                rows >= 0,
                cell >= 1,
        ;
    }
    let drop = rows * (cell as i128);
    proof {
        assert(-(rows as int) * (cell as int) == -(drop as int)) by (nonlinear_arith)
            requires
                drop == rows * cell,
        ;
    }
    (cell as i128) / 2 - drop
}

/// How far a particle falls in `dt_us` microseconds at `speed` units per
/// second, rounded down.
pub fn fall_distance(speed: i64, dt_us: u32) -> (r: i128)
    requires
        speed >= 1,
    ensures
        r == fall_of(speed as int, dt_us as int),
        0 <= r < MAX_FALL,
{
    proof {
        assert(0 <= speed * dt_us <= 0x8000_0000_0000_0000 * 0x1_0000_0000) by (nonlinear_arith)
            requires
                1 <= speed < 0x8000_0000_0000_0000,
                0 <= dt_us < 0x1_0000_0000,
        ;
    }
    let total = (speed as i128) * (dt_us as i128);
    total / 1_000_000
}

} // verus!
