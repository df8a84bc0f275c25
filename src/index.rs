//! The particles at the start of a tick, grouped by column, so that a
//! particle's lookups visit its own column and its two neighbours only.
use std::collections::HashMap;
use vstd::prelude::*;

use crate::engine::Particle;
use crate::grid::{cell_index, grid_coord, in_world, Pos, MAX_FALL};
use crate::rules::{
    below_in_column, blocked, cell_taken, highest_below, lemma_cell_taken, lemma_highest_below,
    ranks_before, within_cell,
};

verus! {

/// Every identity in `ids` names a particle of `snap` in column `col`.
pub open spec fn lists_column(ids: Seq<usize>, snap: Seq<Particle>, col: int, cell: int) -> bool {
    forall|j: int|
        0 <= j < ids.len() ==> (#[trigger] ids[j] as int) < snap.len() && cell_index(
            snap[ids[j] as int].x as int,
            cell,
        ) == col
}

/// `m` maps each column to identities of particles in it, and lists every
/// particle of `snap` below `upto` under its column.
pub open spec fn indexes_upto(
    m: Map<i64, Vec<usize>>,
    snap: Seq<Particle>,
    cell: int,
    upto: int,
) -> bool {
    &&& forall|col: i64| #[trigger] m.contains_key(col) ==> lists_column(m[col]@, snap, col as int, cell)
    &&& forall|i: int|
        0 <= i < upto ==> {
            let col = cell_index((#[trigger] snap[i]).x as int, cell);
            &&& i64::MIN <= col <= i64::MAX
            &&& m.contains_key(col as i64)
            &&& m[col as i64]@.contains(i as usize)
        }
}

/// `m` indexes every particle of `snap` by its column.
pub open spec fn indexes(m: Map<i64, Vec<usize>>, snap: Seq<Particle>, cell: int) -> bool {
    indexes_upto(m, snap, cell, snap.len() as int)
}

/// The positions of the particles of `snap`, in order.
pub open spec fn positions_of(snap: Seq<Particle>) -> Seq<Pos> {
    snap.map_values(|q: Particle| q@)
}

/// An index of a prefix of `t` indexes that prefix of any longer sequence
/// that agrees with `t` on it.
pub proof fn lemma_index_extends(
    m: Map<i64, Vec<usize>>,
    s: Seq<Particle>,
    t: Seq<Particle>,
    cell: int,
    upto: int,
)
    requires
        indexes_upto(m, s, cell, upto),
        0 <= upto <= s.len() <= t.len(),
        forall|i: int| 0 <= i < s.len() ==> t[i] == s[i],
    ensures
        indexes_upto(m, t, cell, upto),
{
    assert forall|col: i64| #[trigger] m.contains_key(col) implies lists_column(
        m[col]@,
        t,
        col as int,
        cell,
    ) by {
        assert(lists_column(m[col]@, s, col as int, cell));
        assert forall|j: int| 0 <= j < m[col]@.len() implies (#[trigger] m[col]@[j] as int) < t.len()
            && cell_index(t[m[col]@[j] as int].x as int, cell) == col by {
            assert(t[m[col]@[j] as int] == s[m[col]@[j] as int]);
        }
    }
    assert forall|i: int| 0 <= i < upto implies {
        let col = cell_index((#[trigger] t[i]).x as int, cell);
        &&& i64::MIN <= col <= i64::MAX
        &&& m.contains_key(col as i64)
        &&& m[col as i64]@.contains(i as usize)
    } by {
        assert(t[i] == s[i]);
    }
}

/// Lists particle `i` of `snap` under its column.
pub fn add_to_index(m: &mut HashMap<i64, Vec<usize>>, snap: &Vec<Particle>, i: usize, cell: i64)
    requires
        cell >= 1,
        i < snap@.len(),
        in_world(snap@[i as int].x as int),
        indexes_upto(old(m)@, snap@, cell as int, i as int),
    ensures
        indexes_upto(final(m)@, snap@, cell as int, i + 1),
{
    let col = grid_coord(snap[i].x, cell);
    let ghost old_m = m@;
    let ids = match m.remove(&col) {
        Some(mut ids) => {
            ids.push(i);
            ids
        },
        None => {
            let mut ids: Vec<usize> = Vec::new();
            ids.push(i);
            ids
        },
    };
    let ghost new_ids = ids@;
    m.insert(col, ids);
    proof {
        assert(new_ids.last() == i);
        assert(forall|j: int|
            0 <= j < new_ids.len() - 1 ==> old_m.contains_key(col) && new_ids[j] == old_m[col]@[j]);
        assert forall|c: i64| #[trigger] m@.contains_key(c) implies lists_column(
            m@[c]@,
            snap@,
            c as int,
            cell as int,
        ) by {
            if c == col {
                assert forall|j: int| 0 <= j < new_ids.len() implies (#[trigger] new_ids[j] as int)
                    < snap@.len() && cell_index(snap@[new_ids[j] as int].x as int, cell as int)
                    == c by {
                    if j < new_ids.len() - 1 {
                        assert(lists_column(old_m[col]@, snap@, col as int, cell as int));
                        assert(old_m[col]@[j] == new_ids[j]);
                    }
                }
            } else {
                assert(old_m.contains_key(c));
            }
        }
        assert forall|k: int| 0 <= k < i + 1 implies {
            let c = cell_index((#[trigger] snap@[k]).x as int, cell as int);
            &&& i64::MIN <= c <= i64::MAX
            &&& m@.contains_key(c as i64)
            &&& m@[c as i64]@.contains(k as usize)
        } by {
            if k < i {
                let c = cell_index(snap@[k].x as int, cell as int) as i64;
                if c == col {
                    let j = choose|j: int|
                        0 <= j < old_m[col]@.len() && old_m[col]@[j] == k as usize;
                    assert(new_ids[j] == k as usize);
                }
            } else {
                crate::grid::lemma_index_in_world(snap@[k].x as int, cell as int);
                assert(new_ids[new_ids.len() - 1] == i);
            }
        }
    }
}

/// An index lists particle `i` under its column.
pub proof fn lemma_listed(m: Map<i64, Vec<usize>>, snap: Seq<Particle>, cell: int, i: int)
    requires
        indexes(m, snap, cell),
        0 <= i < snap.len(),
    ensures
        ({
            let col = cell_index(snap[i].x as int, cell);
            &&& i64::MIN <= col <= i64::MAX
            &&& m.contains_key(col as i64)
            &&& m[col as i64]@.contains(i as usize)
        }),
{
}

/// Groups the particles of `snap` by column.
pub fn build_index(snap: &Vec<Particle>, cell: i64) -> (m: HashMap<i64, Vec<usize>>)
    requires
        cell >= 1,
        forall|i: int| 0 <= i < snap@.len() ==> in_world(#[trigger] snap@[i].x as int),
    ensures
        indexes(m@, snap@, cell as int),
{
    let mut m: HashMap<i64, Vec<usize>> = HashMap::new();
    let n = snap.len();
    for i in 0..n
        invariant
            n == snap@.len(),
            cell >= 1,
            forall|k: int| 0 <= k < snap@.len() ==> in_world(#[trigger] snap@[k].x as int),
            indexes_upto(m@, snap@, cell as int, i as int),
    {
        add_to_index(&mut m, snap, i, cell);
    }
    m
}

/// The Y of the highest particle of `snap` below `p` in its column.
pub fn highest_in_index(
    snap: &Vec<Particle>,
    m: &HashMap<i64, Vec<usize>>,
    p: Particle,
    cell: i64,
) -> (r: Option<i64>)
    requires
        cell >= 1,
        in_world(p.x as int),
        indexes(m@, snap@, cell as int),
    ensures
        r matches Some(v) ==> highest_below(positions_of(snap@), p@, cell as int) == Some(v as int),
        r is None ==> highest_below(positions_of(snap@), p@, cell as int) is None,
{
    let ghost s = positions_of(snap@);
    let n = snap.len();
    let col = grid_coord(p.x, cell);
    proof {
        lemma_highest_below(s, p@, cell as int);
    }
    match m.get(&col) {
        None => {
            proof {
                if highest_below(s, p@, cell as int) is Some {
                    let v = highest_below(s, p@, cell as int)->Some_0;
                    let i = choose|i: int|
                        0 <= i < s.len() && below_in_column(s[i], p@, cell as int) && s[i].1 == v;
                    assert(s[i] == snap@[i]@);
                    lemma_listed(m@, snap@, cell as int, i);
                }
            }
            None
        },
        Some(ids) => {
            assert(lists_column(ids@, snap@, col as int, cell as int));
            let mut best: Option<i64> = None;
            let len = ids.len();
            for k in 0..len
                invariant
                    len == ids@.len(),
                    n == snap@.len(),
                    lists_column(ids@, snap@, col as int, cell as int),
                    col == cell_index(p.x as int, cell as int),
                    s == positions_of(snap@),
                    best matches Some(v) ==> (exists|j: int|
                        0 <= j < k && below_in_column(s[ids@[j] as int], p@, cell as int) && s[ids@[
                            j] as int].1 == v),
                    best matches Some(v) ==> forall|j: int|
                        0 <= j < k && below_in_column(#[trigger] s[ids@[j] as int], p@, cell as int)
                            ==> s[ids@[j] as int].1 <= v,
                    best is None ==> forall|j: int|
                        0 <= j < k ==> !below_in_column(#[trigger] s[ids@[j] as int], p@, cell as int),
            {
                let id = ids[k];
                let q = snap[id];
                assert(s[id as int] == q@);
                if q.y < p.y {
                    match best {
                        Some(v) => {
                            if v < q.y {
                                best = Some(q.y);
                            }
                        },
                        None => {
                            best = Some(q.y);
                        },
                    }
                }
            }
            proof {
                match highest_below(s, p@, cell as int) {
                    Some(w) => {
                        let i = choose|i: int|
                            0 <= i < s.len() && below_in_column(s[i], p@, cell as int) && s[i].1 == w;
                        assert(s[i] == snap@[i]@);
                        lemma_listed(m@, snap@, cell as int, i);
                        assert(m@.contains_key(col) && m@[col] == *ids);
                        assert(cell_index(snap@[i].x as int, cell as int) == col);
                        assert(ids@.contains(i as usize));
                        let j = choose|j: int| 0 <= j < ids@.len() && ids@[j] == i as usize;
                        assert(s[ids@[j] as int] == s[i]);
                        if best is Some {
                            let v = best->Some_0;
                            let j0 = choose|j: int|
                                0 <= j < len && below_in_column(s[ids@[j] as int], p@, cell as int)
                                    && s[ids@[j] as int].1 == v;
                            assert(s[ids@[j0] as int].1 <= w);
                        }
                    },
                    None => {
                        if best is Some {
                            let v = best->Some_0;
                            let j0 = choose|j: int|
                                0 <= j < len && below_in_column(s[ids@[j] as int], p@, cell as int)
                                    && s[ids@[j] as int].1 == v;
                            assert(below_in_column(s[ids@[j0] as int], p@, cell as int));
                        }
                    },
                }
            }
            best
        },
    }
}

/// Some particle of `snap` lies in the cell `(col, row)`.
pub fn taken_in_index(
    snap: &Vec<Particle>,
    m: &HashMap<i64, Vec<usize>>,
    col: i64,
    row: i64,
    cell: i64,
) -> (r: bool)
    requires
        cell >= 1,
        indexes(m@, snap@, cell as int),
    ensures
        r == cell_taken(positions_of(snap@), col as int, row as int, cell as int),
{
    let ghost s = positions_of(snap@);
    let n = snap.len();
    proof {
        lemma_cell_taken(s, col as int, row as int, cell as int);
    }
    match m.get(&col) {
        None => {
            proof {
                if cell_taken(s, col as int, row as int, cell as int) {
                    let i = choose|i: int|
                        0 <= i < s.len() && cell_index(#[trigger] s[i].0, cell as int) == col
                            && cell_index(s[i].1, cell as int) == row;
                    assert(s[i] == snap@[i]@);
                    lemma_listed(m@, snap@, cell as int, i);
                }
            }
            false
        },
        Some(ids) => {
            assert(lists_column(ids@, snap@, col as int, cell as int));
            let len = ids.len();
            for k in 0..len
                invariant
                    len == ids@.len(),
                    n == snap@.len(),
                    cell >= 1,
                    s == positions_of(snap@),
                    lists_column(ids@, snap@, col as int, cell as int),
                    forall|j: int|
                        0 <= j < k ==> cell_index(#[trigger] s[ids@[j] as int].1, cell as int) != row,
            {
                let id = ids[k];
                let q = snap[id];
                assert(s[id as int] == q@);
                if grid_coord(q.y, cell) == row {
                    proof {
                        lemma_cell_taken(s, col as int, row as int, cell as int);
                        assert(cell_index(s[id as int].0, cell as int) == col);
                        assert(cell_index(s[id as int].1, cell as int) == row);
                    }
                    return true;
                }
            }
            proof {
                if cell_taken(s, col as int, row as int, cell as int) {
                    let i = choose|i: int|
                        0 <= i < s.len() && cell_index(#[trigger] s[i].0, cell as int) == col
                            && cell_index(s[i].1, cell as int) == row;
                    assert(s[i] == snap@[i]@);
                    lemma_listed(m@, snap@, cell as int, i);
                    assert(m@.contains_key(col) && m@[col] == *ids);
                    assert(cell_index(snap@[i].x as int, cell as int) == col);
                    assert(ids@.contains(i as usize));
                    let j = choose|j: int| 0 <= j < ids@.len() && ids@[j] == i as usize;
                    assert(s[ids@[j] as int] == s[i]);
                }
            }
            false
        },
    }
}

/// Some particle of `snap` below `p` in its column lies within one cell of
/// the Y to which `p` would fall by `fall`.
pub fn blocked_in_index(
    snap: &Vec<Particle>,
    m: &HashMap<i64, Vec<usize>>,
    p: Particle,
    fall: i128,
    cell: i64,
) -> (r: bool)
    requires
        cell >= 1,
        in_world(p.x as int),
        in_world(p.y as int),
        0 <= fall < MAX_FALL,
        indexes(m@, snap@, cell as int),
        forall|i: int| 0 <= i < snap@.len() ==> in_world(#[trigger] snap@[i].y as int),
    ensures
        r == blocked(positions_of(snap@), p@, cell as int, fall as int),
{
    let ghost s = positions_of(snap@);
    let n = snap.len();
    let col = grid_coord(p.x, cell);
    let t = (p.y as i128) - fall;
    match m.get(&col) {
        None => {
            proof {
                if blocked(s, p@, cell as int, fall as int) {
                    let i = choose|i: int|
                        0 <= i < s.len() && #[trigger] below_in_column(s[i], p@, cell as int)
                            && within_cell(s[i].1, p.y - fall, cell as int);
                    assert(s[i] == snap@[i]@);
                    lemma_listed(m@, snap@, cell as int, i);
                }
            }
            false
        },
        Some(ids) => {
            assert(lists_column(ids@, snap@, col as int, cell as int));
            let len = ids.len();
            for k in 0..len
                invariant
                    len == ids@.len(),
                    n == snap@.len(),
                    t == p.y - fall,
                    cell >= 1,
                    in_world(p.y as int),
                    0 <= fall < MAX_FALL,
                    lists_column(ids@, snap@, col as int, cell as int),
                    col == cell_index(p.x as int, cell as int),
                    s == positions_of(snap@),
                    forall|i: int| 0 <= i < snap@.len() ==> in_world(#[trigger] snap@[i].y as int),
                    forall|j: int|
                        0 <= j < k ==> !(below_in_column(#[trigger] s[ids@[j] as int], p@, cell as int)
                            && within_cell(s[ids@[j] as int].1, p.y - fall, cell as int)),
            {
                let id = ids[k];
                let q = snap[id];
                assert(s[id as int] == q@);
                assert(in_world(snap@[id as int].y as int));
                if q.y < p.y && (q.y as i128) - t < (cell as i128) && t - (q.y as i128) < (cell as i128) {
                    assert(below_in_column(s[id as int], p@, cell as int));
                    return true;
                }
            }
            proof {
                if blocked(s, p@, cell as int, fall as int) {
                    let i = choose|i: int|
                        0 <= i < s.len() && #[trigger] below_in_column(s[i], p@, cell as int)
                            && within_cell(s[i].1, p.y - fall, cell as int);
                    assert(s[i] == snap@[i]@);
                    lemma_listed(m@, snap@, cell as int, i);
                    assert(m@.contains_key(col) && m@[col] == *ids);
                    assert(ids@.contains(i as usize));
                    let j = choose|j: int| 0 <= j < ids@.len() && ids@[j] == i as usize;
                    assert(s[ids@[j] as int] == s[i]);
                }
            }
            false
        },
    }
}

/// Some particle ranked before `p` in `snap` has its entry of `wanted` in
/// the cell `(col, row)`.
pub fn claimed_in_index(
    snap: &Vec<Particle>,
    wanted: &Vec<Particle>,
    claims: &HashMap<i64, Vec<usize>>,
    p: Particle,
    col: i64,
    row: i64,
    cell: i64,
) -> (r: bool)
    requires
        cell >= 1,
        wanted@.len() == snap@.len(),
        indexes(claims@, wanted@, cell as int),
    ensures
        r == exists|j: int|
            0 <= j < snap@.len() && ranks_before(snap@[j]@, p@) && cell_index(
                (#[trigger] wanted@[j]).x as int,
                cell as int,
            ) == col && cell_index(wanted@[j].y as int, cell as int) == row,
{
    let n = snap.len();
    match claims.get(&col) {
        None => {
            proof {
                assert forall|j: int|
                    0 <= j < snap@.len() && ranks_before(snap@[j]@, p@) && cell_index(
                        (#[trigger] wanted@[j]).x as int,
                        cell as int,
                    ) == col implies cell_index(wanted@[j].y as int, cell as int) != row by {
                    lemma_listed(claims@, wanted@, cell as int, j);
                }
            }
            false
        },
        Some(ids) => {
            assert(lists_column(ids@, wanted@, col as int, cell as int));
            let len = ids.len();
            for k in 0..len
                invariant
                    len == ids@.len(),
                    n == snap@.len(),
                    cell >= 1,
                    wanted@.len() == snap@.len(),
                    lists_column(ids@, wanted@, col as int, cell as int),
                    forall|j: int|
                        0 <= j < k ==> !(ranks_before(snap@[#[trigger] ids@[j] as int]@, p@)
                            && cell_index(wanted@[ids@[j] as int].y as int, cell as int) == row),
            {
                let id = ids[k];
                let w = wanted[id];
                let q = snap[id];
                if grid_coord(w.y, cell) == row && (q.y < p.y || (q.y == p.y && q.x < p.x)) {
                    assert(cell_index(wanted@[id as int].x as int, cell as int) == col);
                    return true;
                }
            }
            proof {
                assert forall|j: int|
                    0 <= j < snap@.len() && ranks_before(snap@[j]@, p@) && cell_index(
                        (#[trigger] wanted@[j]).x as int,
                        cell as int,
                    ) == col implies cell_index(wanted@[j].y as int, cell as int) != row by {
                    lemma_listed(claims@, wanted@, cell as int, j);
                    assert(claims@.contains_key(col) && claims@[col] == *ids);
                    assert(ids@.contains(j as usize));
                    let k = choose|k: int| 0 <= k < ids@.len() && ids@[k] == j as usize;
                    assert(ids@[k] as int == j);
                }
            }
            false
        },
    }
}

} // verus!
