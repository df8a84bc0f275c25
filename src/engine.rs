//! The sand grid engine: it owns the particles and moves them tick by tick.
use std::collections::HashMap;
use vstd::prelude::*;

use crate::grid::{
    bottom_boundary, cell_center, cell_index, fall_distance, fall_of, floor_of, grid_coord,
    in_world, snap_to_center, valid_cell_size, Pos, MAX_FALL, WORLD_LIMIT,
};
use crate::index::{
    add_to_index, blocked_in_index, build_index, claimed_in_index, highest_in_index, indexes,
    positions_of, taken_in_index,
};
use crate::rules::{
    cell_taken, claimed_before, intended, moves, ranks_before, same_cell, step_all, step_one,
};

verus! {

/// How much wear a particle can still take.
#[derive(Clone, Copy, Debug, PartialEq, Eq)]
pub struct ParticleHealth {
    pub amount: i32,
}

/// One grain of sand, at a world position.
#[derive(Clone, Copy, Debug, PartialEq, Eq)]
pub struct Particle {
    pub x: i64,
    pub y: i64,
    pub health: ParticleHealth,
}

impl View for Particle {
    type V = Pos;

    open spec fn view(&self) -> Pos {
        (self.x as int, self.y as int)
    }
}

/// The shape of a brush spawn.
#[derive(Clone, Copy, Debug, PartialEq, Eq)]
pub enum BrushPattern {
    /// The target cell alone.
    Single,
    /// The target cell and the four cells two steps away along the axes.
    Plus,
}

/// `v` lies at the centre of its cell.
pub open spec fn centered(v: int, cell: int) -> bool {
    v == cell_center(cell_index(v, cell), cell)
}

/// No two positions of `s` share a grid cell.
pub open spec fn cells_distinct(s: Seq<Pos>, cell: int) -> bool {
    forall|i: int, j: int|
        0 <= i < j < s.len() ==> #[trigger] cell_index(s[i].0, cell) != #[trigger] cell_index(
            s[j].0,
            cell,
        ) || cell_index(s[i].1, cell) != cell_index(s[j].1, cell)
}

/// A spawn request at `(x, y)` is honoured: the request and the centre of
/// its cell lie in the world and the cell is free.
pub open spec fn spawn_ok(s: Seq<Pos>, x: int, y: int, cell: int) -> bool {
    &&& in_world(x)
    &&& in_world(y)
    &&& in_world(cell_center(cell_index(x, cell), cell))
    &&& in_world(cell_center(cell_index(y, cell), cell))
    &&& !cell_taken(s, cell_index(x, cell), cell_index(y, cell), cell)
}

/// The positions after a spawn request at `(x, y)`.
pub open spec fn after_spawn(s: Seq<Pos>, x: int, y: int, cell: int) -> Seq<Pos> {
    if spawn_ok(s, x, y, cell) {
        s.push((cell_center(cell_index(x, cell), cell), cell_center(cell_index(y, cell), cell)))
    } else {
        s
    }
}

/// `col` is one of the columns in `excluded`.
pub open spec fn column_listed(excluded: Seq<i64>, col: int) -> bool {
    exists|k: int| 0 <= k < excluded.len() && #[trigger] excluded[k] as int == col
}

/// The positions after a spawn request at `(x, y)` that is dropped when the
/// target column is excluded.
pub open spec fn after_spawn_unless(
    s: Seq<Pos>,
    x: int,
    y: int,
    cell: int,
    excluded: Seq<i64>,
) -> Seq<Pos> {
    if column_listed(excluded, cell_index(x, cell)) {
        s
    } else {
        after_spawn(s, x, y, cell)
    }
}

/// The positions after a brush spawn at `(x, y)` that skips the columns in
/// `excluded`: the target cell first, then, for the plus pattern, two cells
/// left, right, down and up.
pub open spec fn after_brush_excluding(
    s: Seq<Pos>,
    x: int,
    y: int,
    cell: int,
    pattern: BrushPattern,
    excluded: Seq<i64>,
) -> Seq<Pos> {
    let s0 = after_spawn_unless(s, x, y, cell, excluded);
    match pattern {
        BrushPattern::Single => s0,
        BrushPattern::Plus => {
            let s1 = after_spawn_unless(s0, x - 2 * cell, y, cell, excluded);
            let s2 = after_spawn_unless(s1, x + 2 * cell, y, cell, excluded);
            let s3 = after_spawn_unless(s2, x, y - 2 * cell, cell, excluded);
            after_spawn_unless(s3, x, y + 2 * cell, cell, excluded)
        },
    }
}

/// The positions after a brush spawn at `(x, y)` that excludes no column.
pub open spec fn after_brush(
    s: Seq<Pos>,
    x: int,
    y: int,
    cell: int,
    pattern: BrushPattern,
) -> Seq<Pos> {
    after_brush_excluding(s, x, y, cell, pattern, Seq::empty())
}

/// A grid of falling sand. Besides the particles it keeps them grouped by
/// column, so that a lookup visits one column instead of every particle.
pub struct SandGrid {
    cell_size: i64,
    fall_speed: i64,
    particles: Vec<Particle>,
    /// The identities of the particles in each column.
    columns: HashMap<i64, Vec<usize>>,
}

impl View for SandGrid {
    type V = Seq<Pos>;

    /// The particles' positions; a particle's index is its identity.
    closed spec fn view(&self) -> Seq<Pos> {
        positions_of(self.particles@)
    }
}

impl SandGrid {
    /// The edge of a cell, in world units.
    pub closed spec fn spec_cell_size(&self) -> int {
        self.cell_size as int
    }

    /// The fall speed, in world units per second.
    pub closed spec fn spec_fall_speed(&self) -> int {
        self.fall_speed as int
    }

    /// The configuration is valid, and every particle lies in the world with
    /// its X at the centre of a column.
    pub closed spec fn wf(&self) -> bool {
        &&& valid_cell_size(self.cell_size as int)
        &&& 1 <= self.fall_speed
        &&& indexes(self.columns@, self.particles@, self.cell_size as int)
        &&& cells_distinct(self@, self.cell_size as int)
        &&& forall|i: int|
            0 <= i < self.particles@.len() ==> {
                let p = #[trigger] self.particles@[i];
                &&& in_world(p.x as int)
                &&& in_world(p.y as int)
                &&& centered(p.x as int, self.cell_size as int)
            }
    }

    /// What a well-formed grid guarantees: its configuration is in range, no
    /// two particles share a cell, and every particle lies in the world with
    /// its X at a cell centre.
    pub proof fn lemma_wf(&self)
        requires
            self.wf(),
        ensures
            valid_cell_size(self.spec_cell_size()),
            1 <= self.spec_fall_speed(),
            cells_distinct(self@, self.spec_cell_size()),
            forall|i: int|
                0 <= i < self@.len() ==> in_world(#[trigger] self@[i].0) && in_world(self@[i].1)
                    && centered(self@[i].0, self.spec_cell_size()),
    {
        assert forall|i: int| 0 <= i < self@.len() implies in_world(#[trigger] self@[i].0)
            && in_world(self@[i].1) && centered(self@[i].0, self.spec_cell_size()) by {
            self.lemma_view_index(i);
        }
    }

    proof fn lemma_view_index(&self, i: int)
        requires
            0 <= i < self.particles@.len(),
        ensures
            self@.len() == self.particles@.len(),
            self@[i] == self.particles@[i]@,
    {
    }

    /// An empty grid with cells `cell_size` units wide whose particles fall
    /// `fall_speed` units per second; `None` for a configuration out of range.
    pub fn new(cell_size: i64, fall_speed: i64) -> (r: Option<SandGrid>)
        ensures
            r.is_some() <==> cell_size >= 1 && fall_speed >= 1,
            r matches Some(g) ==> {
                &&& g.wf()
                &&& g@ == Seq::<Pos>::empty()
                &&& g.spec_cell_size() == cell_size
                &&& g.spec_fall_speed() == fall_speed
            },
    {
        if cell_size < 1 || fall_speed < 1 {
            return None;
        }
        let g = SandGrid { cell_size, fall_speed, particles: Vec::new(), columns: HashMap::new() };
        assert(g@ =~= Seq::<Pos>::empty());
        Some(g)
    }

    pub fn cell_size(&self) -> (r: i64)
        ensures
            r == self.spec_cell_size(),
    {
        self.cell_size
    }

    pub fn fall_speed(&self) -> (r: i64)
        ensures
            r == self.spec_fall_speed(),
    {
        self.fall_speed
    }

    /// The number of particles.
    pub fn len(&self) -> (r: usize)
        ensures
            r == self@.len(),
    {
        self.particles.len()
    }

    /// The position of the particle with identity `id`.
    pub fn position(&self, id: usize) -> (r: (i64, i64))
        requires
            id < self@.len(),
        ensures
            (r.0 as int, r.1 as int) == self@[id as int],
    {
        proof {
            self.lemma_view_index(id as int);
        }
        let p = self.particles[id];
        (p.x, p.y)
    }

    /// Every particle's position, indexed by identity.
    pub fn positions(&self) -> (r: Vec<(i64, i64)>)
        ensures
            r@.len() == self@.len(),
            forall|i: int| 0 <= i < r@.len() ==> (r@[i].0 as int, r@[i].1 as int) == self@[i],
    {
        let mut out: Vec<(i64, i64)> = Vec::new();
        let n = self.particles.len();
        for k in 0..n
            invariant
                n == self.particles@.len(),
                out@.len() == k,
                forall|i: int|
                    0 <= i < k ==> (out@[i].0 as int, out@[i].1 as int) == self@[i],
        {
            proof {
                self.lemma_view_index(k as int);
            }
            let p = self.particles[k];
            out.push((p.x, p.y));
        }
        out
    }

    /// Some particle lies in the cell that holds world position `(x, y)`.
    pub fn is_occupied(&self, x: i64, y: i64) -> (r: bool)
        requires
            self.wf(),
        ensures
            r == cell_taken(
                self@,
                cell_index(x as int, self.spec_cell_size()),
                cell_index(y as int, self.spec_cell_size()),
                self.spec_cell_size(),
            ),
    {
        let col = grid_coord(x, self.cell_size);
        let row = grid_coord(y, self.cell_size);
        taken_in_index(&self.particles, &self.columns, col, row, self.cell_size)
    }

    /// Adds a particle at the centre of the cell that holds `(x, y)`, unless
    /// that cell is taken or lies outside the world; says whether it did.
    /// A spawn does not know the viewport, so it may place a particle below
    /// the floor; see `advance` for what ticks do with such a particle.
    pub fn try_spawn(&mut self, x: i64, y: i64) -> (spawned: bool)
        requires
            old(self).wf(),
        ensures
            final(self).wf(),
            final(self).spec_cell_size() == old(self).spec_cell_size(),
            final(self).spec_fall_speed() == old(self).spec_fall_speed(),
            spawned == spawn_ok(old(self)@, x as int, y as int, old(self).spec_cell_size()),
            final(self)@ == after_spawn(old(self)@, x as int, y as int, old(self).spec_cell_size()),
    {
        let c = self.cell_size;
        if x < -WORLD_LIMIT || x > WORLD_LIMIT || y < -WORLD_LIMIT || y > WORLD_LIMIT {
            return false;
        }
        let cx = snap_to_center(x, c);
        let cy = snap_to_center(y, c);
        let limit = WORLD_LIMIT as i128;
        if cx < -limit || cx > limit || cy < -limit || cy > limit {
            return false;
        }
        let cx = cx as i64;
        let cy = cy as i64;
        if self.is_occupied(x, y) {
            return false;
        }
        let ghost before = self@;
        let ghost before_particles = self.particles@;
        proof {
            crate::grid::lemma_center_in_cell(cell_index(x as int, c as int), c as int);
            crate::grid::lemma_center_in_cell(cell_index(y as int, c as int), c as int);
        }
        let id = self.particles.len();
        self.particles.push(Particle { x: cx, y: cy, health: ParticleHealth { amount: 0 } });
        proof {
            assert(self@ =~= before.push((cx as int, cy as int)));
            crate::laws::lemma_spawn_keeps_cells_distinct(before, x as int, y as int, c as int);
            crate::index::lemma_index_extends(
                self.columns@,
                before_particles,
                self.particles@,
                c as int,
                id as int,
            );
        }
        add_to_index(&mut self.columns, &self.particles, id, c);
        true
    }

    /// A spawn request at `(x + dx, y + dy)`, where the sum may leave the
    /// range of `i64`, dropped when its column is excluded.
    fn try_spawn_offset(
        &mut self,
        x: i64,
        dx: i128,
        y: i64,
        dy: i128,
        excluded: &Vec<i64>,
    ) -> (spawned: bool)
        requires
            old(self).wf(),
            -0x1_0000_0000_0000_0000 <= dx <= 0x1_0000_0000_0000_0000,
            -0x1_0000_0000_0000_0000 <= dy <= 0x1_0000_0000_0000_0000,
        ensures
            final(self).wf(),
            final(self).spec_cell_size() == old(self).spec_cell_size(),
            final(self).spec_fall_speed() == old(self).spec_fall_speed(),
            final(self)@ == after_spawn_unless(
                old(self)@,
                x + dx,
                y + dy,
                old(self).spec_cell_size(),
                excluded@,
            ),
            final(self)@.len() == old(self)@.len() + if spawned {
                1int
            } else {
                0int
            },
    {
        let limit = WORLD_LIMIT as i128;
        let tx = (x as i128) + dx;
        let ty = (y as i128) + dy;
        if tx < -limit || tx > limit || ty < -limit || ty > limit {
            return false;
        }
        if column_in(excluded, grid_coord(tx as i64, self.cell_size)) {
            false
        } else {
            self.try_spawn(tx as i64, ty as i64)
        }
    }

    /// Spawns particles by `pattern` around the cell that holds `(x, y)`: the
    /// target cell first, then for the plus pattern the cells two steps left,
    /// right, down and up, each subject to the same test as `try_spawn`.
    /// Returns how many particles were added.
    pub fn try_spawn_brush(&mut self, x: i64, y: i64, pattern: BrushPattern) -> (count: usize)
        requires
            old(self).wf(),
        ensures
            final(self).wf(),
            final(self).spec_cell_size() == old(self).spec_cell_size(),
            final(self).spec_fall_speed() == old(self).spec_fall_speed(),
            final(self)@ == after_brush(
                old(self)@,
                x as int,
                y as int,
                old(self).spec_cell_size(),
                pattern,
            ),
            count == final(self)@.len() - old(self)@.len(),
    {
        let none: Vec<i64> = Vec::new();
        assert(none@ =~= Seq::<i64>::empty());
        self.try_spawn_brush_excluding(x, y, pattern, &none)
    }

    /// As `try_spawn_brush`, but a target cell whose column is in `excluded`
    /// gets no particle.
    pub fn try_spawn_brush_excluding(
        &mut self,
        x: i64,
        y: i64,
        pattern: BrushPattern,
        excluded: &Vec<i64>,
    ) -> (count: usize)
        requires
            old(self).wf(),
        ensures
            final(self).wf(),
            final(self).spec_cell_size() == old(self).spec_cell_size(),
            final(self).spec_fall_speed() == old(self).spec_fall_speed(),
            final(self)@ == after_brush_excluding(
                old(self)@,
                x as int,
                y as int,
                old(self).spec_cell_size(),
                pattern,
                excluded@,
            ),
            count == final(self)@.len() - old(self)@.len(),
    {
        let step = 2 * (self.cell_size as i128);
        let mut count: usize = 0;
        if self.try_spawn_offset(x, 0, y, 0, excluded) {
            count = count + 1;
        }
        match pattern {
            BrushPattern::Single => {},
            BrushPattern::Plus => {
                if self.try_spawn_offset(x, -step, y, 0, excluded) {
                    count = count + 1;
                }
                if self.try_spawn_offset(x, step, y, 0, excluded) {
                    count = count + 1;
                }
                if self.try_spawn_offset(x, 0, y, -step, excluded) {
                    count = count + 1;
                }
                if self.try_spawn_offset(x, 0, y, step, excluded) {
                    count = count + 1;
                }
            },
        }
        count
    }

    /// Moves every particle by one tick of `dt_us` microseconds on a viewport
    /// `viewport_height` units tall. Each particle's move is decided against
    /// the positions at the start of the tick. A particle is blocked by one
    /// below it in its column that lies within one cell of where it would
    /// fall; a blocked particle rests on the centre of the cell above its
    /// support, or slides to a free diagonal (left first) and keeps falling;
    /// an unblocked one falls, down to the floor at most. A move into a cell
    /// that was taken at the start of the tick, or that a lower particle (or,
    /// at equal height, one further left) also moves into, is not made: that
    /// particle keeps its position, even where the cell's occupant leaves it
    /// in the same tick, since every decision reads the start-of-tick
    /// positions only. So no two particles ever share a cell.
    ///
    /// When every particle starts the tick at or above the floor, every
    /// particle ends it there (`lemma_floor_kept`). A particle below the floor,
    /// spawned there or left there when the viewport shrank, is raised to it
    /// only by a move it makes; one held in place stays below.
    pub fn advance(&mut self, dt_us: u32, viewport_height: u32)
        requires
            old(self).wf(),
        ensures
            final(self).wf(),
            final(self).spec_cell_size() == old(self).spec_cell_size(),
            final(self).spec_fall_speed() == old(self).spec_fall_speed(),
            final(self)@ == step_all(
                old(self)@,
                old(self).spec_cell_size(),
                fall_of(old(self).spec_fall_speed(), dt_us as int),
                floor_of(viewport_height as int, old(self).spec_cell_size()),
            ),
            cells_distinct(final(self)@, final(self).spec_cell_size()),
    {
        let c = self.cell_size;
        let fall = fall_distance(self.fall_speed, dt_us);
        let floor = bottom_boundary(viewport_height, c) as i64;
        let ghost s = self@;
        let n = self.particles.len();
        let mut wanted: Vec<Particle> = Vec::new();
        for k in 0..n
            invariant
                n == self.particles@.len(),
                self.wf(),
                s == self@,
                c == self.cell_size,
                0 <= fall < MAX_FALL,
                in_world(floor as int),
                wanted@.len() == k,
                forall|i: int|
                    0 <= i < k ==> {
                        let q = #[trigger] wanted@[i];
                        &&& q@ == intended(s, s[i], c as int, fall as int, floor as int)
                        &&& in_world(q.x as int)
                        &&& centered(q.x as int, c as int)
                    },
        {
            let p = self.particles[k];
            proof {
                self.lemma_view_index(k as int);
            }
            wanted.push(intended_particle(&self.particles, &self.columns, p, c, fall, floor));
        }
        let claims = build_index(&wanted, c);
        let mut moved: Vec<Particle> = Vec::new();
        for k in 0..n
            invariant
                n == self.particles@.len(),
                self.wf(),
                s == self@,
                c == self.cell_size,
                fall == fall_of(self.fall_speed as int, dt_us as int),
                floor == floor_of(viewport_height as int, c as int),
                wanted@.len() == n,
                indexes(claims@, wanted@, c as int),
                forall|i: int|
                    0 <= i < n ==> {
                        let q = #[trigger] wanted@[i];
                        &&& q@ == intended(s, s[i], c as int, fall as int, floor as int)
                        &&& in_world(q.x as int)
                        &&& centered(q.x as int, c as int)
                    },
                moved@.len() == k,
                forall|i: int|
                    0 <= i < k ==> {
                        let q = #[trigger] moved@[i];
                        &&& q@ == step_one(s, s[i], c as int, fall as int, floor as int)
                        &&& in_world(q.x as int)
                        &&& in_world(q.y as int)
                        &&& centered(q.x as int, c as int)
                    },
        {
            let p = self.particles[k];
            let q = wanted[k];
            proof {
                self.lemma_view_index(k as int);
            }
            let ghost target = q@;
            let goes = if q.y < -WORLD_LIMIT || q.y > WORLD_LIMIT {
                false
            } else {
                let qc = grid_coord(q.x, c);
                let qr = grid_coord(q.y, c);
                if qc == grid_coord(p.x, c) && qr == grid_coord(p.y, c) {
                    true
                } else if taken_in_index(&self.particles, &self.columns, qc, qr, c) {
                    false
                } else {
                    let claimed = claimed_in_index(&self.particles, &wanted, &claims, p, qc, qr, c);
                    proof {
                        let ps = s[k as int];
                        if claimed {
                            let j = choose|j: int|
                                0 <= j < self.particles@.len() && ranks_before(
                                    self.particles@[j]@,
                                    p@,
                                ) && cell_index((#[trigger] wanted@[j]).x as int, c as int)
                                    == qc && cell_index(wanted@[j].y as int, c as int) == qr;
                            self.lemma_view_index(j);
                            assert(wanted@[j]@ == intended(s, s[j], c as int, fall as int, floor as int));
                            assert(claimed_before(s, ps, target, c as int, fall as int, floor as int));
                        }
                        if claimed_before(s, ps, target, c as int, fall as int, floor as int) {
                            let j = choose|j: int|
                                0 <= j < s.len() && ranks_before(s[j], ps) && same_cell(
                                    #[trigger] intended(s, s[j], c as int, fall as int, floor as int),
                                    target,
                                    c as int,
                                );
                            self.lemma_view_index(j);
                            assert(wanted@[j]@ == intended(s, s[j], c as int, fall as int, floor as int));
                            assert(ranks_before(self.particles@[j]@, p@) && cell_index(
                                wanted@[j].x as int,
                                c as int,
                            ) == qc && cell_index(wanted@[j].y as int, c as int) == qr);
                        }
                    }
                    !claimed
                }
            };
            assert(goes == moves(s, s[k as int], c as int, fall as int, floor as int));
            if goes {
                moved.push(q);
            } else {
                moved.push(p);
            }
        }
        self.columns = build_index(&moved, c);
        self.particles = moved;
        proof {
            crate::laws::lemma_tick_keeps_cells_distinct(s, c as int, fall as int, floor as int);
        }
        assert(self@ =~= step_all(s, c as int, fall as int, floor as int));
    }
}

/// `col` is one of the columns in `excluded`.
fn column_in(excluded: &Vec<i64>, col: i64) -> (r: bool)
    ensures
        r == column_listed(excluded@, col as int),
{
    let n = excluded.len();
    for k in 0..n
        invariant
            n == excluded@.len(),
            forall|j: int| 0 <= j < k ==> #[trigger] excluded@[j] != col,
    {
        if excluded[k] == col {
            return true;
        }
    }
    false
}

/// Where the rule sends `p` in one tick against the snapshot `snap`.
fn intended_particle(
    snap: &Vec<Particle>,
    index: &HashMap<i64, Vec<usize>>,
    p: Particle,
    cell: i64,
    fall: i128,
    floor: i64,
) -> (r: Particle)
    requires
        valid_cell_size(cell as int),
        indexes(index@, snap@, cell as int),
        0 <= fall < MAX_FALL,
        in_world(floor as int),
        in_world(p.x as int),
        in_world(p.y as int),
        centered(p.x as int, cell as int),
        forall|i: int| 0 <= i < snap@.len() ==> in_world(#[trigger] snap@[i].y as int),
    ensures
        r@ == intended(positions_of(snap@), p@, cell as int, fall as int, floor as int),
        in_world(r.x as int),
        in_world(r.y as int),
        centered(r.x as int, cell as int),
{
    let ghost s = positions_of(snap@);
    let limit = WORLD_LIMIT as i128;
    let t = (p.y as i128) - fall;
    let next: i64 = if t <= floor as i128 {
        floor
    } else {
        t as i64
    };
    if !blocked_in_index(snap, index, p, fall, cell) {
        return Particle { x: p.x, y: next, health: p.health };
    }
    match highest_in_index(snap, index, p, cell) {
        Some(v) => {
            proof {
                crate::rules::lemma_highest_below(s, p@, cell as int);
                let i0 = choose|i: int|
                    0 <= i < s.len() && crate::rules::below_in_column(s[i], p@, cell as int)
                        && s[i].1 == v;
                assert(s[i0] == snap@[i0]@);
                crate::grid::lemma_index_in_world(v as int, cell as int);
                crate::grid::lemma_index_in_world(p.x as int, cell as int);
            }
            let row = grid_coord(v, cell);
            let k = grid_coord(p.x, cell);
            proof {
                crate::grid::lemma_center_shift(k as int, cell as int);
                crate::grid::lemma_center_in_cell(k as int - 1, cell as int);
                crate::grid::lemma_center_in_cell(k as int + 1, cell as int);
            }
            let left = (p.x as i128) - (cell as i128);
            let right = (p.x as i128) + (cell as i128);
            if left >= -limit && !taken_in_index(snap, index, k - 1, row, cell) {
                Particle { x: left as i64, y: next, health: p.health }
            } else if right <= limit && !taken_in_index(snap, index, k + 1, row, cell) {
                Particle { x: right as i64, y: next, health: p.health }
            } else {
                proof {
                    assert(-WORLD_LIMIT * 0x8000_0000_0000_0000 <= (row + 1) * cell <= (WORLD_LIMIT
                        + 1) * 0x8000_0000_0000_0000) by (nonlinear_arith)
                        requires
                            -WORLD_LIMIT <= row <= WORLD_LIMIT,
                            1 <= cell < 0x8000_0000_0000_0000,
                    ;
                }
                let rest = ((row as i128) + 1) * (cell as i128) + (cell as i128) / 2;
                if -limit <= rest && rest <= limit {
                    Particle { x: p.x, y: rest as i64, health: p.health }
                } else {
                    p
                }
            }
        },
        None => Particle { x: p.x, y: next, health: p.health },
    }
}

} // verus!
