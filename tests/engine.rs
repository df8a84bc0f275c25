use sand_grid::engine::{BrushPattern, SandGrid};
use sand_grid::grid::{
    bottom_boundary, grid_coord, snap_to_center, WORLD_LIMIT,
};

const HEIGHT: u32 = 720;

fn grid() -> SandGrid {
    SandGrid::new(5, 120).unwrap()
}

fn cells(g: &SandGrid) -> Vec<(i64, i64)> {
    let c = g.cell_size();
    g.positions()
        .iter()
        .map(|&(x, y)| (grid_coord(x, c), grid_coord(y, c)))
        .collect()
}

fn all_distinct(v: &[(i64, i64)]) -> bool {
    for i in 0..v.len() {
        for j in (i + 1)..v.len() {
            if v[i] == v[j] {
                return false;
            }
        }
    }
    true
}

#[test]
fn new_rejects_invalid_configuration() {
    assert!(SandGrid::new(0, 120).is_none());
    assert!(SandGrid::new(-5, 120).is_none());
    assert!(SandGrid::new(5, 0).is_none());
    assert!(SandGrid::new(5, -1).is_none());
    let g = SandGrid::new(10, 240).unwrap();
    assert_eq!(g.cell_size(), 10);
    assert_eq!(g.fall_speed(), 240);
    assert_eq!(g.len(), 0);
    assert!(SandGrid::new(2_097_152, 120_000).is_some());
    assert!(SandGrid::new(i64::MAX, i64::MAX).is_some());
    assert!(SandGrid::new(1, 1).is_some());
}

#[test]
fn spawn_places_particle_at_cell_center() {
    let mut g = grid();
    assert!(g.try_spawn(0, 100));
    assert_eq!(g.len(), 1);
    assert_eq!(g.position(0), (2, 102));
    assert!(g.is_occupied(4, 104));
    assert!(!g.is_occupied(5, 104));
    assert_eq!(g.positions(), vec![(2, 102)]);
}

#[test]
fn single_particle_falls_by_speed_times_dt() {
    let mut g = grid();
    assert!(g.try_spawn(0, 100));
    let (x0, y0) = g.position(0);
    g.advance(1_000_000, HEIGHT);
    assert_eq!(g.position(0), (x0, y0 - 120));
}

#[test]
fn fall_is_clamped_at_floor() {
    let mut g = grid();
    assert!(g.try_spawn(0, -300));
    assert_eq!(g.position(0), (2, -298));
    g.advance(1_000_000, HEIGHT);
    assert_eq!(g.position(0), (2, bottom_boundary(HEIGHT, 5) as i64));
}

#[test]
fn upper_rests_one_cell_above_lower() {
    let floor = bottom_boundary(HEIGHT, 5) as i64;
    let mut g = grid();
    assert!(g.try_spawn(0, floor));
    // Neighbours on the floor close both diagonals.
    assert!(g.try_spawn(-5, floor));
    assert!(g.try_spawn(5, floor));
    assert!(g.try_spawn(0, floor + 5));
    assert_eq!(g.position(0), (2, floor));
    assert_eq!(g.position(3), (2, floor + 5));
    for _ in 0..20 {
        g.advance(16_000, HEIGHT);
        assert!(all_distinct(&cells(&g)));
    }
    assert_eq!(g.position(0), (2, floor));
    assert_eq!(g.position(3), (2, floor + 5));
}

#[test]
fn two_stacked_particles_never_overlap() {
    let floor = bottom_boundary(HEIGHT, 5) as i64;
    let mut g = grid();
    assert!(g.try_spawn(0, floor));
    assert!(g.try_spawn(0, floor + 5));
    for _ in 0..20 {
        g.advance(16_000, HEIGHT);
        assert!(all_distinct(&cells(&g)));
    }
    assert_eq!(g.position(0), (2, floor));
    // With its left diagonal free the upper particle slid there and fell.
    assert_eq!(g.position(1), (-3, floor));
}

#[test]
fn blocked_particle_prefers_left_diagonal() {
    let floor = bottom_boundary(HEIGHT, 5) as i64;
    let mut g = grid();
    assert!(g.try_spawn(0, floor));
    assert!(g.try_spawn(0, floor + 5));
    g.advance(16_000, HEIGHT);
    assert_eq!(g.position(1), (-3, floor + 5 - 1));
    g.advance(16_000, HEIGHT);
    assert_eq!(g.position(1), (-3, floor + 5 - 2));
}

#[test]
fn blocked_particle_slides_right_when_left_is_taken() {
    let floor = bottom_boundary(HEIGHT, 5) as i64;
    let mut g = grid();
    assert!(g.try_spawn(0, floor));
    assert!(g.try_spawn(-5, floor));
    assert!(g.try_spawn(0, floor + 5));
    g.advance(16_000, HEIGHT);
    assert_eq!(g.position(2), (7, floor + 4));
}

#[test]
fn fast_fall_passes_particle_more_than_a_cell_below() {
    let mut g = grid();
    assert!(g.try_spawn(0, 0));
    assert!(g.try_spawn(0, 100));
    // Falls 120 units: the particle at y = 2 is never within one cell of
    // y = -18, so it does not block.
    g.advance(1_000_000, HEIGHT);
    assert_eq!(g.position(1), (2, -18));
    assert_eq!(g.position(0), (2, -118));
}

#[test]
fn fall_to_floor_never_lands_on_a_resting_particle() {
    let mut g = SandGrid::new(10, 1000).unwrap();
    assert_eq!(bottom_boundary(0, 10), 5);
    assert!(g.try_spawn(5, 5));
    assert!(g.try_spawn(5, 15));
    g.advance(1_000_000, 0);
    assert_eq!(g.positions(), vec![(5, 5), (5, 15)]);
    assert!(all_distinct(&cells(&g)));
}

#[test]
fn blocking_needs_a_particle_within_one_cell() {
    let mut g = SandGrid::new(10, 175).unwrap();
    assert!(g.try_spawn(5, 45));
    assert!(g.try_spawn(5, 55));
    assert!(g.try_spawn(5, 205));
    g.advance(1_000_000, 0);
    assert_eq!(g.position(2), (5, 30));
    // Both lower particles fall to the floor cell; the lower one claims it.
    assert_eq!(g.position(0), (5, 5));
    assert_eq!(g.position(1), (5, 55));
    assert!(all_distinct(&cells(&g)));
}

#[test]
fn particle_rests_on_cell_center_above_falling_support() {
    let mut g = SandGrid::new(10, 43).unwrap();
    assert!(g.try_spawn(5, 95));
    g.advance(1_000_000, 0);
    assert_eq!(g.position(0), (5, 52));
    assert!(g.try_spawn(-5, 55));
    assert!(g.try_spawn(15, 55));
    assert!(g.try_spawn(5, 75));
    g.advance(349_000, 0);
    assert_eq!(g.position(0), (5, 37));
    // Blocked by the support at 52 with both diagonals taken: it rests on
    // the centre of the cell above the support.
    assert_eq!(g.position(3), (5, 65));
    assert_eq!(snap_to_center(65, 10), 65);
}

#[test]
fn two_slides_into_one_cell_serve_the_left_one() {
    let floor = bottom_boundary(HEIGHT, 5) as i64;
    let mut g = grid();
    assert!(g.try_spawn(-5, floor));
    assert!(g.try_spawn(0, floor));
    assert!(g.try_spawn(0, floor + 5));
    assert!(g.try_spawn(10, floor));
    assert!(g.try_spawn(10, floor + 5));
    g.advance(16_000, HEIGHT);
    assert_eq!(g.position(2), (7, floor + 4));
    assert_eq!(g.position(4), (12, floor + 5));
    assert!(all_distinct(&cells(&g)));
}

#[test]
fn brush_skips_excluded_columns() {
    let mut g = grid();
    assert_eq!(g.try_spawn_brush_excluding(0, 100, BrushPattern::Plus, &vec![0]), 2);
    assert_eq!(g.positions(), vec![(-8, 102), (12, 102)]);
    assert_eq!(g.try_spawn_brush_excluding(0, 200, BrushPattern::Single, &vec![3, -2]), 1);
    assert_eq!(g.len(), 3);
}

#[test]
fn many_ticks_keep_cells_distinct() {
    let mut g = grid();
    for i in 0..15i64 {
        g.try_spawn_brush(i * 4 - 30, 40 + i * 9, BrushPattern::Plus);
    }
    for step in 0..150u32 {
        g.advance((16 + (step % 5) * 40) * 1000, HEIGHT);
        assert!(all_distinct(&cells(&g)));
    }
}

#[test]
fn largest_cell_still_holds_a_particle() {
    let mut g = SandGrid::new(i64::MAX, 1).unwrap();
    assert!(g.try_spawn(0, 0));
    let center = i64::MAX / 2;
    assert_eq!(g.position(0), (center, center));
    g.advance(1_000_000, HEIGHT);
    assert_eq!(g.position(0), (center, center));
    assert_eq!(g.try_spawn_brush(0, 0, BrushPattern::Plus), 0);
}

#[test]
fn fastest_fall_lands_on_floor() {
    let mut g = SandGrid::new(5, i64::MAX).unwrap();
    assert!(g.try_spawn(0, 100));
    g.advance(u32::MAX, HEIGHT);
    assert_eq!(g.position(0), (2, bottom_boundary(HEIGHT, 5) as i64));
}

#[test]
fn spawn_on_occupied_cell_is_a_no_op() {
    let mut g = grid();
    assert!(g.try_spawn(0, 100));
    assert!(!g.try_spawn(0, 100));
    assert!(!g.try_spawn(4, 104));
    assert_eq!(g.len(), 1);
    assert_eq!(g.position(0), (2, 102));
}

#[test]
fn spawn_outside_world_is_refused() {
    let mut g = grid();
    assert!(!g.try_spawn(WORLD_LIMIT + 1, 0));
    assert!(!g.try_spawn(0, -WORLD_LIMIT - 1));
    assert!(!g.try_spawn(i64::MAX, i64::MIN));
    assert_eq!(g.len(), 0);
    assert!(g.try_spawn(-WORLD_LIMIT + 5, WORLD_LIMIT - 5));
    assert_eq!(g.len(), 1);
}

#[test]
fn brush_plus_spawns_five_cells() {
    let mut g = grid();
    assert_eq!(g.try_spawn_brush(0, 100, BrushPattern::Plus), 5);
    assert_eq!(
        g.positions(),
        vec![(2, 102), (-8, 102), (12, 102), (2, 92), (2, 112)]
    );
    assert_eq!(g.try_spawn_brush(0, 100, BrushPattern::Plus), 0);
    assert_eq!(g.len(), 5);
}

#[test]
fn brush_plus_skips_taken_cells() {
    let mut g = grid();
    assert!(g.try_spawn(10, 100));
    assert_eq!(g.try_spawn_brush(0, 100, BrushPattern::Plus), 4);
    assert_eq!(g.len(), 5);
    assert!(all_distinct(&cells(&g)));
}

#[test]
fn brush_single_spawns_one_cell() {
    let mut g = grid();
    assert_eq!(g.try_spawn_brush(0, 100, BrushPattern::Single), 1);
    assert_eq!(g.try_spawn_brush(1, 101, BrushPattern::Single), 0);
    assert_eq!(g.positions(), vec![(2, 102)]);
}

#[test]
fn brush_at_world_edge_does_not_overflow() {
    let mut g = grid();
    assert_eq!(g.try_spawn_brush(i64::MAX, 0, BrushPattern::Plus), 0);
    assert_eq!(g.len(), 0);
}

#[test]
fn zero_dt_leaves_settled_pile_unchanged() {
    let floor = bottom_boundary(HEIGHT, 5) as i64;
    let mut g = grid();
    assert!(g.try_spawn(0, floor));
    assert!(g.try_spawn(-5, floor));
    assert!(g.try_spawn(5, floor));
    assert!(g.try_spawn(0, floor + 5));
    let before = g.positions();
    g.advance(0, HEIGHT);
    assert_eq!(g.positions(), before);
}

#[test]
fn floor_holds_over_many_ticks() {
    let mut g = grid();
    for i in 0..12i64 {
        g.try_spawn_brush(i * 3 - 15, 50 + i * 7, BrushPattern::Plus);
    }
    let floor = bottom_boundary(HEIGHT, 5) as i64;
    for _ in 0..200 {
        g.advance(33_000, HEIGHT);
        for (_, y) in g.positions() {
            assert!(y >= floor);
        }
    }
}

#[test]
fn replay_in_another_order_gives_same_positions() {
    let spawns = [(0i64, 40i64), (0, 60), (5, 40), (-5, 90), (0, 20)];
    let mut a = grid();
    let mut b = grid();
    for &(x, y) in spawns.iter() {
        assert!(a.try_spawn(x, y));
    }
    for &(x, y) in spawns.iter().rev() {
        assert!(b.try_spawn(x, y));
    }
    let n = spawns.len();
    for step in 0..60u32 {
        a.advance((16 + step % 3) * 1000, HEIGHT);
        b.advance((16 + step % 3) * 1000, HEIGHT);
        for i in 0..n {
            assert_eq!(a.position(i), b.position(n - 1 - i));
        }
    }
}

#[test]
fn unblocked_tick_keeps_cells_distinct() {
    let mut g = grid();
    assert!(g.try_spawn(0, 0));
    assert!(g.try_spawn(0, 100));
    assert!(g.try_spawn(5, 3));
    assert!(g.try_spawn(25, -200));
    g.advance(100_000, HEIGHT);
    assert_eq!(g.positions(), vec![(2, -10), (2, 90), (7, -10), (27, -210)]);
    assert!(all_distinct(&cells(&g)));
}
