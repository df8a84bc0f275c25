use sand_grid::grid::{
    bottom_boundary, fall_distance, grid_coord, snap_to_center,
};

#[test]
fn grid_coord_floors_toward_negative() {
    assert_eq!(grid_coord(0, 5), 0);
    assert_eq!(grid_coord(4, 5), 0);
    assert_eq!(grid_coord(5, 5), 1);
    assert_eq!(grid_coord(100, 5), 20);
    assert_eq!(grid_coord(-1, 5), -1);
    assert_eq!(grid_coord(-5, 5), -1);
    assert_eq!(grid_coord(-6, 5), -2);
    assert_eq!(grid_coord(i64::MIN, 1), i64::MIN);
}

#[test]
fn snap_to_center_uses_half_cell_rounded_down() {
    assert_eq!(snap_to_center(100, 5), 102);
    assert_eq!(snap_to_center(104, 5), 102);
    assert_eq!(snap_to_center(-1, 5), -3);
    assert_eq!(snap_to_center(0, 10), 5);
    assert_eq!(snap_to_center(7, 1), 7);
}

#[test]
fn resnap_of_a_center_is_stable() {
    for v in [-1000i64, -358, -17, -1, 0, 3, 102, 999] {
        for cell in [1i64, 2, 5, 10] {
            let c = snap_to_center(v, cell) as i64;
            assert_eq!(snap_to_center(c, cell), c as i128);
            assert_eq!(grid_coord(c, cell), grid_coord(v, cell));
        }
    }
}

#[test]
fn bottom_boundary_values() {
    assert_eq!(bottom_boundary(720, 5), -358);
    assert_eq!(bottom_boundary(720, 10), -355);
    assert_eq!(bottom_boundary(0, 5), 2);
    assert_eq!(bottom_boundary(7, 5), 2);
    assert_eq!(bottom_boundary(10, 5), -3);
}

#[test]
fn fall_distance_values() {
    assert_eq!(fall_distance(120, 1_000_000), 120);
    assert_eq!(fall_distance(120, 16_000), 1);
    assert_eq!(fall_distance(120, 16_667), 2);
    assert_eq!(fall_distance(240, 500_000), 120);
    assert_eq!(fall_distance(120, 0), 0);
    assert_eq!(
        fall_distance(i64::MAX, u32::MAX),
        (i64::MAX as i128) * (u32::MAX as i128) / 1_000_000
    );
}

#[test]
fn largest_cell_size_is_accepted() {
    assert_eq!(bottom_boundary(u32::MAX, i64::MAX), (i64::MAX / 2) as i128);
    assert_eq!(snap_to_center(-1, i64::MAX), -(i64::MAX as i128) + (i64::MAX / 2) as i128);
}
