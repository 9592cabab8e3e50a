use field_of_vision::{field_of_view, FovMap, SampleMap, VisionMap};
use field_of_vision::bresenham::line_points;

/// The visible set of a map as a sorted coordinate list.
fn visible_set(fov: &FovMap, width: i32, height: i32) -> Vec<(i32, i32)> {
    let mut cells = Vec::new();
    for y in 0..height {
        for x in 0..width {
            if fov.is_in_fov(x, y) {
                cells.push((x, y));
            }
        }
    }
    cells
}

#[test]
fn origin_is_always_visible() {
    for &(w, h, x, y, r) in &[
        (10, 10, 5, 5, 0),
        (10, 10, 0, 0, 3),
        (10, 10, 9, 9, 100),
        (1, 7, 0, 6, 4),
        (12, 3, 11, 0, -2),
    ] {
        let mut fov = FovMap::new(w, h);
        fov.calculate_fov(x, y, r);
        assert!(fov.is_in_fov(x, y));
    }
}

#[test]
fn radius_zero_sees_only_origin() {
    let mut fov = FovMap::new(10, 10);
    fov.calculate_fov(4, 5, 0);
    for x in 0..10 {
        for y in 0..10 {
            assert_eq!(fov.is_in_fov(x, y), (x, y) == (4, 5));
        }
    }
    fov.calculate_fov(4, 5, -3);
    for x in 0..10 {
        for y in 0..10 {
            assert_eq!(fov.is_in_fov(x, y), (x, y) == (4, 5));
        }
    }
}

#[test]
fn radius_is_monotonic_on_open_grid() {
    let mut previous: Vec<(i32, i32)> = Vec::new();
    for r in 0..=7 {
        let mut fov = FovMap::new(10, 10);
        fov.calculate_fov(5, 5, r);
        let cells = visible_set(&fov, 10, 10);
        for cell in &previous {
            assert!(cells.contains(cell));
        }
        previous = cells;
    }
}

#[test]
fn radius_is_monotonic_on_open_grid_near_edge() {
    let mut previous: Vec<(i32, i32)> = Vec::new();
    for r in 0..=7 {
        let mut fov = FovMap::new(10, 10);
        fov.calculate_fov(1, 1, r);
        let cells = visible_set(&fov, 10, 10);
        for cell in &previous {
            assert!(cells.contains(cell));
        }
        previous = cells;
    }
}

#[test]
fn wall_occludes_cells_behind_it() {
    let mut fov = FovMap::new(10, 10);
    fov.set_transparent(5, 5, false);
    fov.calculate_fov(2, 5, 10);
    // The wall itself is visible; everything farther on the row is not.
    assert!(fov.is_in_fov(5, 5));
    assert!(!fov.is_in_fov(6, 5));
    assert!(!fov.is_in_fov(7, 5));
    assert!(!fov.is_in_fov(8, 5));
    assert!(!fov.is_in_fov(9, 5));
    // The clear run up to the wall is visible.
    assert!(fov.is_in_fov(3, 5));
    assert!(fov.is_in_fov(4, 5));
}

#[test]
fn wall_occludes_cells_below_it() {
    let mut fov = FovMap::new(10, 10);
    fov.set_transparent(5, 5, false);
    fov.calculate_fov(5, 2, 10);
    assert!(fov.is_in_fov(5, 5));
    assert!(!fov.is_in_fov(5, 6));
    assert!(!fov.is_in_fov(5, 9));
    assert!(fov.is_in_fov(5, 3));
    assert!(fov.is_in_fov(5, 4));
}

#[test]
fn last_origin_tracks_computations() {
    let mut fov = FovMap::new(6, 6);
    assert_eq!(fov.last_origin(), None);
    fov.calculate_fov(2, 3, 4);
    assert_eq!(fov.last_origin(), Some((2, 3)));
    fov.calculate_fov(1, 1, 0);
    assert_eq!(fov.last_origin(), Some((1, 1)));
}

#[test]
fn open_grid_visible_set_is_the_disc() {
    let mut fov = FovMap::new(10, 10);
    fov.calculate_fov(5, 5, 2);
    let mut count = 0;
    for x in 0..10 {
        for y in 0..10 {
            let dx = x - 5;
            let dy = y - 5;
            assert_eq!(fov.is_in_fov(x, y), dx * dx + dy * dy <= 4);
            if fov.is_in_fov(x, y) {
                count += 1;
            }
        }
    }
    assert_eq!(count, 13);
}

#[test]
fn diagonal_wall_patch() {
    // A vertical wall along the last column and a horizontal wall along
    // row 3, seen from above the horizontal wall.
    let mut fov = FovMap::new(10, 10);
    for y in 0..10 {
        fov.set_transparent(9, y, false);
    }
    for x in 1..=9 {
        fov.set_transparent(x, 3, false);
    }
    fov.calculate_fov(3, 2, 10);

    // Nothing behind the horizontal wall is visible.
    for x in 0..10 {
        for y in 4..10 {
            assert!(!fov.is_in_fov(x, y));
        }
    }
    // The wall cells the rays sweep directly.
    for x in 1..=6 {
        assert!(fov.is_in_fov(x, 3));
    }
    // The far wall cells no ray reaches, repaired by the post-processor
    // from their visible open upper neighbors.
    assert!(fov.is_in_fov(7, 2));
    assert!(fov.is_in_fov(8, 2));
    assert!(fov.is_in_fov(7, 3));
    assert!(fov.is_in_fov(8, 3));
    // The corner wall cell has no transparent visible neighbor toward the
    // origin and stays invisible.
    assert!(!fov.is_in_fov(9, 3));
    // The vertical wall above the horizontal one is visible.
    assert!(fov.is_in_fov(9, 0));
    assert!(fov.is_in_fov(9, 1));
    assert!(fov.is_in_fov(9, 2));
}

#[test]
fn recomputation_is_idempotent() {
    let mut fov = FovMap::new(12, 9);
    fov.set_transparent(4, 4, false);
    fov.set_transparent(7, 2, false);
    fov.calculate_fov(2, 3, 6);
    let first = visible_set(&fov, 12, 9);
    fov.calculate_fov(2, 3, 6);
    let second = visible_set(&fov, 12, 9);
    assert_eq!(first, second);
}

#[test]
fn sample_map_and_fov_map_agree() {
    let mut fov = FovMap::new(10, 10);
    let mut sample = SampleMap::new(10, 10);
    for x in 1..10 {
        fov.set_transparent(x, 3, false);
        sample.set_transparent(x, 3, false);
    }
    fov.calculate_fov(3, 2, 10);
    sample.calculate_fov(3, 2, 10);
    for x in 0..10 {
        for y in 0..10 {
            assert_eq!(fov.is_in_fov(x, y), sample.is_in_fov(x, y));
        }
    }
}

#[test]
fn field_of_view_list_matches_dense_flags() {
    let mut fov = FovMap::new(10, 10);
    fov.set_transparent(5, 5, false);
    fov.calculate_fov(2, 5, 4);
    let mut reference = SampleMap::new(10, 10);
    reference.set_transparent(5, 5, false);
    let cells = field_of_view(&mut reference, 2, 5, 4);
    for x in 0..10 {
        for y in 0..10 {
            assert_eq!(fov.is_in_fov(x, y), cells.contains(&(x, y)));
        }
    }
}

#[test]
fn line_endpoints_and_connectivity() {
    for &(x0, y0, x1, y1) in &[
        (0, 0, 5, 2),
        (3, 2, 9, 3),
        (4, 4, 4, 4),
        (7, 1, 0, 8),
        (-3, 5, 2, -6),
    ] {
        let points = line_points(x0, y0, x1, y1);
        assert_eq!(points[0], (x0, y0));
        assert_eq!(*points.last().unwrap(), (x1, y1));
        for pair in points.windows(2) {
            let (ax, ay) = pair[0];
            let (bx, by) = pair[1];
            assert!((ax - bx).abs() <= 1 && (ay - by).abs() <= 1);
            assert!((ax, ay) != (bx, by));
        }
    }
}

#[test]
fn horizontal_line_is_straight() {
    let points = line_points(2, 7, 8, 7);
    let expected: Vec<(i32, i32)> = (2..=8).map(|x| (x, 7)).collect();
    assert_eq!(points, expected);
}
