use points_in_polygon::{
    point_in_polygon, point_in_polygon_rayster, point_in_polygon_scanline, ClassifyError,
};

/// Lattice units per coordinate unit.
const U: i32 = 1_000_000;

fn square() -> Vec<i32> {
    vec![0, 0, 3 * U, 0, 3 * U, 3 * U, 0, 3 * U]
}

fn square_with_hole() -> Vec<i32> {
    let mut p = square();
    p.extend_from_slice(&[U, U, 2 * U, U, 2 * U, 2 * U, U, 2 * U]);
    p
}

fn all_three(points: &[i32], polygon: &[i32], splits: &[u32], b: bool) -> Vec<u32> {
    let a = point_in_polygon(points, polygon, splits, b).unwrap();
    let r = point_in_polygon_rayster(points, polygon, splits, b).unwrap();
    let s = point_in_polygon_scanline(points, polygon, splits, b).unwrap();
    assert_eq!(a, r);
    assert_eq!(a, s);
    a
}

#[test]
fn square_without_hole() {
    let points = [3 * U / 2, 3 * U / 2, 4 * U, 3 * U / 2];
    assert_eq!(all_three(&points, &square(), &[4], true), vec![1, 0]);
}

#[test]
fn square_with_concentric_hole() {
    let points = [3 * U / 2, 3 * U / 2, U / 2, U / 2, 5 * U / 2, U / 2];
    assert_eq!(all_three(&points, &square_with_hole(), &[4], true), vec![0, 1, 1]);
}

#[test]
fn boundary_flag_semantics() {
    let points = [3 * U, 3 * U / 2];
    assert_eq!(all_three(&points, &square_with_hole(), &[4], true), vec![1]);
    assert_eq!(all_three(&points, &square_with_hole(), &[4], false), vec![0]);
}

#[test]
fn hole_edges_and_corners_take_the_boundary_flag() {
    let points = [U, 3 * U / 2, 2 * U, 2 * U, 0, 0, 3 * U / 2, 2 * U];
    assert_eq!(all_three(&points, &square_with_hole(), &[4], true), vec![1, 1, 1, 1]);
    assert_eq!(all_three(&points, &square_with_hole(), &[4], false), vec![0, 0, 0, 0]);
}

#[test]
fn repeated_calls_agree() {
    let points = [3 * U / 2, 3 * U / 2, U / 2, U / 2, 3 * U, U, -U, U];
    let first = point_in_polygon(&points, &square_with_hole(), &[4], true);
    let second = point_in_polygon(&points, &square_with_hole(), &[4], true);
    assert_eq!(first, second);
    assert_eq!(first, Ok(vec![0, 1, 1, 0]));
}

#[test]
fn empty_inputs_give_zero_flags() {
    assert_eq!(point_in_polygon(&[], &square(), &[4], true), Ok(vec![]));
    assert_eq!(point_in_polygon(&[U, U, 2 * U, 2 * U], &[], &[4], true), Ok(vec![0, 0]));
    assert_eq!(point_in_polygon(&[U, U, 2 * U, 2 * U], &square(), &[], true), Ok(vec![0, 0]));
    // A trailing odd coordinate is not a point.
    assert_eq!(point_in_polygon(&[U], &square(), &[4], true), Ok(vec![]));
}

#[test]
fn split_past_the_vertices_is_refused() {
    let r = point_in_polygon(&[U, U], &square(), &[2, 5, 9], true);
    assert_eq!(r, Err(ClassifyError::SplitOutOfRange { position: 1, split: 5, vertex_count: 4 }));
    let r = point_in_polygon_rayster(&[U, U], &square(), &[7], false);
    assert_eq!(r, Err(ClassifyError::SplitOutOfRange { position: 0, split: 7, vertex_count: 4 }));
}

#[test]
fn explicit_last_split_matches_trailing_ring() {
    let points = [3 * U / 2, 3 * U / 2, U / 2, U / 2];
    let trailing = all_three(&points, &square_with_hole(), &[4], true);
    let explicit = all_three(&points, &square_with_hole(), &[4, 8], true);
    assert_eq!(trailing, vec![0, 1]);
    assert_eq!(trailing, explicit);
}

#[test]
fn repeated_vertices_are_dropped() {
    let polygon = [0, 0, 0, 0, 3 * U, 0, 3 * U, 3 * U, 3 * U, 3 * U, 0, 3 * U, 0, 0];
    let points = [U, U, 4 * U, U, 0, 3 * U / 2];
    assert_eq!(all_three(&points, &polygon, &[7], true), vec![1, 0, 1]);
}

#[test]
fn zero_area_polygon_matches_only_its_edges() {
    let segment = [0, 0, 2 * U, 0];
    let points = [U, 0, 3 * U, 0, U, 1];
    assert_eq!(all_three(&points, &segment, &[2], true), vec![1, 0, 0]);
    assert_eq!(all_three(&points, &segment, &[2], false), vec![0, 0, 0]);
}

#[test]
fn ray_through_a_crossing_vertex_counts_once() {
    let diamond = [0, -U, U, 0, 0, U, -U, 0];
    let points = [U / 2, 0, -U / 2, 0, 0, 0, 2 * U, 0];
    assert_eq!(all_three(&points, &diamond, &[4], true), vec![1, 1, 1, 0]);
}

#[test]
fn ray_touching_an_apex_counts_nothing() {
    let triangle = [0, 0, 2 * U, 2 * U, 4 * U, 0];
    let points = [U / 2, 2 * U, 7 * U / 2, 2 * U, 2 * U, U];
    assert_eq!(all_three(&points, &triangle, &[3], true), vec![0, 0, 1]);
}

#[test]
fn ray_along_a_horizontal_hole_edge() {
    // Rays at y = 1 and y = 2 run along the hole's bottom and top edges.
    let points = [U / 2, U, 5 * U / 2, U, U / 2, 2 * U, 5 * U / 2, 2 * U];
    assert_eq!(all_three(&points, &square_with_hole(), &[4], true), vec![1, 1, 1, 1]);
}

#[test]
fn l_shaped_outline() {
    let l_shape = [0, 0, 3 * U, 0, 3 * U, U, U, U, U, 3 * U, 0, 3 * U];
    let points = [U / 2, 2 * U, 2 * U, 2 * U, 2 * U, U / 2];
    assert_eq!(all_three(&points, &l_shape, &[6], true), vec![1, 0, 1]);
}

#[test]
fn hole_outside_the_outer_box_is_not_associated() {
    let mut polygon = square();
    polygon.extend_from_slice(&[2 * U, 2 * U, 4 * U, 2 * U, 4 * U, 4 * U, 2 * U, 4 * U]);
    let points = [5 * U / 2, 5 * U / 2, U / 2, U / 2];
    assert_eq!(all_three(&points, &polygon, &[4], true), vec![1, 1]);
}

#[test]
fn two_holes_each_exclude_their_points() {
    let mut polygon = vec![0, 0, 10 * U, 0, 10 * U, 4 * U, 0, 4 * U];
    polygon.extend_from_slice(&[U, U, 3 * U, U, 3 * U, 3 * U, U, 3 * U]);
    polygon.extend_from_slice(&[6 * U, U, 8 * U, U, 8 * U, 3 * U, 6 * U, 3 * U]);
    let points = [2 * U, 2 * U, 7 * U, 2 * U, 5 * U, 2 * U, 9 * U, 2 * U];
    assert_eq!(all_three(&points, &polygon, &[4, 8], true), vec![0, 0, 1, 1]);
}

#[test]
fn slanted_edges_use_exact_crossings() {
    let triangle = [0, 0, 3, 0, 0, 3];
    // (1, 1) is strictly inside, (2, 1) is on the hypotenuse, (2, 2) is outside.
    let points = [1, 1, 2, 1, 2, 2];
    assert_eq!(all_three(&points, &triangle, &[3], true), vec![1, 1, 0]);
    assert_eq!(all_three(&points, &triangle, &[3], false), vec![1, 0, 0]);
}

#[test]
fn many_points_on_one_scanline_share_crossings() {
    let mut points = Vec::new();
    for i in -2..=8 {
        points.push(i * U / 2);
        points.push(3 * U / 2);
    }
    let flags = all_three(&points, &square_with_hole(), &[4], false);
    assert_eq!(flags, vec![0, 0, 0, 1, 0, 0, 0, 1, 0, 0, 0]);
}

#[test]
fn extreme_coordinates_do_not_overflow() {
    let big = [i32::MIN, i32::MIN, i32::MAX, i32::MIN, i32::MAX, i32::MAX, i32::MIN, i32::MAX];
    let points = [0, 0, i32::MAX, 0, i32::MAX - 1, i32::MAX - 1];
    assert_eq!(all_three(&points, &big, &[4], false), vec![1, 0, 1]);
}

#[test]
fn scanline_order_keeps_input_order_of_flags() {
    // Heights in a scrambled order, several points per height.
    let mut points = Vec::new();
    for k in 0..60 {
        let x = (k * 37 % 61) * U / 10 - U;
        let y = (k * 13 % 7) * U / 2;
        points.push(x);
        points.push(y);
    }
    let by_grid = point_in_polygon(&points, &square_with_hole(), &[4], true).unwrap();
    let by_scanline = point_in_polygon_scanline(&points, &square_with_hole(), &[4], true).unwrap();
    assert_eq!(by_grid, by_scanline);
    for k in 0..60 {
        let (x, y) = (points[2 * k] as i64, points[2 * k + 1] as i64);
        let u = U as i64;
        let in_outer = 0 <= x && x <= 3 * u && 0 <= y && y <= 3 * u;
        let in_hole = u < x && x < 2 * u && u < y && y < 2 * u;
        assert_eq!(by_grid[k], (in_outer && !in_hole) as u32, "point {k}");
    }
}

#[test]
fn strategies_agree_on_a_circle_grid() {
    let segments = 128;
    let mut outline: Vec<i32> = Vec::new();
    for (cx, r) in [(0.0f64, 5.0f64), (-2.0, 1.0), (2.0, 1.0)] {
        for i in 0..segments {
            let angle = 2.0 * std::f64::consts::PI * (i as f64) / (segments as f64);
            outline.push(((cx + r * angle.cos()) * U as f64).round() as i32);
            outline.push((r * angle.sin() * U as f64).round() as i32);
        }
    }
    let splits = [segments as u32, 2 * segments as u32];
    let mut points = Vec::new();
    for i in 0..=240 {
        for j in 0..=240 {
            points.push(-6 * U + i * U / 20);
            points.push(-6 * U + j * U / 20);
        }
    }
    let flags = all_three(&points, &outline, &splits, true);
    let inside = flags.iter().filter(|&&f| f == 1).count();
    assert!(inside > 0 && inside < flags.len());
}
