use points_in_polygon::point_in_polygon_rayster;

const UNITS_PER_COORD: f64 = 1_000_000.0;

fn lattice(coords: &[f32]) -> Vec<i32> {
    coords.iter().map(|&v| (v as f64 * UNITS_PER_COORD).round() as i32).collect()
}

#[test]
fn test_square_with_hole() {
    let polygon = lattice(&[
        0.0, 0.0, 3.0, 0.0, 3.0, 3.0, 0.0, 3.0, // Outer ring
        1.0, 1.0, 2.0, 1.0, 2.0, 2.0, 1.0, 2.0, // Hole
    ]);
    let rings = vec![4];

    // Test outer area
    assert_eq!(
        point_in_polygon_rayster(&lattice(&[4.0, 1.5]), &polygon, &rings, true),
        Ok(vec![0])
    );
    assert_eq!(
        point_in_polygon_rayster(&lattice(&[-1.0, 1.5]), &polygon, &rings, true),
        Ok(vec![0])
    );

    // Test hole area
    assert_eq!(
        point_in_polygon_rayster(&lattice(&[1.5, 1.5]), &polygon, &rings, true),
        Ok(vec![0])
    );

    // Test valid area
    assert_eq!(
        point_in_polygon_rayster(&lattice(&[0.5, 0.5]), &polygon, &rings, true),
        Ok(vec![1])
    );
    assert_eq!(
        point_in_polygon_rayster(&lattice(&[2.5, 0.5]), &polygon, &rings, true),
        Ok(vec![1])
    );

    // Test boundary
    assert_eq!(
        point_in_polygon_rayster(&lattice(&[3.0, 1.5]), &polygon, &rings, true),
        Ok(vec![1])
    );
    assert_eq!(
        point_in_polygon_rayster(&lattice(&[3.0, 1.5]), &polygon, &rings, false),
        Ok(vec![0])
    );
}

#[test]
fn test_square_with_hole_grid_points() {
    let step: f32 = 0.005;
    let range_start: f32 = -10.0;
    let range_end: f32 = 10.0;
    let points_per_axis = ((range_end - range_start) / step) as usize + 1;
    let num_points = points_per_axis * points_per_axis;
    let mut coords: Vec<f32> = Vec::with_capacity(num_points * 2);
    for x in 0..points_per_axis {
        let x_coord = range_start + (x as f32) * step;
        for y in 0..points_per_axis {
            let y_coord = range_start + (y as f32) * step;
            coords.push(x_coord);
            coords.push(y_coord);
        }
    }
    let points = lattice(&coords);

    let polygon = lattice(&[
        0.0, 0.0, 3.0, 0.0, 3.0, 3.0, 0.0, 3.0, // Outer ring
        1.0, 1.0, 2.0, 1.0, 2.0, 2.0, 1.0, 2.0, // Hole
    ]);
    let rings = vec![4];
    let results = point_in_polygon_rayster(&points, &polygon, &rings, true).unwrap();
    assert_eq!(results.len(), num_points);

    let mut correct_count = 0usize;
    for i in 0..num_points {
        let x = coords[i * 2] as f64;
        let y = coords[i * 2 + 1] as f64;
        let expected = if x > 3.0 || x < 0.0 || y > 3.0 || y < 0.0 {
            0
        } else if x > 1.0 && x < 2.0 && y > 1.0 && y < 2.0 {
            0
        } else {
            1
        };
        if results[i] == expected {
            correct_count += 1;
        }
    }
    println!(
        "square polygon accuracy: {}/{} = {:.6}%",
        correct_count,
        num_points,
        correct_count as f64 / num_points as f64 * 100.0
    );
    assert!(correct_count as f64 / num_points as f64 > 0.999);
}

#[test]
fn test_circle_with_holes_grid_points() {
    let step: f32 = 0.01;
    let range_start: f32 = -10.0;
    let range_end: f32 = 10.0;
    let points_per_axis = ((range_end - range_start) / step) as usize + 1;
    let num_points = points_per_axis * points_per_axis;
    let mut coords: Vec<f32> = Vec::with_capacity(num_points * 2);
    for x in 0..points_per_axis {
        let x_coord = range_start + (x as f32) * step;
        for y in 0..points_per_axis {
            let y_coord = range_start + (y as f32) * step;
            coords.push(x_coord);
            coords.push(y_coord);
        }
    }
    let points = lattice(&coords);

    let segments: usize = 64 * 2;
    let mut outline: Vec<f32> = Vec::new();
    for i in 0..segments {
        let angle = 2.0 * std::f32::consts::PI * (i as f32) / (segments as f32);
        outline.push(5.0 * angle.cos());
        outline.push(5.0 * angle.sin());
    }
    for i in 0..segments {
        let angle = 2.0 * std::f32::consts::PI * (i as f32) / (segments as f32);
        outline.push(-2.0 + angle.cos());
        outline.push(angle.sin());
    }
    for i in 0..segments {
        let angle = 2.0 * std::f32::consts::PI * (i as f32) / (segments as f32);
        outline.push(2.0 + angle.cos());
        outline.push(angle.sin());
    }
    let polygon = lattice(&outline);
    let rings = vec![segments as u32, (segments * 2) as u32];

    let results = point_in_polygon_rayster(&points, &polygon, &rings, true).unwrap();
    assert_eq!(results.len(), num_points);

    let mut correct_count = 0usize;
    for i in 0..num_points {
        let x = coords[i * 2] as f64;
        let y = coords[i * 2 + 1] as f64;
        let dist_to_main = (x * x + y * y).sqrt();
        let dist_to_hole1 = ((x + 2.0) * (x + 2.0) + y * y).sqrt();
        let dist_to_hole2 = ((x - 2.0) * (x - 2.0) + y * y).sqrt();
        let expected = if dist_to_main > 5.0 {
            0
        } else if dist_to_hole1 < 1.0 || dist_to_hole2 < 1.0 {
            0
        } else {
            1
        };
        if results[i] == expected {
            correct_count += 1;
        }
    }
    println!(
        "circle polygon accuracy: {}/{} = {:.6}%",
        correct_count,
        num_points,
        correct_count as f64 / num_points as f64 * 100.0
    );
    assert!(correct_count as f64 / num_points as f64 > 0.99);
}
