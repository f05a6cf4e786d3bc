use multilateration::model::Point;
use multilateration::solver::{is_admissible, trilaterate, try_trilaterate, Estimate, Rejection};
use nalgebra::{distance, Point3};

/// Grid units per unit of length in the tests that start from real coordinates.
const UNITS: f64 = 10.;

fn on_grid(p: &Point3<f64>) -> Point {
    Point {
        x: (p.x * UNITS).round() as i32,
        y: (p.y * UNITS).round() as i32,
        z: (p.z * UNITS).round() as i32,
    }
}

fn off_grid(e: &Estimate) -> Point3<f64> {
    Point3::new(
        e.x as f64 / e.scale as f64 / UNITS,
        e.y as f64 / e.scale as f64 / UNITS,
        e.z as f64 / e.scale as f64 / UNITS,
    )
}

fn pt(x: i32, y: i32, z: i32) -> Point {
    Point { x, y, z }
}

fn cube() -> Vec<Point> {
    vec![
        pt(0, 0, 0),
        pt(30, 0, 0),
        pt(0, 30, 0),
        pt(30, 30, 0),
        pt(0, 0, 30),
        pt(30, 0, 30),
        pt(0, 30, 30),
        pt(30, 30, 30),
    ]
}

fn exact_squares(references: &[Point], p: Point) -> Vec<u64> {
    references
        .iter()
        .map(|r| {
            let dx = (r.x - p.x) as i64;
            let dy = (r.y - p.y) as i64;
            let dz = (r.z - p.z) as i64;
            (dx * dx + dy * dy + dz * dz) as u64
        })
        .collect()
}

fn same_position(a: &Estimate, b: &Estimate) -> bool {
    a.x * b.scale == b.x * a.scale && a.y * b.scale == b.y * a.scale && a.z * b.scale == b.z * a.scale
}

#[test]
fn test_trilaterate() {
    let p = Point3::new(-1., 1.3, 3.);
    let references: Vec<Point3<f64>> = Vec::from([
        Point3::new(0., 0., 0.),
        Point3::new(3., 0., 0.),
        Point3::new(0., 3., 0.),
        Point3::new(3., 3., 0.),
        Point3::new(0., 0., 3.),
        Point3::new(3., 0., 3.),
        Point3::new(0., 3., 3.),
        Point3::new(3., 3., 3.),
    ]);
    let mut distances = vec![0.; references.len()];
    for (i, d) in distances.iter_mut().enumerate() {
        *d = distance(&references[i], &p);
    }
    let grid: Vec<Point> = references.iter().map(on_grid).collect();
    let squares: Vec<u64> = distances.iter().map(|d| (d * UNITS).powi(2).round() as u64).collect();
    assert!(is_admissible(&grid, &squares));
    if let Some(e) = trilaterate(&grid, &squares) {
        let p_new = off_grid(&e);
        println!("p        {}", p);
        println!("p_trilat {}", p_new);
        assert_eq!(p.x, (p_new.x * 10000.).round() / 10000.);
        assert_eq!(p.y, (p_new.y * 10000.).round() / 10000.);
        assert_eq!(p.z, (p_new.z * 10000.).round() / 10000.);
    } else {
        println!("Trilateration failed.");
        assert!(false);
    }
}

#[test]
fn cube_squares_and_exact_fraction() {
    let references = cube();
    let squares = exact_squares(&references, pt(-10, 13, 30));
    assert_eq!(squares, vec![1169, 2669, 1289, 2789, 269, 1769, 389, 1889]);
    let e = trilaterate(&references, &squares).unwrap();
    assert_eq!(
        e,
        Estimate { x: -466560000000, y: 606528000000, z: 1399680000000, scale: 46656000000 }
    );
}

#[test]
fn unit_axes_give_the_point_over_two() {
    let references = vec![pt(0, 0, 0), pt(1, 0, 0), pt(0, 1, 0), pt(0, 0, 1)];
    let e = trilaterate(&references, &[29, 26, 24, 22]).unwrap();
    assert_eq!(e, Estimate { x: 4, y: 6, z: 8, scale: 2 });
}

#[test]
fn pivot_is_added_back() {
    let references = vec![pt(1, 1, 1), pt(2, 1, 1), pt(1, 2, 1), pt(1, 1, 2)];
    let e = trilaterate(&references, &[29, 26, 24, 22]).unwrap();
    assert_eq!(e, Estimate { x: 6, y: 8, z: 10, scale: 2 });
}

#[test]
fn redundant_reference_is_fitted() {
    let references = vec![pt(1, 1, 1), pt(2, 1, 1), pt(1, 2, 1), pt(1, 1, 2), pt(2, 2, 2)];
    let exact = trilaterate(&references, &[29, 26, 24, 22, 14]).unwrap();
    assert_eq!(exact, Estimate { x: 24, y: 32, z: 40, scale: 8 });
    let noisy = trilaterate(&references, &[29, 26, 24, 22, 20]).unwrap();
    assert_eq!(noisy, Estimate { x: 18, y: 26, z: 34, scale: 8 });
}

#[test]
fn equal_distances_from_cube_corners_give_the_centre() {
    let e = trilaterate(&cube(), &[225; 8]).unwrap();
    assert_eq!(e, Estimate { x: 699840000000, y: 699840000000, z: 699840000000, scale: 46656000000 });
    let p = off_grid(&e);
    assert_eq!((p.x, p.y, p.z), (1.5, 1.5, 1.5));
}

#[test]
fn exact_recovery_of_grid_points() {
    let references = cube();
    for p in [pt(0, 0, 0), pt(7, -3, 11), pt(30, 30, 30), pt(-100, 200, -300), pt(15, 15, 15)] {
        let squares = exact_squares(&references, p);
        let e = trilaterate(&references, &squares).unwrap();
        assert_ne!(e.scale, 0);
        assert_eq!(e.x, p.x as i128 * e.scale);
        assert_eq!(e.y, p.y as i128 * e.scale);
        assert_eq!(e.z, p.z as i128 * e.scale);
    }
}

#[test]
fn exact_recovery_off_the_grid() {
    let references = vec![pt(0, 0, 0), pt(5, 0, 0), pt(0, 5, 0), pt(0, 0, 5), pt(5, 5, 5)];
    let e = trilaterate(&references, &[1, 20, 18, 26, 62]).unwrap();
    assert_ne!(e.scale, 0);
    assert_eq!(e.x * 5, 3 * e.scale);
    assert_eq!(e.y * 5, 4 * e.scale);
    assert_eq!(e.z, 0);
}

#[test]
fn references_in_one_plane_have_no_solution() {
    let flat = vec![pt(0, 0, 0), pt(30, 0, 0), pt(0, 30, 0), pt(30, 30, 0), pt(10, 20, 0)];
    assert_eq!(trilaterate(&flat, &[100, 400, 900, 1600, 2500]), None);
    assert_eq!(trilaterate(&flat, &[0, 0, 0, 0, 0]), None);
    let tilted = vec![pt(1, 0, 0), pt(0, 1, 0), pt(0, 0, 1), pt(3, -1, -1), pt(-4, 2, 3)];
    assert_eq!(trilaterate(&tilted, &[5, 6, 7, 8, 9]), None);
}

#[test]
fn references_on_one_line_have_no_solution() {
    let line = vec![pt(0, 0, 0), pt(1, 1, 1), pt(2, 2, 2), pt(3, 3, 3)];
    assert_eq!(trilaterate(&line, &[1, 2, 3, 4]), None);
}

#[test]
fn order_of_the_pairs_does_not_matter() {
    let references = cube();
    let squares = exact_squares(&references, pt(-10, 13, 30));
    let first = trilaterate(&references, &squares).unwrap();
    let mut r = references.clone();
    let mut s = squares.clone();
    r.reverse();
    s.reverse();
    let reversed = trilaterate(&r, &s).unwrap();
    assert!(same_position(&first, &reversed));
    r.swap(0, 7);
    s.swap(0, 7);
    r.swap(2, 5);
    s.swap(2, 5);
    r.swap(1, 6);
    s.swap(1, 6);
    let same_pivot = trilaterate(&r, &s).unwrap();
    assert_eq!(r[0], references[0]);
    assert_eq!(same_pivot, first);
}

#[test]
fn order_after_the_pivot_does_not_matter_with_noise() {
    let references = vec![pt(1, 1, 1), pt(2, 1, 1), pt(1, 2, 1), pt(1, 1, 2), pt(2, 2, 2)];
    let squares = vec![29, 26, 24, 22, 20];
    let first = trilaterate(&references, &squares).unwrap();
    let shuffled = vec![pt(1, 1, 1), pt(2, 2, 2), pt(1, 1, 2), pt(2, 1, 1), pt(1, 2, 1)];
    let second = trilaterate(&shuffled, &[29, 20, 22, 26, 24]).unwrap();
    assert_eq!(first, second);
}

#[test]
fn fewer_than_four_pairs_are_not_admitted() {
    let references = vec![pt(0, 0, 0), pt(1, 0, 0), pt(0, 1, 0)];
    assert!(!is_admissible(&references, &[1, 1, 1]));
    assert!(!is_admissible(&[], &[]));
    let four = vec![pt(0, 0, 0), pt(1, 0, 0), pt(0, 1, 0), pt(0, 0, 1)];
    assert!(is_admissible(&four, &[1, 1, 1, 1]));
}

#[test]
fn unequal_lengths_are_not_admitted() {
    let four = vec![pt(0, 0, 0), pt(1, 0, 0), pt(0, 1, 0), pt(0, 0, 1)];
    assert!(!is_admissible(&four, &[1, 1, 1]));
    assert!(!is_admissible(&four, &[1, 1, 1, 1, 1]));
}

#[test]
fn limits_are_inclusive() {
    let mut references = vec![pt(4096, -4096, 0), pt(1, 0, 0), pt(0, 1, 0), pt(0, 0, 1)];
    assert!(is_admissible(&references, &[0x1000_0000, 0, 0, 0]));
    assert!(!is_admissible(&references, &[0x1000_0001, 0, 0, 0]));
    assert!(!is_admissible(&references, &[0, 0, 0, 0x1000_0001]));
    references[3] = pt(0, 0, 4097);
    assert!(!is_admissible(&references, &[0, 0, 0, 0]));
    references[3] = pt(0, -4097, 0);
    assert!(!is_admissible(&references, &[0, 0, 0, 0]));
    let many = vec![pt(0, 0, 0); 512];
    assert!(is_admissible(&many, &vec![0; 512]));
    let too_many = vec![pt(0, 0, 0); 513];
    assert!(!is_admissible(&too_many, &vec![0; 513]));
}

#[test]
fn corners_of_the_admitted_range() {
    let l = 4096;
    let references = vec![pt(-l, -l, -l), pt(l, -l, -l), pt(-l, l, -l), pt(-l, -l, l), pt(l, l, l)];
    let squares = exact_squares(&references, pt(l, -l, l));
    assert_eq!(squares, vec![134217728, 67108864, 201326592, 67108864, 67108864]);
    assert!(is_admissible(&references, &squares));
    let e = trilaterate(&references, &squares).unwrap();
    assert_eq!(
        e,
        Estimate {
            x: 9903520314283042199192993792,
            y: -9903520314283042199192993792,
            z: 9903520314283042199192993792,
            scale: 2417851639229258349412352,
        }
    );
}

#[test]
fn largest_input_does_not_overflow() {
    let l = 4096;
    let mut references = vec![pt(-l, -l, -l)];
    let mut squares = vec![0x1000_0000];
    for i in 0..511 {
        references.push(match i % 3 {
            0 => pt(l, l, l),
            1 => pt(l, -l, l),
            _ => pt(-l, l, l),
        });
        squares.push(0);
    }
    assert!(is_admissible(&references, &squares));
    let first = trilaterate(&references, &squares);
    assert!(first.is_some());
}

#[test]
fn same_input_same_result() {
    let references = cube();
    let squares = vec![225, 230, 221, 229, 225, 219, 240, 226];
    let first = trilaterate(&references, &squares);
    let second = trilaterate(&references, &squares);
    assert!(first.is_some());
    assert_eq!(first, second);
    let flat = vec![pt(0, 0, 5), pt(30, 0, 5), pt(0, 30, 5), pt(30, 30, 5)];
    assert_eq!(trilaterate(&flat, &[1, 2, 3, 4]), trilaterate(&flat, &[1, 2, 3, 4]));
    assert_eq!(trilaterate(&flat, &[1, 2, 3, 4]), None);
}

#[test]
fn too_few_pairs_are_turned_away() {
    let references = vec![pt(0, 0, 0), pt(1, 0, 0), pt(0, 1, 0)];
    assert_eq!(try_trilaterate(&references, &[1, 1, 1]), Err(Rejection::TooFewReferences));
    assert_eq!(try_trilaterate(&[], &[]), Err(Rejection::TooFewReferences));
    assert_eq!(try_trilaterate(&references[..1], &[1]), Err(Rejection::TooFewReferences));
}

#[test]
fn unequal_lengths_are_turned_away_first() {
    let references = vec![pt(0, 0, 0), pt(1, 0, 0), pt(0, 1, 0), pt(0, 0, 1)];
    assert_eq!(try_trilaterate(&references, &[1, 1, 1]), Err(Rejection::LengthMismatch));
    assert_eq!(try_trilaterate(&references[..2], &[1, 1, 1]), Err(Rejection::LengthMismatch));
    assert_eq!(try_trilaterate(&references, &[1; 600]), Err(Rejection::LengthMismatch));
}

#[test]
fn too_many_pairs_are_turned_away() {
    let references = vec![pt(0, 0, 0); 513];
    assert_eq!(try_trilaterate(&references, &vec![0; 513]), Err(Rejection::TooManyReferences));
    assert_eq!(try_trilaterate(&references[..512], &vec![0; 512]), Ok(None));
}

#[test]
fn values_beyond_the_limits_are_turned_away() {
    let references = vec![pt(0, 0, 0), pt(1, 0, 0), pt(0, 1, 0), pt(0, 0, 4097)];
    assert_eq!(try_trilaterate(&references, &[1, 1, 1, 1]), Err(Rejection::OutOfRange));
    let references = vec![pt(0, 0, 0), pt(1, 0, 0), pt(0, 1, 0), pt(0, 0, 1)];
    assert_eq!(try_trilaterate(&references, &[1, 1, 0x1000_0001, 1]), Err(Rejection::OutOfRange));
}

#[test]
fn admitted_input_is_solved() {
    let references = vec![pt(1, 1, 1), pt(2, 1, 1), pt(1, 2, 1), pt(1, 1, 2)];
    assert_eq!(
        try_trilaterate(&references, &[29, 26, 24, 22]),
        Ok(Some(Estimate { x: 6, y: 8, z: 10, scale: 2 }))
    );
    let flat = vec![pt(0, 0, 0), pt(30, 0, 0), pt(0, 30, 0), pt(30, 30, 0)];
    assert_eq!(try_trilaterate(&flat, &[1, 2, 3, 4]), Ok(None));
}

fn squared_residuals(references: &[Point], squares: &[u64], at: [f64; 3]) -> f64 {
    let o = references[0];
    let mut sum = 0.;
    for i in 1..references.len() {
        let r = references[i];
        let a = [(r.x - o.x) as f64, (r.y - o.y) as f64, (r.z - o.z) as f64];
        let b = (squares[0] as f64 - squares[i] as f64 + a[0] * a[0] + a[1] * a[1] + a[2] * a[2]) / 2.;
        let left = a[0] * (at[0] - o.x as f64) + a[1] * (at[1] - o.y as f64) + a[2] * (at[2] - o.z as f64);
        sum += (left - b) * (left - b);
    }
    sum
}

#[test]
fn estimate_is_the_best_fit() {
    let references = vec![pt(1, 1, 1), pt(2, 1, 1), pt(1, 2, 1), pt(1, 1, 2), pt(2, 2, 2)];
    let squares = vec![29, 26, 24, 22, 20];
    let e = trilaterate(&references, &squares).unwrap();
    let best = [e.x as f64 / e.scale as f64, e.y as f64 / e.scale as f64, e.z as f64 / e.scale as f64];
    assert_eq!(best, [2.25, 3.25, 4.25]);
    let least = squared_residuals(&references, &squares, best);
    assert_eq!(least, 2.25);
    for axis in 0..3 {
        for step in [-0.5, -0.01, 0.01, 0.5] {
            let mut other = best;
            other[axis] += step;
            assert!(squared_residuals(&references, &squares, other) > least);
        }
    }
}

#[test]
fn scale_is_positive() {
    let mirrored = vec![pt(0, 0, 0), pt(0, 1, 0), pt(1, 0, 0), pt(0, 0, 1)];
    let e = trilaterate(&mirrored, &[29, 24, 26, 22]).unwrap();
    assert_eq!(e, Estimate { x: 4, y: 6, z: 8, scale: 2 });
    let skewed = vec![pt(-3, 2, 1), pt(4, -1, 0), pt(0, 5, -2), pt(1, 1, 7), pt(-6, -6, -6)];
    let e = trilaterate(&skewed, &[10, 20, 30, 40, 50]).unwrap();
    assert!(e.scale > 0);
}

#[test]
fn four_references_agree_under_any_pivot() {
    let references = vec![pt(0, 0, 0), pt(1, 0, 0), pt(0, 1, 0), pt(0, 0, 1)];
    let first = trilaterate(&references, &[5, 9, 2, 7]).unwrap();
    assert_eq!(first, Estimate { x: -3, y: 4, z: -1, scale: 2 });
    let swapped = vec![pt(0, 0, 1), pt(1, 0, 0), pt(0, 1, 0), pt(0, 0, 0)];
    let second = trilaterate(&swapped, &[7, 9, 2, 5]).unwrap();
    assert!(same_position(&first, &second));
}

#[test]
fn pivot_matters_when_measurements_disagree() {
    let references = vec![pt(1, 1, 1), pt(2, 1, 1), pt(1, 2, 1), pt(1, 1, 2), pt(2, 2, 2)];
    let first = trilaterate(&references, &[29, 26, 24, 22, 20]).unwrap();
    assert_eq!(first, Estimate { x: 18, y: 26, z: 34, scale: 8 });
    let swapped = vec![pt(2, 2, 2), pt(2, 1, 1), pt(1, 2, 1), pt(1, 1, 2), pt(1, 1, 1)];
    let second = trilaterate(&swapped, &[20, 26, 24, 22, 29]).unwrap();
    assert_eq!(second, Estimate { x: 24, y: 38, z: 52, scale: 14 });
    assert!(!same_position(&first, &second));
}
