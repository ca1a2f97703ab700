use puzzlekit::packing::{can_fit_region, orientation_library, ProblemData, Region, Solver};
use puzzlekit::shapes::all_orientations;
use puzzlekit::junctions::Point3D;

#[test]
fn test_rotations() {
    let shape = vec![(0, 0), (1, 0), (0, 1)];

    let orientations = all_orientations(&shape);
    assert_eq!(orientations.len(), 4);
}

#[test]
fn test_orientation_counts() {
    // A single cell is fully symmetric.
    assert_eq!(all_orientations(&vec![(0, 0)]).len(), 1);
    // A domino has two orientations.
    assert_eq!(all_orientations(&vec![(0, 0), (1, 0)]).len(), 2);
    // An S-tetromino has four.
    assert_eq!(
        all_orientations(&vec![(1, 0), (2, 0), (0, 1), (1, 1)]).len(),
        4
    );
    // An L-tetromino has all eight.
    assert_eq!(
        all_orientations(&vec![(0, 0), (0, 1), (0, 2), (1, 2)]).len(),
        8
    );
}

fn u_shape() -> Vec<(i32, i32)> {
    vec![(0, 0), (1, 0), (2, 0), (0, 1), (0, 2), (1, 2), (2, 2)]
}

#[test]
fn test_simple_4x4() {
    let lib = orientation_library(&vec![u_shape()]).unwrap();
    assert_eq!(lib.len(), 1);
    let region = Region { width: 4, height: 4, required: vec![2] };
    assert!(can_fit_region(&region, &lib));
}

fn six_shapes() -> Vec<Vec<(i32, i32)>> {
    vec![
        vec![(0, 0), (1, 0), (2, 0), (0, 1), (1, 1), (0, 2), (1, 2)],
        vec![(0, 0), (1, 0), (2, 0), (0, 1), (1, 1), (1, 2), (2, 2)],
        vec![(1, 0), (2, 0), (0, 1), (1, 1), (2, 1), (0, 2), (1, 2)],
        vec![(0, 0), (1, 0), (0, 1), (1, 1), (2, 1), (0, 2), (1, 2)],
        vec![(0, 0), (1, 0), (2, 0), (0, 1), (0, 2), (1, 2), (2, 2)],
        vec![(0, 0), (1, 0), (2, 0), (1, 1), (0, 2), (1, 2), (2, 2)],
    ]
}

#[test]
fn day12_test_sample_problem_1() {
    let lib = orientation_library(&six_shapes()).unwrap();
    let regions = vec![
        Region { width: 4, height: 4, required: vec![0, 0, 0, 0, 2, 0] },
        Region { width: 12, height: 5, required: vec![1, 0, 1, 0, 2, 2] },
        Region { width: 12, height: 5, required: vec![1, 0, 1, 0, 3, 2] },
    ];
    let data = ProblemData { shapes: lib, regions };
    assert_eq!(data.solve_part1(), 2);
    assert_eq!(data.solve_part2(), 0);
}

#[test]
fn test_zero_requirement_region() {
    let lib = orientation_library(&vec![u_shape()]).unwrap();
    let region = Region { width: 3, height: 3, required: vec![0] };
    assert!(can_fit_region(&region, &lib));
}

#[test]
fn test_area_pruning() {
    // Three 7-cell shapes cannot fit 16 cells.
    let lib = orientation_library(&vec![u_shape()]).unwrap();
    let region = Region { width: 4, height: 4, required: vec![3] };
    assert!(!can_fit_region(&region, &lib));
}

#[test]
fn test_evaluate_deterministic() {
    let lib = orientation_library(&vec![u_shape()]).unwrap();
    let region = Region { width: 4, height: 4, required: vec![2] };
    let first = can_fit_region(&region, &lib);
    let second = can_fit_region(&region, &lib);
    let third = can_fit_region(&region, &lib);
    assert_eq!(first, second);
    assert_eq!(second, third);
}

#[test]
fn test_place_remove_round_trip() {
    let lib = orientation_library(&vec![u_shape()]).unwrap();
    let orientation = &lib[0][0];
    let mut solver = Solver::new(5, 5);
    let before = solver.grid.clone();
    assert!(solver.can_place(orientation, 1, 1));
    solver.place(orientation, 1, 1);
    assert_ne!(solver.grid, before);
    solver.remove(orientation, 1, 1);
    assert_eq!(solver.grid, before);
}

#[test]
fn test_infeasible_after_placement() {
    // Two U-shapes fit a 4x4, but not once the centre is blocked enough.
    let lib = orientation_library(&vec![u_shape()]).unwrap();
    let region = Region { width: 3, height: 5, required: vec![2] };
    assert!(!can_fit_region(&region, &lib));
}

#[test]
fn test_distance_squared() {
    let a = Point3D::new(1, 2, 3);
    let b = Point3D::new(4, 6, 3);
    assert_eq!(a.distance_squared(&b), 25);
    assert_eq!(b.distance_squared(&a), 25);
    assert_eq!(a.distance_squared(&a), 0);
}
