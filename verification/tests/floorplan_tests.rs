use puzzlekit::floorplan::FloorPlan;

const TEST_INPUT: &str = "\
7,1
11,1
11,7
9,7
9,5
2,5
2,3
7,3";

#[test]
fn day09_test_sample_problem_1() {
    let system: FloorPlan = TEST_INPUT.parse().unwrap();
    assert_eq!(system.find_largest_area(), 50);
}

#[test]
fn day09_test_sample_problem_2() {
    let system: FloorPlan = TEST_INPUT.parse().unwrap();
    assert_eq!(system.find_largest_valid_rectangle(), 24);
}
