use puzzlekit::tachyon::{Grid, SquareType};

fn test_grid_fixture() -> Grid {
    let input = "\
.......S.......
...............
.......^.......
...............
......^.^......
...............
.....^.^.^.....
...............
....^.^...^....
...............
...^.^...^.^...
...............
..^...^.....^..
...............
.^.^.^.^.^...^.
...............";
    Grid::parse_grid(input)
}

#[test]
fn test_sample_grid() {
    let mut grid = test_grid_fixture();
    grid.trace_tachyons_down();
    println!("tachoyn splits: {}", grid.split_count);
}

#[test]
fn test_split_paths() {
    // A source over a splitter has one path to each side.
    let grid = Grid::parse_grid(".S.\n.^.\n...");
    assert_eq!(grid.count_all_paths(), 2);
    // A straight drop has exactly one path.
    let grid = Grid::parse_grid(".S.\n...\n...");
    assert_eq!(grid.count_all_paths(), 1);
}

#[test]
fn test_square_chars() {
    assert_eq!(SquareType::Source.to_char(), 'S');
    assert_eq!(SquareType::Splitter.to_char(), '^');
    assert_eq!(SquareType::EmptySpace.to_char(), '.');
}

#[test]
fn test_all_paths() {
    let grid = test_grid_fixture();
    let paths = grid.trace_all_paths();

    println!("Total unique paths: {}", paths.len());
    for path in &paths {
        println!("  {:?}", path);
    }
    // The enumerated paths agree with the counting solver.
    assert_eq!(paths.len() as u64, grid.count_all_paths());
}
