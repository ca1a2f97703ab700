use puzzlekit::paper::{parse_floor_line, Floor, Tile};

fn test_data() -> Vec<Vec<Tile>> {
    [
        "..@@.@@@@.",
        "@@@.@.@.@@",
        "@@@@@.@.@@",
        "@.@@@@..@.",
        "@@.@@@@.@@",
        ".@@@@@@@.@",
        ".@.@.@.@@@",
        "@.@@@.@@@@",
        ".@@@@@@@@.",
        "@.@.@@@.@.",
    ]
    .iter()
    .map(|s| parse_floor_line(s).unwrap())
    .collect()
}

#[test]
fn test_parse_floor_lines() {
    let test_cases = vec![(
        "..@x",
        vec![
            Tile::EmptySpace,
            Tile::EmptySpace,
            Tile::PaperRoll { accessible: None },
            Tile::PaperRoll {
                accessible: Some(true),
            },
        ],
    )];

    for (input, expected) in test_cases {
        let tiles = parse_floor_line(input).unwrap();
        assert_eq!(tiles, expected, "Failed for input: {}", input);
    }
}

#[test]
fn test_iter_neighbours_boundary_conditions() {
    let tiles = test_data();
    let mut floor = Floor {
        tiles,
        accessible_slots: Vec::new(),
    };
    let max_row = floor.tiles.len() - 1;
    let max_col = floor.tiles[0].len() - 1;

    let neighbours_top_left = floor.iter_neighbours(0, 0);
    let expected_top_left = vec![
        ((0, 1), Tile::EmptySpace),
        ((1, 0), Tile::PaperRoll { accessible: None }),
        ((1, 1), Tile::PaperRoll { accessible: None }),
    ];
    assert_eq!(
        neighbours_top_left, expected_top_left,
        "Top-left corner neighbours mismatch"
    );

    let neighbours_bottom_right = floor.iter_neighbours(max_row, max_col);
    let expected_bottom_right = vec![
        ((8, 8), Tile::PaperRoll { accessible: None }),
        ((8, 9), Tile::EmptySpace),
        ((9, 8), Tile::PaperRoll { accessible: None }),
    ];
    assert_eq!(
        neighbours_bottom_right, expected_bottom_right,
        "Bottom-right corner neighbours mismatch"
    );

    let neighbours_top_right = floor.iter_neighbours(0, max_col);
    let expected_top_right = vec![
        ((0, 8), Tile::PaperRoll { accessible: None }),
        ((1, 8), Tile::PaperRoll { accessible: None }),
        ((1, 9), Tile::PaperRoll { accessible: None }),
    ];
    assert_eq!(
        neighbours_top_right, expected_top_right,
        "Top-right corner neighbours mismatch"
    );

    let neighbours_bottom_left = floor.iter_neighbours(max_row, 0);
    let expected_bottom_left = vec![
        ((8, 0), Tile::EmptySpace),
        ((8, 1), Tile::PaperRoll { accessible: None }),
        ((9, 1), Tile::EmptySpace),
    ];
    assert_eq!(
        neighbours_bottom_left, expected_bottom_left,
        "Bottom-left corner neighbours mismatch"
    );

    let neighbours_interior = floor.iter_neighbours(1, 1);
    let expected_interior = vec![
        ((0, 0), Tile::EmptySpace),
        ((0, 1), Tile::EmptySpace),
        ((0, 2), Tile::PaperRoll { accessible: None }),
        ((1, 0), Tile::PaperRoll { accessible: None }),
        ((1, 2), Tile::PaperRoll { accessible: None }),
        ((2, 0), Tile::PaperRoll { accessible: None }),
        ((2, 1), Tile::PaperRoll { accessible: None }),
        ((2, 2), Tile::PaperRoll { accessible: None }),
    ];
    assert_eq!(
        neighbours_interior, expected_interior,
        "Interior cell (1,1) neighbours mismatch"
    );

    floor.process_accessible();
    assert_eq!(floor.accessible_slots.len(), 13);
    floor.clear_acessible();

    floor.process_accessible();
    assert_eq!(floor.accessible_slots.len(), 12);
    println!("Remove 12 rolls of paper");
    floor.clear_acessible();

    floor.process_accessible();
    assert_eq!(floor.accessible_slots.len(), 7);
    println!("Remove 7 rolls of paper");
}
