use puzzlekit::problems::{Op, Problem};
use puzzlekit::worksheet::{tally_worksheet, WorksheetReader};

fn test_data() -> String {
    [
        "123 328  51 64 ",
        " 45 64  387 23 ",
        "  6 98  215 314",
        "*   +   *   +  ",
    ]
    .join("\n")
}

#[test]
fn test_worksheet_reader_creation() {
    let data = test_data();
    let reader = WorksheetReader::new(&data);
    assert!(
        reader.is_ok(),
        "WorksheetReader should be created successfully from test_data"
    );

    let reader = reader.unwrap();
    assert_eq!(reader.operand_rows.len(), 3);
    assert_eq!(reader.pos, 14);
}

#[test]
fn test_iterator_next() {
    let data = test_data();
    let mut reader = WorksheetReader::new(&data).unwrap();

    let first = reader.next();
    assert!(first.is_some(), "Iterator should yield first item");
    let first_item = first.unwrap();
    assert!(first_item.is_ok(), "First item should be Ok");
    let (number, _op) = first_item.unwrap();

    assert_eq!(number, 4, "First number should be 123");

    let (number, _op) = reader.next().unwrap().unwrap();
    assert_eq!(number, 431);

    let (number, _op) = reader.next().unwrap().unwrap();
    assert_eq!(number, 623);
}

#[test]
fn test_problem_solve() {
    let add = Problem::new(vec![328, 64, 98], Op::Add);
    assert_eq!(add.solve(), 490);
    let mul = Problem::new(vec![123, 45, 6], Op::Mul);
    assert_eq!(mul.solve(), 123 * 45 * 6);
}

#[test]
fn test_tally_worksheet() {
    let reader = WorksheetReader::new(&test_data()).unwrap();
    let total = tally_worksheet(reader).unwrap();
    assert_eq!(
        total,
        (4 + 431 + 623) + 175 * 581 * 32 + (8 + 248 + 369) + 356 * 24 * 1
    );
}
