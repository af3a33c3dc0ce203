use minefield::{Cell, CellKind, Field, OpenCellKind, ParseError};

const SAMPLE: &str = "X O O\nO O O\nX X O";

#[test]
fn render_sample() {
    let field = Field::parse(SAMPLE).unwrap();
    assert_eq!(field.open().to_string(), "X10\n331\nXX1\n");
}

#[test]
fn parse_sample_size() {
    let field = Field::parse(SAMPLE).unwrap();
    assert_eq!(field.size(), 3);
    assert_eq!(field.cells().len(), 9);
}

#[test]
fn open_keeps_shape() {
    let field = Field::parse("O O\nX O").unwrap();
    let open = field.open();
    assert_eq!(open.size(), field.size());
    assert_eq!(open.cells().len(), 4);
}

#[test]
fn open_keeps_bombs() {
    let field = Field::parse("X O X\nO X O\nO O X").unwrap();
    let open = field.open();
    for (a, b) in field.cells().iter().zip(open.cells().iter()) {
        assert_eq!(*a == CellKind::Bomb, *b == OpenCellKind::Bomb);
    }
}

#[test]
fn counts_stay_within_neighbours() {
    let field = Field::parse("X X X\nX O X\nX X X").unwrap();
    let open = field.open();
    assert_eq!(open.cells()[4], OpenCellKind::Safe(8));

    let field = Field::parse("O X\nX X").unwrap();
    assert_eq!(field.open().cells()[0], OpenCellKind::Safe(3));

    let field = Field::parse("X O X\nX X X\nO O O").unwrap();
    assert_eq!(field.open().cells()[1], OpenCellKind::Safe(5));
}

#[test]
fn neighbours_of_corner_and_edge() {
    assert_eq!(Cell(0, 2).adjacent().len(), 5);
    assert!(!Cell(4, 4).adjacent().contains(&Cell(4, 4)));
    assert_eq!(Cell(4, 4).adjacent().len(), 8);
}

#[test]
fn malformed_token() {
    assert_eq!(
        Field::parse("X O\nO Y").unwrap_err(),
        ParseError::MalformedToken { line: 1 }
    );
    assert_eq!(
        Field::parse("XO\nO O").unwrap_err(),
        ParseError::MalformedToken { line: 0 }
    );
}

#[test]
fn ragged_row() {
    assert_eq!(
        Field::parse("X O\nO").unwrap_err(),
        ParseError::RaggedRow { line: 1 }
    );
    assert_eq!(
        Field::parse("X O O\nO O O").unwrap_err(),
        ParseError::RaggedRow { line: 0 }
    );
}

#[test]
fn row_stops_at_empty_token() {
    let field = Field::parse("X O  Y\nO O").unwrap();
    assert_eq!(field.cells(), &vec![CellKind::Bomb, CellKind::Safe, CellKind::Safe, CellKind::Safe]);
}

#[test]
fn whitespace_and_line_endings() {
    let field = Field::parse("  X O\t\r\n\u{a0}O X \r\n").unwrap();
    assert_eq!(field.size(), 2);
    assert_eq!(field.cells(), &vec![CellKind::Bomb, CellKind::Safe, CellKind::Safe, CellKind::Bomb]);
}

#[test]
fn empty_board() {
    let field = Field::parse("").unwrap();
    assert_eq!(field.size(), 0);
    assert!(field.cells().is_empty());
    assert_eq!(field.open().to_string(), "");
}

#[test]
fn single_cell() {
    let field = Field::parse("O").unwrap();
    assert_eq!(field.open().to_string(), "0\n");
    let field = Field::parse("X\n").unwrap();
    assert_eq!(field.open().to_string(), "X\n");
}

#[test]
fn cell_text() {
    assert_eq!(OpenCellKind::Bomb.to_string(), "X");
    assert_eq!(OpenCellKind::Safe(0).to_string(), "0");
    assert_eq!(OpenCellKind::Safe(7).to_string(), "7");
    assert_eq!(OpenCellKind::Safe(12).to_string(), "12");
    assert_eq!(OpenCellKind::Safe(305).to_string(), "305");
}
