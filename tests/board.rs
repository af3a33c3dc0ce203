use minefield::{Cell, CellKind, Field, OpenCellKind};

#[test]
fn parse_input() {
    let input = r#"X O O
                       O O O
                       X X O"#;

    let field = Field::parse(input).unwrap();
    let expected = vec![
        CellKind::Bomb,
        CellKind::Safe,
        CellKind::Safe,
        CellKind::Safe,
        CellKind::Safe,
        CellKind::Safe,
        CellKind::Bomb,
        CellKind::Bomb,
        CellKind::Safe,
    ];
    assert_eq!(field.cells(), &expected);
}

#[test]
fn find_adjacent_cells() {
    let cell = Cell(0, 0);
    let expected = vec![Cell(1, 0), Cell(0, 1), Cell(1, 1)];
    assert_eq!(cell.adjacent(), expected);

    let cell = Cell(1, 0);
    let expected = vec![Cell(0, 0), Cell(2, 0), Cell(0, 1), Cell(1, 1), Cell(2, 1)];
    assert_eq!(cell.adjacent(), expected);

    let cell = Cell(1, 1);
    let expected = vec![
        Cell(0, 0),
        Cell(1, 0),
        Cell(2, 0),
        Cell(0, 1),
        Cell(2, 1),
        Cell(0, 2),
        Cell(1, 2),
        Cell(2, 2),
    ];
    assert_eq!(cell.adjacent(), expected);
}

#[test]
fn open_field() {
    let input = r#"X O O
                       O O O
                       X X O"#;

    let field = Field::parse(input).unwrap();
    let expected = vec![
        OpenCellKind::Bomb,
        OpenCellKind::Safe(1),
        OpenCellKind::Safe(0),
        OpenCellKind::Safe(3),
        OpenCellKind::Safe(3),
        OpenCellKind::Safe(1),
        OpenCellKind::Bomb,
        OpenCellKind::Bomb,
        OpenCellKind::Safe(1),
    ];
    assert_eq!(field.open().cells(), &expected);
}

#[test]
fn main() {
    let input = r#"X O O X X X O O
                       O O O O X O X X
                       X X O X X O O O
                       O X O O O X X X
                       O O X X X X O X
                       X O X X X O X O
                       O O O X O X O X
                       X O X X O X O X"#;

    let field = Field::parse(input).unwrap();

    let expected = r#"X 1 1 X X X 3 2
                          3 3 3 5 X 5 X X
                          X X 3 X X 5 5 4
                          3 X 5 5 6 X X X
                          2 4 X X X X 6 X
                          X 3 X X X 5 X 3
                          2 4 5 X 6 X 5 X
                          X 2 X X 4 X 4 X
                        "#;

    let expected = expected.replace(" ", "");
    assert_eq!(field.open().to_string(), expected);
}
