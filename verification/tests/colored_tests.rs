use minobot::{CellType, ColoredBoard, Piece, PieceType, TspinType};

#[test]
fn new_colored_board_is_empty() {
    let board = ColoredBoard::new();
    for y in 0..40 {
        for x in 0..10 {
            assert_eq!(board.cell_type(x, y), CellType::Empty);
        }
    }
    assert_eq!(board.cell_type(-1, 0), CellType::Solid);
    assert_eq!(board.cell_type(10, 0), CellType::Solid);
    assert_eq!(board.cell_type(0, -1), CellType::Solid);
    assert_eq!(board.cell_type(0, 40), CellType::Solid);
    assert!(board.snapshot().rows().iter().all(|&row| row == 0));
}

#[test]
fn locked_cells_take_the_colour_of_the_piece() {
    let mut board = ColoredBoard::new();
    let mut piece = Piece::spawn(board.board(), PieceType::T);
    piece.sonic_drop(board.board());
    let result = board.lock_piece(piece);
    assert_eq!(result.lines_cleared, 0);
    for (x, y) in piece.cells() {
        assert_eq!(board.cell_type(x, y), CellType::T);
    }
    assert_eq!(board.cell_type(0, 0), CellType::Empty);
    let snapshot = board.snapshot();
    for y in 0..40 {
        for x in 0..10 {
            assert_eq!(snapshot.occupied(x, y), board.cell_type(x, y) != CellType::Empty);
        }
    }
    assert_eq!(snapshot.column_heights()[4], 2);
}

#[test]
fn garbage_and_clear_keep_colours_in_step() {
    let mut board = ColoredBoard::new();
    assert!(!board.add_garbage(&[9, 9, 9, 9]));
    for y in 0..4 {
        for x in 0..9 {
            assert_eq!(board.cell_type(x, y), CellType::Garbage);
        }
        assert_eq!(board.cell_type(9, y), CellType::Empty);
    }
    let mut piece = Piece::spawn(board.board(), PieceType::L);
    piece.sonic_drop(board.board());
    board.lock_piece(piece);
    assert_eq!(board.cell_type(4, 4), CellType::L);
    let upright = Piece { kind: PieceType::I, x: 9, y: 2, r: 1, tspin: TspinType::NoSpin };
    assert!(board.board().piece_fits(upright));
    let result = board.lock_piece(upright);
    assert_eq!(result.lines_cleared, 4);
    assert_eq!(result.combo, 1);
    // The L came down by four rows with its colour.
    assert_eq!(board.cell_type(3, 0), CellType::L);
    assert_eq!(board.cell_type(4, 0), CellType::L);
    assert_eq!(board.cell_type(5, 0), CellType::L);
    assert_eq!(board.cell_type(5, 1), CellType::L);
    assert_eq!(board.cell_type(9, 0), CellType::Empty);
    let snapshot = board.snapshot();
    assert_eq!(snapshot.rows()[0], 0b111 << 3);
    assert_eq!(snapshot.rows()[1], 1 << 5);
    assert_eq!(snapshot.rows()[2], 0);
    assert!(snapshot.b2b());
}

#[test]
fn colored_hold_swap() {
    let mut board = ColoredBoard::new();
    assert_eq!(board.hold_swap(PieceType::Z), None);
    assert_eq!(board.hold_swap(PieceType::O), Some(PieceType::Z));
    assert_eq!(board.snapshot().hold(), Some(PieceType::O));
}
