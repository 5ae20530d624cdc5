use minobot::row::{FULL_ROW, WIDTH};
use minobot::{Board, CellType, ColoredRow, Piece, PieceType, Row, TspinType};

const KINDS: [PieceType; 7] = [
    PieceType::J,
    PieceType::L,
    PieceType::S,
    PieceType::T,
    PieceType::Z,
    PieceType::I,
    PieceType::O,
];

#[test]
fn every_shape_has_four_distinct_cells() {
    for kind in KINDS {
        for r in 0..4 {
            let cells = kind.cells(r);
            for i in 0..4 {
                for j in i + 1..4 {
                    assert_ne!(cells[i], cells[j]);
                }
            }
            assert!(cells.contains(&(0, 0)));
        }
    }
}

#[test]
fn shapes_as_tabled() {
    assert_eq!(PieceType::T.cells(0), [(-1, 0), (0, 1), (0, 0), (1, 0)]);
    assert_eq!(PieceType::T.cells(2), [(-1, 0), (0, 0), (0, -1), (1, 0)]);
    assert_eq!(PieceType::I.cells(1), [(0, 1), (0, 0), (0, -1), (0, -2)]);
    assert_eq!(PieceType::O.cells(3), [(-1, 1), (-1, 0), (0, 1), (0, 0)]);
    assert_eq!(PieceType::J.cells(0), [(-1, 1), (-1, 0), (0, 0), (1, 0)]);
    assert_eq!(PieceType::L.cells(0), [(-1, 0), (0, 0), (1, 1), (1, 0)]);
    assert_eq!(PieceType::S.cells(0), [(-1, 0), (0, 1), (0, 0), (1, 1)]);
    assert_eq!(PieceType::Z.cells(0), [(-1, 1), (0, 1), (0, 0), (1, 0)]);
}

#[test]
fn offset_tables_as_tabled() {
    assert_eq!(PieceType::O.offset_table(0), vec![(0, 0)]);
    assert_eq!(PieceType::O.offset_table(2), vec![(-1, -1)]);
    assert_eq!(PieceType::I.offset_table(0), vec![(0, 0), (-1, 0), (2, 0), (-1, 0), (2, 0)]);
    assert_eq!(PieceType::I.offset_table(3), vec![(0, 1), (0, 1), (0, 1), (0, -1), (0, 2)]);
    assert_eq!(PieceType::T.offset_table(1), vec![(0, 0), (1, 0), (1, -1), (0, 2), (1, 2)]);
    assert_eq!(PieceType::Z.offset_table(2), vec![(0, 0); 5]);
    assert_eq!(PieceType::J.offset_table(3), vec![(0, 0), (-1, 0), (-1, -1), (0, 2), (-1, 2)]);
    for kind in KINDS {
        assert_eq!(kind.kick_count(), if kind == PieceType::O { 1 } else { 5 });
        for r in 0..4 {
            let table = kind.offset_table(r);
            assert_eq!(table.len(), kind.kick_count());
            for (i, &entry) in table.iter().enumerate() {
                assert_eq!(kind.offset(r, i), entry);
            }
        }
    }
}

#[test]
fn kinds_have_their_colours() {
    assert_eq!(PieceType::J.cell(), CellType::J);
    assert_eq!(PieceType::L.cell(), CellType::L);
    assert_eq!(PieceType::S.cell(), CellType::S);
    assert_eq!(PieceType::T.cell(), CellType::T);
    assert_eq!(PieceType::Z.cell(), CellType::Z);
    assert_eq!(PieceType::I.cell(), CellType::I);
    assert_eq!(PieceType::O.cell(), CellType::O);
}

#[test]
fn piece_cells_are_shape_plus_anchor() {
    let piece = Piece { kind: PieceType::L, x: 3, y: 7, r: 1, tspin: TspinType::NoSpin };
    assert_eq!(piece.cells(), [(3, 8), (3, 7), (3, 6), (4, 6)]);
}

#[test]
fn compressed_row_sets_and_clears_bits() {
    let mut row = <u16 as Row>::empty();
    assert_eq!(row, 0);
    row.set(0, CellType::T);
    row.set(9, CellType::Garbage);
    assert_eq!(row, 0b10_0000_0001);
    assert!(row.get(0) && row.get(9) && !row.get(5));
    assert_eq!(row.cell_type(9), CellType::Garbage);
    assert_eq!(row.cell_type(5), CellType::Empty);
    row.set(0, CellType::Empty);
    assert_eq!(row, 0b10_0000_0000);
    assert!(!row.filled());
    for x in 0..WIDTH {
        row.set(x, CellType::Solid);
    }
    assert_eq!(row, FULL_ROW);
    assert!(row.filled());
}

#[test]
fn colored_row_keeps_colours_and_compresses() {
    let mut row = ColoredRow::default();
    assert_eq!(row.compress(), 0);
    row.set(2, CellType::S);
    row.set(7, CellType::Garbage);
    assert_eq!(row.cell_type(2), CellType::S);
    assert_eq!(row.cell_type(3), CellType::Empty);
    assert!(row.get(7) && !row.get(0));
    assert_eq!(row.compress(), (1 << 2) | (1 << 7));
    assert!(!row.filled());
    for x in 0..10 {
        row.set(x, CellType::I);
    }
    assert!(row.filled());
    assert_eq!(row.compress(), 0x3ff);
    row.set(4, CellType::Empty);
    assert!(!row.filled());
    assert_eq!(row.compress(), 0x3ff ^ (1 << 4));
    assert_eq!(<ColoredRow as Row>::empty().compress(), 0);
}

fn board_with(rows: &[(usize, u16)]) -> Board {
    let mut field = [0u16; 40];
    for &(y, row) in rows {
        field[y] = row;
    }
    let mut board = Board::new();
    board.set_field(field);
    board
}

#[test]
fn shifts_stop_at_walls_and_cells() {
    let board = board_with(&[(5, 1 << 7)]);
    let mut piece = Piece { kind: PieceType::O, x: 4, y: 5, r: 0, tspin: TspinType::Full };
    assert!(piece.move_right(&board));
    assert_eq!((piece.x, piece.tspin), (5, TspinType::NoSpin));
    assert!(!piece.move_right(&board));
    assert_eq!(piece.x, 5);
    while piece.move_left(&board) {}
    assert_eq!(piece.x, 0);
    let mut piece = Piece { kind: PieceType::O, x: 4, y: 5, r: 0, tspin: TspinType::Mini };
    assert!(piece.soft_drop(&board));
    assert_eq!((piece.y, piece.tspin), (4, TspinType::NoSpin));
    assert!(piece.sonic_drop(&board));
    assert_eq!(piece.y, 0);
    assert!(!piece.sonic_drop(&board));
    assert!(!piece.soft_drop(&board));
}

#[test]
fn failed_move_keeps_the_mark() {
    let board = Board::new();
    let mut piece = Piece { kind: PieceType::T, x: 1, y: 0, r: 0, tspin: TspinType::Full };
    assert!(!piece.soft_drop(&board));
    assert_eq!(piece.tspin, TspinType::Full);
    assert!(!piece.move_left(&board));
    assert_eq!(piece.tspin, TspinType::Full);
    assert!(piece.move_right(&board));
    assert_eq!(piece.tspin, TspinType::NoSpin);
}

#[test]
fn turn_takes_the_first_kick_that_fits() {
    let board = Board::new();
    // On the floor the T cannot turn in place: its third kick lifts it by one.
    let mut piece = Piece { kind: PieceType::T, x: 4, y: 0, r: 0, tspin: TspinType::NoSpin };
    assert!(piece.turn_right(&board));
    assert_eq!((piece.x, piece.y, piece.r), (3, 1, 1));
    // In the open the first kick fits.
    let mut piece = Piece { kind: PieceType::T, x: 4, y: 10, r: 0, tspin: TspinType::NoSpin };
    assert!(piece.turn_left(&board));
    assert_eq!((piece.x, piece.y, piece.r), (4, 10, 3));
    assert!(piece.turn_left(&board));
    assert_eq!(piece.r, 2);
    assert!(piece.turn_right(&board) && piece.turn_right(&board) && piece.turn_right(&board));
    assert_eq!((piece.x, piece.y, piece.r), (4, 10, 1));
}

#[test]
fn turn_fails_when_no_kick_fits() {
    // An I lying at the bottom of a pit one row high cannot turn.
    let rows: Vec<(usize, u16)> = (1..8).map(|y| (y, 0x3ff)).collect();
    let board = board_with(&rows);
    let mut piece = Piece { kind: PieceType::I, x: 4, y: 0, r: 0, tspin: TspinType::Mini };
    assert!(!piece.turn_right(&board));
    assert!(!piece.turn_left(&board));
    assert_eq!(piece, Piece { kind: PieceType::I, x: 4, y: 0, r: 0, tspin: TspinType::Mini });
}

#[test]
fn o_turns_in_place() {
    let board = Board::new();
    let mut piece = Piece { kind: PieceType::O, x: 4, y: 0, r: 0, tspin: TspinType::NoSpin };
    let cells = |p: &Piece| {
        let mut c = p.cells();
        c.sort();
        c
    };
    let before = cells(&piece);
    for _ in 0..4 {
        assert!(piece.turn_right(&board));
        assert_eq!(cells(&piece), before);
    }
    assert_eq!(piece.r, 0);
}

#[test]
fn t_spin_marks() {
    // A slot for a T pointing down at (1, 1), with a roof over its left.
    let slot = board_with(&[(0, 0x3ff ^ 0b010), (1, 0x3ff ^ 0b111), (2, 0b001)]);
    let mut piece = Piece { kind: PieceType::T, x: 1, y: 1, r: 1, tspin: TspinType::NoSpin };
    assert!(slot.piece_fits(piece));
    assert!(piece.turn_right(&slot));
    assert_eq!((piece.x, piece.y, piece.r), (1, 1, 2));
    assert_eq!(piece.tspin, TspinType::Full);
    // Without the roof only two corners are taken.
    let open = board_with(&[(0, 0x3ff ^ 0b010), (1, 0x3ff ^ 0b111)]);
    let mut piece = Piece { kind: PieceType::T, x: 1, y: 1, r: 1, tspin: TspinType::NoSpin };
    assert!(piece.turn_right(&open));
    assert_eq!((piece.x, piece.y, piece.r), (1, 1, 2));
    assert_eq!(piece.tspin, TspinType::NoSpin);
    // Three corners, but only one of them in front: a mini.
    let shallow = board_with(&[(0, 0b101), (2, 0b001)]);
    let mut piece = Piece { kind: PieceType::T, x: 1, y: 1, r: 3, tspin: TspinType::NoSpin };
    assert!(shallow.piece_fits(piece));
    assert!(piece.turn_right(&shallow));
    assert_eq!((piece.x, piece.y, piece.r), (1, 1, 0));
    assert_eq!(piece.tspin, TspinType::Mini);
    // No kind but the T gets a mark.
    let corner = board_with(&[(0, 0b101), (2, 0b101)]);
    let mut piece = Piece { kind: PieceType::L, x: 1, y: 1, r: 1, tspin: TspinType::Full };
    assert!(piece.turn_left(&corner));
    assert_eq!(piece.tspin, TspinType::NoSpin);
}

#[test]
fn t_spin_triple() {
    // A shaft three deep in column 1 with a notch to its right in row 1, and a roof
    // over the shaft: the T lying to the right of the roof turns in by its last kick.
    let board = board_with(&[
        (0, 0x3ff ^ 0b010),
        (1, 0x3ff ^ 0b110),
        (2, 0x3ff ^ 0b010),
        (3, 0b001),
        (4, 0b011),
    ]);
    let mut piece = Piece { kind: PieceType::T, x: 2, y: 3, r: 0, tspin: TspinType::NoSpin };
    assert!(board.piece_fits(piece));
    assert!(piece.turn_right(&board));
    assert_eq!((piece.x, piece.y, piece.r), (1, 1, 1));
    assert_eq!(piece.tspin, TspinType::Full);
    let mut first = board.snapshot();
    let result = first.lock_piece(piece);
    assert_eq!(result.lines_cleared, 3);
    assert!(!result.b2b_bonus);
    assert_eq!(result.combo, 1);
    assert!(first.b2b());
    // The same clear again is back to back.
    let mut rows = [0u16; 40];
    rows.copy_from_slice(board.rows());
    first.set_field(rows);
    let result = first.lock_piece(piece);
    assert_eq!(result.lines_cleared, 3);
    assert!(result.b2b_bonus);
    assert_eq!(result.combo, 2);
}
