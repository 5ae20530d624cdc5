use minobot::{Board, Piece, PieceType, TspinType};

fn rows_with(filled: &[(usize, u16)]) -> [u16; 40] {
    let mut rows = [0u16; 40];
    for &(y, row) in filled {
        rows[y] = row;
    }
    rows
}

#[test]
fn new_board_is_empty() {
    let board = Board::new();
    assert_eq!(board.rows(), &[0u16; 40][..]);
    assert_eq!(board.column_heights(), &[0i32; 10][..]);
    assert_eq!(board.hold(), None);
    assert_eq!(board.combo(), 0);
    assert!(!board.b2b());
}

#[test]
fn occupied_is_true_off_the_grid() {
    let board = Board::new();
    assert!(board.occupied(-1, 0));
    assert!(board.occupied(10, 0));
    assert!(board.occupied(0, -1));
    assert!(board.occupied(0, 40));
    assert!(!board.occupied(0, 0));
    assert!(!board.occupied(9, 39));
}

#[test]
fn spawn_fit_fail() {
    let mut board = Board::new();
    board.set_field(rows_with(&[(20, (1 << 4) | (1 << 5))]));
    let piece = Piece::spawn(&board, PieceType::T);
    assert_eq!(piece, Piece { kind: PieceType::T, x: 4, y: 20, r: 0, tspin: TspinType::NoSpin });
    assert!(!board.piece_fits(piece));
}

#[test]
fn spawn_drops_one_row() {
    let board = Board::new();
    let piece = Piece::spawn(&board, PieceType::T);
    assert_eq!(piece, Piece { kind: PieceType::T, x: 4, y: 19, r: 0, tspin: TspinType::NoSpin });
    assert!(board.piece_fits(piece));
}

fn place_i_in_last_column(board: &Board) -> Piece {
    let mut piece = Piece::spawn(board, PieceType::I);
    assert!(piece.turn_right(board));
    while piece.move_right(board) {}
    assert!(piece.sonic_drop(board));
    piece
}

#[test]
fn tetris_line_clear() {
    let mut board = Board::new();
    board.set_field(rows_with(&[(0, 0x1ff), (1, 0x1ff), (2, 0x1ff), (3, 0x1ff)]));
    let piece = place_i_in_last_column(&board);
    assert_eq!(piece.x, 9);
    assert_eq!(piece.y, 2);
    let result = board.lock_piece(piece);
    assert_eq!(result.lines_cleared, 4);
    assert!(!result.b2b_bonus);
    assert_eq!(result.combo, 1);
    assert!(!result.block_out);
    assert_eq!(board.rows(), &[0u16; 40][..]);
    assert_eq!(board.column_heights(), &[0i32; 10][..]);
    assert!(board.b2b());
}

#[test]
fn three_rows_clear_three() {
    let mut board = Board::new();
    board.set_field(rows_with(&[(0, 0x1ff), (1, 0x1ff), (2, 0x1ff)]));
    let piece = place_i_in_last_column(&board);
    let result = board.lock_piece(piece);
    assert_eq!(result.lines_cleared, 3);
    assert_eq!(result.combo, 1);
    assert!(!result.b2b_bonus);
    assert!(!board.b2b());
    assert_eq!(board.rows()[0], 1 << 9);
    assert_eq!(board.column_heights()[9], 1);
}

#[test]
fn second_tetris_has_back_to_back_bonus() {
    let mut board = Board::new();
    board.set_field(rows_with(&[(0, 0x1ff), (1, 0x1ff), (2, 0x1ff), (3, 0x1ff)]));
    let piece = place_i_in_last_column(&board);
    board.lock_piece(piece);
    board.set_field(rows_with(&[(0, 0x1ff), (1, 0x1ff), (2, 0x1ff), (3, 0x1ff)]));
    let piece = place_i_in_last_column(&board);
    let result = board.lock_piece(piece);
    assert_eq!(result.lines_cleared, 4);
    assert!(result.b2b_bonus);
    assert_eq!(result.combo, 2);
}

#[test]
fn lock_without_clear_resets_combo() {
    let mut board = Board::new();
    board.set_field(rows_with(&[(0, 0x1ff), (1, 0x1ff), (2, 0x1ff), (3, 0x1ff)]));
    let piece = place_i_in_last_column(&board);
    board.lock_piece(piece);
    let mut piece = Piece::spawn(&board, PieceType::O);
    piece.sonic_drop(&board);
    let result = board.lock_piece(piece);
    assert_eq!(result.lines_cleared, 0);
    assert_eq!(result.combo, 0);
    assert_eq!(board.combo(), 0);
    assert!(board.b2b());
    assert!(!result.b2b_bonus);
}

#[test]
fn lock_count_law_on_an_example() {
    let mut board = Board::new();
    board.set_field(rows_with(&[(0, 0x3fe), (1, 0x0f0)]));
    let before: u32 = board.rows().iter().map(|r| r.count_ones()).sum();
    let mut piece = Piece::spawn(&board, PieceType::I);
    piece.turn_left(&board);
    while piece.move_left(&board) {}
    piece.sonic_drop(&board);
    let result = board.lock_piece(piece);
    let after: u32 = board.rows().iter().map(|r| r.count_ones()).sum();
    assert_eq!(result.lines_cleared, 1);
    assert_eq!(after as i32, before as i32 + 4 - 10 * result.lines_cleared);
}

#[test]
fn clear_keeps_order_of_other_rows() {
    let mut board = Board::new();
    board.set_field(rows_with(&[(0, 0x001), (1, 0x3fe), (2, 0x002), (3, 0x3fe), (4, 0x004)]));
    let mut piece = Piece { kind: PieceType::I, x: 0, y: 10, r: 1, tspin: TspinType::NoSpin };
    assert!(!board.piece_fits(Piece { y: 2, ..piece }));
    piece.sonic_drop(&board);
    assert_eq!(piece.y, 3);
    let result = board.lock_piece(piece);
    assert_eq!(result.lines_cleared, 2);
    assert_eq!(board.rows()[0], 0x001);
    assert_eq!(board.rows()[1], 0x003);
    assert_eq!(board.rows()[2], 0x005);
    assert_eq!(board.rows()[3], 0);
    assert_eq!(board.column_heights()[0], 3);
    assert_eq!(board.column_heights()[1], 2);
    assert_eq!(board.column_heights()[2], 3);
}

#[test]
fn block_out_when_all_cells_in_buffer() {
    let mut board = Board::new();
    let piece = Piece { kind: PieceType::O, x: 4, y: 20, r: 0, tspin: TspinType::NoSpin };
    let result = board.lock_piece(piece);
    assert!(result.block_out);
    let piece = Piece { kind: PieceType::I, x: 0, y: 20, r: 1, tspin: TspinType::NoSpin };
    let result = board.lock_piece(piece);
    assert!(!result.block_out);
}

#[test]
fn garbage_rows_come_in_from_below() {
    let mut board = Board::new();
    board.set_field(rows_with(&[(0, 0x001)]));
    let top_out = board.add_garbage(&[3, 7]);
    assert!(!top_out);
    assert_eq!(board.rows()[0], 0x3ff ^ (1 << 7));
    assert_eq!(board.rows()[1], 0x3ff ^ (1 << 3));
    assert_eq!(board.rows()[2], 0x001);
    assert_eq!(board.column_heights()[0], 3);
    assert_eq!(board.column_heights()[3], 1);
    assert_eq!(board.column_heights()[7], 2);
    assert_eq!(board.column_heights()[9], 2);
}

#[test]
fn garbage_tops_out_when_a_cell_leaves_the_grid() {
    let mut board = Board::new();
    board.set_field(rows_with(&[(39, 0x010)]));
    assert!(board.add_garbage(&[0]));
    assert_eq!(board.rows()[39], 0);
    assert_eq!(board.column_heights()[4], 1);
    let mut board = Board::new();
    board.set_field(rows_with(&[(38, 0x010)]));
    assert!(!board.add_garbage(&[0]));
    assert!(board.add_garbage(&[0]));
}

#[test]
fn hold_swap_returns_what_was_held() {
    let mut board = Board::new();
    assert_eq!(board.hold_swap(PieceType::S), None);
    assert_eq!(board.hold(), Some(PieceType::S));
    assert_eq!(board.hold_swap(PieceType::I), Some(PieceType::S));
    assert_eq!(board.hold(), Some(PieceType::I));
}

#[test]
fn snapshot_is_a_copy() {
    let mut board = Board::new();
    board.set_field(rows_with(&[(0, 0x155)]));
    board.hold_swap(PieceType::L);
    let copy = board.snapshot();
    board.add_garbage(&[1]);
    assert_eq!(copy.rows()[0], 0x155);
    assert_eq!(copy.rows()[1], 0);
    assert_eq!(copy.hold(), Some(PieceType::L));
    assert_eq!(copy.column_heights()[0], 1);
}

#[test]
fn board_from_parts() {
    let board = Board::from_parts(
        rows_with(&[(0, 0x3fe), (1, 0x004), (5, 0x200)]),
        Some(PieceType::J),
        3,
        true,
    );
    assert_eq!(board.rows()[0], 0x3fe);
    assert_eq!(board.rows()[5], 0x200);
    assert_eq!(board.column_heights(), &[0, 1, 2, 1, 1, 1, 1, 1, 1, 6][..]);
    assert_eq!(board.hold(), Some(PieceType::J));
    assert_eq!(board.combo(), 3);
    assert!(board.b2b());
    // A clear that is no back-to-back clear ends the chain and goes on with the combo.
    let mut board = board;
    let piece = Piece { kind: PieceType::O, x: 0, y: 0, r: 1, tspin: TspinType::NoSpin };
    assert!(!board.piece_fits(piece));
    let piece = Piece { kind: PieceType::I, x: 0, y: 2, r: 1, tspin: TspinType::NoSpin };
    assert!(board.piece_fits(piece));
    let result = board.lock_piece(piece);
    assert_eq!(result.lines_cleared, 1);
    assert_eq!(result.combo, 4);
    assert!(!result.b2b_bonus);
    assert!(!board.b2b());
}
