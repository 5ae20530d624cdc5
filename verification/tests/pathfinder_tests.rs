use minobot::pathfinder::{MoveNode, Moves, PathfinderMove};
use minobot::{Board, Piece, PieceType, TspinType};

fn replay(board: &Board, mut piece: Piece, path: &[PathfinderMove]) -> Piece {
    for &mv in path {
        match mv {
            PathfinderMove::Left => {
                piece.move_left(board);
            }
            PathfinderMove::Right => {
                piece.move_right(board);
            }
            PathfinderMove::RotLeft => {
                piece.turn_left(board);
            }
            PathfinderMove::RotRight => {
                piece.turn_right(board);
            }
            PathfinderMove::SonicDrop => {
                piece.sonic_drop(board);
            }
        }
    }
    piece
}

#[test]
fn i_piece_on_flat_board() {
    let board = Board::new();
    let piece = Piece::spawn(&board, PieceType::I);
    let found = Moves::moves(&board, piece);
    let flat = found.positions().iter().filter(|(p, _)| p.r == 0 || p.r == 2).count();
    let upright = found.positions().iter().filter(|(p, _)| p.r == 1 || p.r == 3).count();
    assert_eq!(flat, 7);
    assert_eq!(upright, 10);
    assert_eq!(found.positions().len(), 17);
    for (i, (a, _)) in found.positions().iter().enumerate() {
        for (b, _) in &found.positions()[i + 1..] {
            let mut ca = a.cells();
            let mut cb = b.cells();
            ca.sort();
            cb.sort();
            assert_ne!(ca, cb);
        }
    }
}

#[test]
fn every_kind_on_flat_board() {
    let board = Board::new();
    let expected = [
        (PieceType::J, 34),
        (PieceType::L, 34),
        (PieceType::S, 17),
        (PieceType::T, 34),
        (PieceType::Z, 17),
        (PieceType::I, 17),
        (PieceType::O, 9),
    ];
    for (kind, count) in expected {
        let found = Moves::moves(&board, Piece::spawn(&board, kind));
        assert_eq!(found.positions().len(), count, "{:?}", kind);
    }
}

#[test]
fn paths_lead_to_their_positions() {
    let mut board = Board::new();
    let mut rows = [0u16; 40];
    rows[0] = 0x3f3;
    rows[1] = 0x3e1;
    rows[2] = 0x201;
    board.set_field(rows);
    for kind in [
        PieceType::J,
        PieceType::L,
        PieceType::S,
        PieceType::T,
        PieceType::Z,
        PieceType::I,
        PieceType::O,
    ] {
        let start = Piece::spawn(&board, kind);
        let found = Moves::moves(&board, start);
        assert!(!found.positions().is_empty());
        for &(target, cost) in found.positions() {
            assert!(found.contains(target));
            let path: Vec<PathfinderMove> = found.path(target).into_iter().collect();
            assert_ne!(path.last(), Some(&PathfinderMove::SonicDrop));
            let mut end = replay(&board, start, &path);
            if end != target {
                end.sonic_drop(&board);
            }
            assert_eq!(end, target);
            assert!(cost >= 0);
            let mut below = target;
            assert!(!below.soft_drop(&board));
        }
    }
}

#[test]
fn costs_on_flat_board() {
    let board = Board::new();
    let start = Piece::spawn(&board, PieceType::O);
    let found = Moves::moves(&board, start);
    for &(target, cost) in found.positions() {
        assert_eq!(cost, (target.x - 4).abs());
        assert_eq!(found.path(target).len() as i32, cost);
    }
}

#[test]
fn piece_that_does_not_fit_has_no_position() {
    let mut board = Board::new();
    let mut rows = [0u16; 40];
    rows[19] = 0x3ff ^ 1;
    rows[20] = 0x3ff ^ 1;
    board.set_field(rows);
    let start = Piece::spawn(&board, PieceType::T);
    assert!(!board.piece_fits(start));
    let found = Moves::moves(&board, start);
    assert!(found.positions().is_empty());
    assert!(!found.contains(start));
}

#[test]
fn true_dist_leaves_out_a_last_drop() {
    let node = MoveNode { parent: None, mv: PathfinderMove::SonicDrop, total_dist: 12, dist: 5 };
    assert_eq!(node.true_dist(), 7);
    let node = MoveNode { parent: None, mv: PathfinderMove::Left, total_dist: 12, dist: 1 };
    assert_eq!(node.true_dist(), 12);
}

#[test]
fn t_spin_slot_is_found_as_full() {
    // A T-spin double slot at the left: the T turns into it under an overhang.
    let mut board = Board::new();
    let mut rows = [0u16; 40];
    rows[0] = 0x3ff ^ 0b010;
    rows[1] = 0x3ff ^ 0b111;
    rows[2] = 0b001;
    board.set_field(rows);
    let start = Piece::spawn(&board, PieceType::T);
    let found = Moves::moves(&board, start);
    let spin = found
        .positions()
        .iter()
        .find(|(p, _)| p.x == 1 && p.y == 1 && p.r == 2)
        .expect("the slot is reachable");
    assert_eq!(spin.0.tspin, TspinType::Full);
    let mut board = board;
    let result = board.lock_piece(spin.0);
    assert_eq!(result.lines_cleared, 2);
}
