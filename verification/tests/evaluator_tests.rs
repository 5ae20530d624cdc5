use minobot::{
    Board, Evaluator, LockResult, Node, Piece, PieceType, StandardEvaluator, TspinType,
};

fn node_on(rows: &[(usize, u16)], mv: Piece, lock: LockResult, move_dist: i32) -> Node {
    let mut field = [0u16; 40];
    for &(y, row) in rows {
        field[y] = row;
    }
    let mut board = Board::new();
    board.set_field(field);
    let mut node = Node::root(board);
    node.mv = mv;
    node.lock = lock;
    node.move_dist = move_dist;
    node
}

fn no_lock() -> LockResult {
    LockResult { lines_cleared: 0, block_out: false, combo: 0, b2b_bonus: false }
}

fn piece(kind: PieceType, y: i32, tspin: TspinType) -> Piece {
    Piece { kind, x: 4, y, r: 0, tspin }
}

#[test]
fn default_weights() {
    let weights = StandardEvaluator::default();
    assert_eq!(weights.holes, -203);
    assert_eq!(weights.holes_sq, -8);
    assert_eq!(weights.hole_depths, -18);
    assert_eq!(weights.hole_depths_sq, -1);
    assert_eq!(weights.move_height, -18);
    assert_eq!(weights.move_height_sq, -4);
    assert_eq!(weights.move_dist, -5);
    assert_eq!(weights.max_height, -8);
    assert_eq!(weights.max_height_sq, 0);
    assert_eq!(weights.bumpiness, -15);
    assert_eq!(weights.bumpiness_sq, -9);
    assert_eq!(weights.row_transitions, -20);
    assert_eq!(weights.row_transitions_sq, 0);
    assert_eq!(weights.well_depth, 55);
    assert_eq!(weights.max_well_depth, 10);
    assert_eq!(weights.line_clear, [7, -363, -293, -280, 554]);
    assert_eq!(weights.mini_clear, [1, -194, 101]);
    assert_eq!(weights.tspin_clear, [-6, 108, 629, 1244]);
    assert_eq!(weights.perfect_clear, 5000);
    assert_eq!(weights.combo_garbage, 305);
    assert_eq!(weights.wasted_t, -268);
    assert_eq!(weights.tslot, 301);
}

#[test]
fn empty_board_scores() {
    let weights = StandardEvaluator::default();
    let node = node_on(&[], piece(PieceType::O, 0, TspinType::NoSpin), no_lock(), 0);
    // One T-slot term, 40 changes between wall and free cell; a clear of no line and an all-clear.
    assert_eq!(weights.evaluate(&node, &[]), (301 - 800, 7 + 5000));
}

#[test]
fn board_with_a_hole_scores() {
    let weights = StandardEvaluator::default();
    let node = node_on(
        &[(0, 0b101), (1, 0b010)],
        piece(PieceType::T, 1, TspinType::NoSpin),
        no_lock(),
        3,
    );
    let value = -203 - 8 - 18 - 1 - 16 - 45 - 27 + 301 - 880 - 18 - 4;
    let reward = -268 + 7 - 15;
    assert_eq!(weights.evaluate(&node, &[]), (value, reward));
}

#[test]
fn block_out_scores_least() {
    let weights = StandardEvaluator::default();
    let lock = LockResult { block_out: true, ..no_lock() };
    let node = node_on(&[], piece(PieceType::O, 20, TspinType::NoSpin), lock, 0);
    assert_eq!(weights.evaluate(&node, &[]), (i32::MIN, i32::MIN));
}

#[test]
fn clear_tables_and_combo() {
    let weights = StandardEvaluator::default();
    let rows = [(0, 0b1)];
    let base = weights.evaluate(
        &node_on(&rows, piece(PieceType::O, 0, TspinType::NoSpin), no_lock(), 0),
        &[],
    );
    let reward_of = |kind, tspin, lines_cleared, combo| {
        let lock = LockResult { lines_cleared, combo, ..no_lock() };
        let node = node_on(&rows, piece(kind, 0, tspin), lock, 0);
        let (value, reward) = weights.evaluate(&node, &[]);
        assert_eq!(value, base.0);
        reward
    };
    assert_eq!(base.1, 7);
    assert_eq!(reward_of(PieceType::I, TspinType::NoSpin, 4, 1), 554);
    assert_eq!(reward_of(PieceType::L, TspinType::NoSpin, 1, 3), -363 + 305);
    assert_eq!(reward_of(PieceType::T, TspinType::Full, 2, 0), 629);
    assert_eq!(reward_of(PieceType::T, TspinType::Full, 3, 12), 1244 + 5 * 305);
    assert_eq!(reward_of(PieceType::T, TspinType::Full, 0, 0), -268 - 6);
    assert_eq!(reward_of(PieceType::T, TspinType::Mini, 1, 5), -194 + 2 * 305);
    assert_eq!(reward_of(PieceType::T, TspinType::Mini, 2, 40), 101 + 5 * 305);
    assert_eq!(reward_of(PieceType::T, TspinType::NoSpin, 2, 0), -268 - 293);
}

#[test]
fn well_depth_is_capped() {
    let mut weights = StandardEvaluator::default();
    let rows: Vec<(usize, u16)> = (0..12).map(|y| (y, 0x3fe)).collect();
    let node = node_on(&rows, piece(PieceType::O, 0, TspinType::NoSpin), no_lock(), 0);
    let (capped, _) = weights.evaluate(&node, &[]);
    weights.max_well_depth = 12;
    let (full, _) = weights.evaluate(&node, &[]);
    assert_eq!(full - capped, 2 * 55);
    weights.well_depth = 0;
    let (none, _) = weights.evaluate(&node, &[]);
    assert_eq!(full - none, 12 * 55);
}

#[test]
fn t_pieces_to_come_count_for_t_slots() {
    let weights = StandardEvaluator::default();
    // Two T-slots: the free cells (1, 1) and (5, 1), each under a roof two rows up.
    let rows = [
        (0, 0x3ff ^ (1 << 1) ^ (1 << 5)),
        (1, 0x3ff ^ 0b111 ^ (0b111 << 4)),
        (2, 0b001 | (0b001 << 4)),
        (3, 0b010 | (0b010 << 4)),
    ];
    let mut node = node_on(&rows, piece(PieceType::O, 0, TspinType::NoSpin), no_lock(), 0);
    let (none, _) = weights.evaluate(&node, &[PieceType::I]);
    let (one, _) = weights.evaluate(&node, &[PieceType::T, PieceType::I]);
    let (two, _) = weights.evaluate(&node, &[PieceType::T, PieceType::I, PieceType::T]);
    let (three, _) =
        weights.evaluate(&node, &[PieceType::T, PieceType::T, PieceType::I, PieceType::T]);
    assert_eq!(one, none);
    assert_eq!(two - one, 301);
    assert_eq!(three, two);
    node.depth = 1;
    let (later, _) = weights.evaluate(&node, &[PieceType::T, PieceType::I, PieceType::T]);
    assert_eq!(later, one);
}

#[test]
fn extreme_weights_saturate() {
    let mut weights = StandardEvaluator::default();
    weights.row_transitions = i32::MIN;
    weights.line_clear = [i32::MAX; 5];
    weights.perfect_clear = i32::MAX;
    let node = node_on(&[], piece(PieceType::O, 0, TspinType::NoSpin), no_lock(), 0);
    // The T-slot term is added before the row changes; every later sum stays at the end.
    assert_eq!(weights.evaluate(&node, &[]), (i32::MIN + 301, i32::MAX));
}
