use minobot::pathfinder::PathfinderMove;
use minobot::worker::way_to;
use minobot::{
    Board, BotCommand, BotSettings, Exploration, Piece, PieceType, StandardEvaluator, TspinType,
    Worker,
};

struct Greedy;

impl Exploration for Greedy {
    fn score(&self, gain: i64, _span: i64, _parent_visits: u32, child_visits: u32) -> i64 {
        gain - child_visits as i64
    }
}

fn worker() -> Worker<StandardEvaluator, Greedy> {
    Worker::new(
        Board::new(),
        StandardEvaluator::default(),
        BotSettings { use_hold: true, exploration: Greedy },
    )
}

#[test]
fn worker_waits_until_told_to_think() {
    let mut worker = worker();
    assert!(!worker.is_thinking());
    assert!(worker.handle(BotCommand::NewPiece(PieceType::L), 5).is_none());
    assert!(!worker.is_thinking());
    assert_eq!(worker.bot().data().queue, vec![PieceType::L]);
    assert!(worker.handle(BotCommand::BeginThinking, 10).is_none());
    assert!(worker.is_thinking());
}

#[test]
fn worker_stops_thinking_when_nothing_is_left() {
    let mut worker = worker();
    worker.handle(BotCommand::NewPiece(PieceType::O), 0);
    worker.handle(BotCommand::BeginThinking, 0);
    let mut passes = 0;
    while worker.is_thinking() {
        worker.think();
        passes += 1;
        assert!(passes < 100);
    }
    assert!(worker.bot().root().finished);
    let reply = worker.handle(BotCommand::NextMove, 0).expect("a reply");
    assert_eq!(reply.expect("a move").thinks, passes);
}

#[test]
fn worker_hands_over_the_move_with_its_way() {
    let mut worker = worker();
    for kind in [PieceType::T, PieceType::I, PieceType::S] {
        worker.handle(BotCommand::NewPiece(kind), 0);
    }
    worker.handle(BotCommand::BeginThinking, 100);
    for _ in 0..20 {
        worker.think();
    }
    let reply = worker.handle(BotCommand::NextMove, 350).expect("a reply");
    let taken = reply.expect("a move");
    assert!(!worker.is_thinking());
    assert_eq!(taken.thinks, 20);
    assert_eq!(taken.think_time, 250);
    assert_eq!(taken.mv, worker.bot().root().mv);
    assert_eq!(taken.uses_hold, worker.bot().root().uses_hold);
    let board = Board::new();
    let mut piece = Piece::spawn(&board, taken.mv.kind);
    for mv in &taken.path {
        match mv {
            PathfinderMove::Left => piece.move_left(&board),
            PathfinderMove::Right => piece.move_right(&board),
            PathfinderMove::RotLeft => piece.turn_left(&board),
            PathfinderMove::RotRight => piece.turn_right(&board),
            PathfinderMove::SonicDrop => piece.sonic_drop(&board),
        };
    }
    piece.sonic_drop(&board);
    assert_eq!(piece.cells(), taken.mv.cells());
    // The count of passes starts again.
    worker.handle(BotCommand::BeginThinking, 400);
    worker.think();
    let reply = worker.handle(BotCommand::NextMove, 390).expect("a reply");
    let taken = reply.expect("a move");
    assert_eq!(taken.thinks, 1);
    assert_eq!(taken.think_time, 0);
}

#[test]
fn worker_without_a_move_replies_none() {
    let mut worker = worker();
    let reply = worker.handle(BotCommand::NextMove, 1).expect("a reply");
    assert!(reply.is_none());
}

#[test]
fn worker_reset_replaces_board_and_queue() {
    let mut worker = worker();
    worker.handle(BotCommand::NewPiece(PieceType::T), 0);
    worker.handle(BotCommand::BeginThinking, 0);
    worker.think();
    let mut board = Board::new();
    let mut rows = [0u16; 40];
    rows[0] = 0x0f0;
    board.set_field(rows);
    let reply = worker.handle(BotCommand::Reset(board, vec![PieceType::J, PieceType::Z]), 3);
    assert!(reply.is_none());
    assert!(worker.is_thinking());
    assert!(worker.bot().root().children.is_empty());
    assert_eq!(worker.bot().root().board.rows()[0], 0x0f0);
    assert_eq!(worker.bot().data().queue, vec![PieceType::J, PieceType::Z]);
}

#[test]
fn way_to_a_place_out_of_reach_is_empty() {
    let board = Board::new();
    let afloat = Piece { kind: PieceType::T, x: 4, y: 30, r: 0, tspin: TspinType::NoSpin };
    assert!(way_to(&board, afloat).is_empty());
    let outside = Piece { kind: PieceType::T, x: 40, y: 0, r: 0, tspin: TspinType::NoSpin };
    assert!(way_to(&board, outside).is_empty());
    let corner = Piece { kind: PieceType::O, x: 0, y: 0, r: 0, tspin: TspinType::NoSpin };
    let way: Vec<PathfinderMove> = way_to(&board, corner).into_iter().collect();
    assert_eq!(way, vec![PathfinderMove::Left; 4]);
}
