use minobot::bot::{best_child, insert_sorted, pick_highest};
use minobot::{
    Board, Bot, BotSettings, Evaluator, Exploration, Node, Piece, PieceType, StandardEvaluator,
    TspinType,
};

struct Uct {
    k: f32,
}

fn key_of(score: f32) -> i64 {
    if score.is_nan() {
        return i64::MIN;
    }
    let bits = score.to_bits() as i32;
    if bits < 0 {
        (bits ^ i32::MAX) as i64
    } else {
        bits as i64
    }
}

impl Exploration for Uct {
    fn score(&self, gain: i64, span: i64, parent_visits: u32, child_visits: u32) -> i64 {
        let exploit = gain as f32 / span as f32;
        let explore = self.k * ((parent_visits as f32).ln() / child_visits as f32).sqrt();
        key_of(exploit + explore)
    }
}

fn settings(use_hold: bool) -> BotSettings<Uct> {
    BotSettings { use_hold, exploration: Uct { k: std::f32::consts::SQRT_2 } }
}

struct PreferHold;

impl Evaluator for PreferHold {
    fn evaluate(&self, node: &Node, _queue: &[PieceType]) -> (i32, i32) {
        (if node.uses_hold && node.depth == 2 { 1000 } else { 0 }, -node.mv.x)
    }
}

fn board_with(rows: &[(usize, u16)]) -> Board {
    let mut field = [0u16; 40];
    for &(y, row) in rows {
        field[y] = row;
    }
    let mut board = Board::new();
    board.set_field(field);
    board
}

fn depths(node: &Node, out: &mut Vec<u32>) {
    out.push(node.depth);
    for child in &node.children {
        depths(child, out);
    }
}

#[test]
fn key_keeps_the_order_of_scores() {
    let scores = [f32::NEG_INFINITY, -2.5, -1.0, -0.25, 0.0, 0.25, 1.0, 7.5, f32::INFINITY];
    for pair in scores.windows(2) {
        assert!(key_of(pair[0]) < key_of(pair[1]));
    }
    assert!(key_of(f32::NAN) < key_of(f32::NEG_INFINITY));
}

#[test]
fn next_move_on_a_new_bot_is_none() {
    let mut bot = Bot::new(Board::new(), StandardEvaluator::default(), settings(true));
    assert!(bot.next_move().is_none());
    bot.update_queue(PieceType::T);
    assert!(bot.next_move().is_none());
    assert_eq!(bot.data().queue, vec![PieceType::T]);
}

#[test]
fn empty_queue_finishes_at_once() {
    let mut bot = Bot::new(Board::new(), StandardEvaluator::default(), settings(true));
    assert!(bot.think());
    assert!(bot.root().children.is_empty());
    assert!(bot.think());
}

#[test]
fn search_prefers_clear() {
    let board = board_with(&[(0, 0x3fe), (1, 0x3fe), (2, 0x3fe), (3, 0x3fe)]);
    let mut bot = Bot::new(board, StandardEvaluator::default(), settings(true));
    for _ in 0..4 {
        bot.update_queue(PieceType::I);
    }
    for _ in 0..200 {
        bot.think();
    }
    let node = bot.next_move().expect("a move");
    assert_eq!(node.mv.kind, PieceType::I);
    assert!(node.mv.cells().iter().all(|&(x, _)| x == 0));
    assert_eq!(node.lock.lines_cleared, 4);
    assert_eq!(node.depth, 0);
    assert!(node.board.rows().iter().all(|&row| row == 0));
}

#[test]
fn next_move_takes_the_first_of_the_best() {
    let mut bot = Bot::new(Board::new(), StandardEvaluator::default(), settings(false));
    bot.update_queue(PieceType::L);
    bot.update_queue(PieceType::J);
    for _ in 0..30 {
        bot.think();
    }
    let totals: Vec<i32> = bot.root().children.iter().map(|c| c.total_value()).collect();
    let moves: Vec<Piece> = bot.root().children.iter().map(|c| c.mv).collect();
    assert_eq!(totals.len(), 34);
    let best = *totals.iter().max().unwrap();
    let first = totals.iter().position(|&t| t == best).unwrap();
    let taken = bot.next_move().expect("a move").mv;
    assert_eq!(taken, moves[first]);
    assert_eq!(bot.data().queue, vec![PieceType::J]);
}

#[test]
fn children_are_sorted_after_expansion() {
    let mut bot = Bot::new(Board::new(), StandardEvaluator::default(), settings(true));
    bot.update_queue(PieceType::T);
    bot.update_queue(PieceType::S);
    assert!(!bot.think());
    let root = bot.root();
    assert_eq!(root.children.len(), 34 + 17);
    assert!(root.children.windows(2).all(|w| w[0].total_value() <= w[1].total_value()));
    assert_eq!(root.visits, 1 + 51);
    let last = root.children.last().unwrap();
    assert_eq!(root.value, last.value);
    assert_eq!(root.max_child_reward, last.reward);
    for child in &root.children {
        assert_eq!(child.visits, 1);
        assert_eq!(child.mv.kind, if child.uses_hold { PieceType::S } else { PieceType::T });
        assert_eq!(child.depth, if child.uses_hold { 2 } else { 1 });
        assert_eq!(child.finished, child.uses_hold);
        assert_eq!(child.board.hold(), if child.uses_hold { Some(PieceType::T) } else { None });
    }
}

#[test]
fn hold_needs_a_second_piece() {
    let mut bot = Bot::new(Board::new(), StandardEvaluator::default(), settings(true));
    bot.update_queue(PieceType::T);
    bot.think();
    assert_eq!(bot.root().children.len(), 34);
    assert!(bot.root().children.iter().all(|c| !c.uses_hold && c.finished));
    assert!(bot.think());
}

#[test]
fn hold_swap_takes_two_pieces() {
    let mut bot = Bot::new(Board::new(), PreferHold, settings(true));
    for kind in [PieceType::S, PieceType::I, PieceType::O, PieceType::L] {
        bot.update_queue(kind);
    }
    for _ in 0..60 {
        bot.think();
    }
    let mut before = Vec::new();
    let totals: Vec<i32> = bot.root().children.iter().map(|c| c.total_value()).collect();
    let best = *totals.iter().max().unwrap();
    let first = totals.iter().position(|&t| t == best).unwrap();
    depths(&bot.root().children[first], &mut before);
    let node = bot.next_move().expect("a move");
    assert!(node.uses_hold);
    assert_eq!(node.mv.kind, PieceType::I);
    assert_eq!(node.board.hold(), Some(PieceType::S));
    let mut after = Vec::new();
    depths(node, &mut after);
    assert_eq!(after.len(), before.len());
    assert!(before.iter().zip(&after).all(|(b, a)| *a + 2 == *b));
    assert_eq!(bot.data().queue, vec![PieceType::O, PieceType::L]);
    // With a piece held, a hold takes one piece only.
    for _ in 0..60 {
        bot.think();
    }
    let node = bot.next_move().expect("a move");
    if node.uses_hold {
        assert_eq!(node.mv.kind, PieceType::S);
        assert_eq!(node.board.hold(), Some(PieceType::O));
    } else {
        assert_eq!(node.mv.kind, PieceType::O);
        assert_eq!(node.board.hold(), Some(PieceType::S));
    }
    assert_eq!(node.depth, 0);
    assert_eq!(bot.data().queue, vec![PieceType::L]);
}

#[test]
fn search_finishes_and_then_rests() {
    let mut bot = Bot::new(Board::new(), StandardEvaluator::default(), settings(false));
    bot.update_queue(PieceType::O);
    bot.update_queue(PieceType::O);
    let mut passes = 0;
    while !bot.think() {
        passes += 1;
        assert!(passes < 1000);
    }
    let count =
        |node: &Node| node.children.iter().map(|c| 1 + c.children.len()).sum::<usize>();
    let nodes = count(bot.root());
    assert_eq!(nodes, 9 + 9 * 9);
    let visits = bot.root().visits;
    let value = bot.root().value;
    for _ in 0..10 {
        assert!(bot.think());
    }
    assert_eq!(count(bot.root()), nodes);
    assert_eq!(bot.root().visits, visits);
    assert_eq!(bot.root().value, value);
}

#[test]
fn block_out_is_never_descended_into() {
    // The stack reaches row 19 in the columns where a piece comes in; whatever is locked
    // lies in the buffer or tops the stack.
    let rows: Vec<(usize, u16)> = (0..20).map(|y| (y, 0x3ff ^ 1)).collect();
    let mut bot = Bot::new(board_with(&rows), StandardEvaluator::default(), settings(false));
    for _ in 0..3 {
        bot.update_queue(PieceType::O);
    }
    for _ in 0..50 {
        bot.think();
    }
    for child in &bot.root().children {
        if child.lock.block_out {
            assert!(child.children.is_empty());
            assert_eq!(child.visits, 1);
        }
    }
    assert!(bot.root().children.iter().any(|c| c.lock.block_out));
}

#[test]
fn piece_that_cannot_spawn_leaves_no_move() {
    let rows: Vec<(usize, u16)> = (0..22).map(|y| (y, 0x3ff ^ 1)).collect();
    let mut bot = Bot::new(board_with(&rows), StandardEvaluator::default(), settings(true));
    bot.update_queue(PieceType::T);
    bot.update_queue(PieceType::I);
    assert!(bot.think());
    assert!(bot.root().children.is_empty());
    assert!(bot.next_move().is_none());
}

#[test]
fn reset_starts_over() {
    let mut bot = Bot::new(Board::new(), StandardEvaluator::default(), settings(true));
    bot.update_queue(PieceType::T);
    bot.think();
    let board = board_with(&[(0, 0b11)]);
    bot.reset(board, vec![PieceType::Z, PieceType::S]);
    assert!(bot.root().children.is_empty());
    assert_eq!(bot.root().board.rows()[0], 0b11);
    assert_eq!(bot.data().queue, vec![PieceType::Z, PieceType::S]);
    assert_eq!(bot.root().visits, 1);
    assert_eq!(bot.root().value, i32::MIN);
}

#[test]
fn pick_highest_takes_the_first_of_the_highest() {
    assert_eq!(pick_highest(&vec![]), None);
    assert_eq!(pick_highest(&vec![None, None]), None);
    assert_eq!(pick_highest(&vec![None, Some(3), Some(5), None, Some(5), Some(4)]), Some(2));
    assert_eq!(pick_highest(&vec![Some(i64::MIN), None]), Some(0));
}

fn leaf(value: i32, reward: i32) -> Node {
    let mut node = Node::root(Board::new());
    node.value = value;
    node.reward = reward;
    node
}

#[test]
fn best_child_and_sorted_insert() {
    assert_eq!(best_child(&vec![]), None);
    let mut children = Vec::new();
    for (value, reward) in [(5, 0), (1, 1), (5, 0), (9, -4), (-3, 0)] {
        insert_sorted(&mut children, leaf(value, reward));
    }
    let totals: Vec<i32> = children.iter().map(|c| c.total_value()).collect();
    assert_eq!(totals, vec![-3, 2, 5, 5, 5]);
    // Of the three with the same total the one that came first stands first.
    assert_eq!(children[2].value, 5);
    assert_eq!(children[3].value, 5);
    assert_eq!(children[4].value, 9);
    assert_eq!(best_child(&children), Some(2));
}

#[test]
fn total_value_saturates() {
    let mut node = leaf(i32::MAX, 1);
    node.max_child_reward = -5;
    assert_eq!(node.total_value(), i32::MAX - 5);
    let mut node = leaf(i32::MIN, i32::MIN);
    node.max_child_reward = 7;
    assert_eq!(node.total_value(), i32::MIN + 7);
    let node = Node::root(Board::new());
    assert_eq!(node.mv, Piece { kind: PieceType::O, x: 0, y: 0, r: 0, tspin: TspinType::NoSpin });
    assert_eq!(node.total_value(), i32::MIN);
}

#[test]
fn odds_are_measured_from_the_least_eligible_total() {
    let mut root = Node::root(Board::new());
    root.value = 40;
    root.max_child_reward = 2;
    root.visits = 9;
    for (value, reward, visits, finished, block_out) in [
        (1, 0, 1, true, false),
        (30, 5, 2, false, false),
        (10, 0, 3, false, false),
        (-99, 0, 4, false, true),
        (10, 7, 5, false, false),
    ] {
        let mut child = leaf(value, reward);
        child.visits = visits;
        child.finished = finished;
        child.lock.block_out = block_out;
        root.children.push(child);
    }
    assert_eq!(root.least_eligible(), Some(10));
    assert_eq!(
        root.odds(),
        vec![None, Some((25, 32, 9, 2)), Some((0, 32, 9, 3)), None, Some((7, 32, 9, 5))]
    );
    root.children.truncate(1);
    assert_eq!(root.least_eligible(), None);
    assert_eq!(root.odds(), vec![None]);
}

struct Favour(usize);

impl Exploration for Favour {
    fn score(&self, _gain: i64, _span: i64, _parent_visits: u32, child_visits: u32) -> i64 {
        if child_visits as usize == self.0 {
            1
        } else {
            0
        }
    }
}

#[test]
fn select_takes_the_first_of_the_highest_keys_among_the_eligible() {
    let mut root = Node::root(Board::new());
    for (visits, finished, block_out) in
        [(1, true, false), (2, false, true), (3, false, false), (4, false, false), (3, false, false)]
    {
        let mut child = leaf(0, 0);
        child.visits = visits;
        child.finished = finished;
        child.lock.block_out = block_out;
        root.children.push(child);
    }
    assert_eq!(root.select(&Favour(4)), Some(3));
    assert_eq!(root.select(&Favour(3)), Some(2));
    // The favoured children are finished or a block-out: the first eligible one is taken.
    assert_eq!(root.select(&Favour(1)), Some(2));
    assert_eq!(root.select(&Favour(2)), Some(2));
    root.children.truncate(2);
    assert_eq!(root.select(&Favour(1)), None);
}
