use minobot::pathfinder::Moves;
use minobot::{Board, Piece, PieceType};
use std::collections::{BTreeSet, HashMap, VecDeque};

type State = (i32, i32, u8, u8);

fn state_of(p: &Piece) -> State {
    (p.x, p.y, p.r, p.tspin as u8)
}

const KINDS: [PieceType; 7] = [
    PieceType::J,
    PieceType::L,
    PieceType::S,
    PieceType::T,
    PieceType::Z,
    PieceType::I,
    PieceType::O,
];

fn try_input(board: &Board, kind: PieceType, from: Piece, input: usize) -> Option<Piece> {
    if kind == PieceType::O && input < 2 {
        return None;
    }
    let mut to = from;
    let moved = match input {
        0 => to.turn_left(board),
        1 => to.turn_right(board),
        2 => to.move_left(board),
        3 => to.move_right(board),
        _ => to.sonic_drop(board),
    };
    if moved {
        Some(to)
    } else {
        None
    }
}

/// Every state that inputs lead to from `start`, with the least cost of a way to it:
/// all its inputs counted, and with a drop at its end left out.
fn all_ways(board: &Board, start: Piece) -> HashMap<State, (Piece, i32, i32)> {
    let mut seen: HashMap<State, (Piece, i32, i32)> = HashMap::new();
    seen.insert(state_of(&start), (start, 0, 0));
    let mut queue = VecDeque::new();
    queue.push_back(start);
    while let Some(from) = queue.pop_front() {
        let cost = seen[&state_of(&from)].1;
        for input in 0..5 {
            if let Some(to) = try_input(board, start.kind, from, input) {
                let step = if input == 4 { from.y - to.y } else { 1 };
                let whole = cost + step;
                let short = if input == 4 { cost } else { whole };
                let entry = seen.entry(state_of(&to)).or_insert((to, i32::MAX, i32::MAX));
                entry.2 = entry.2.min(short);
                if whole < entry.1 {
                    entry.1 = whole;
                    queue.push_back(to);
                }
            }
        }
    }
    seen
}

fn cells_of(p: &Piece) -> [(i32, i32); 4] {
    let mut cells = p.cells();
    cells.sort();
    cells
}

struct Lcg(u64);

impl Lcg {
    fn next(&mut self) -> u32 {
        self.0 = self.0.wrapping_mul(6364136223846793005).wrapping_add(1442695040888963407);
        (self.0 >> 33) as u32
    }
}

fn some_board(rng: &mut Lcg) -> Board {
    let mut rows = [0u16; 40];
    let height = 2 + (rng.next() % 12) as usize;
    for row in rows.iter_mut().take(height) {
        *row = (rng.next() & 0x3ff) as u16;
        if rng.next() % 3 == 0 {
            *row |= (rng.next() & 0x3ff) as u16;
        }
        if *row == 0x3ff {
            *row ^= 1 << (rng.next() % 10);
        }
    }
    let mut board = Board::new();
    board.set_field(rows);
    board
}

#[test]
fn lock_positions_are_the_resting_places() {
    let mut rng = Lcg(2024);
    for _ in 0..60 {
        let board = some_board(&mut rng);
        for kind in KINDS {
            let start = Piece::spawn(&board, kind);
            if !board.piece_fits(start) {
                continue;
            }
            let found = Moves::moves(&board, start);
            let ways = all_ways(&board, start);
            let resting: BTreeSet<[(i32, i32); 4]> = ways
                .values()
                .filter(|(p, _, _)| {
                    let mut below = *p;
                    !below.soft_drop(&board)
                })
                .map(|(p, _, _)| cells_of(p))
                .collect();
            let reported: Vec<[(i32, i32); 4]> =
                found.positions().iter().map(|(p, _)| cells_of(p)).collect();
            let distinct: BTreeSet<[(i32, i32); 4]> = reported.iter().copied().collect();
            assert_eq!(distinct.len(), reported.len());
            assert_eq!(distinct, resting);
            for state in ways.keys() {
                let piece = ways[state].0;
                assert!(found.contains(piece));
            }
        }
    }
}

#[test]
fn costs_are_costs_of_ways() {
    let mut rng = Lcg(77);
    for _ in 0..60 {
        let board = some_board(&mut rng);
        for kind in KINDS {
            let start = Piece::spawn(&board, kind);
            if !board.piece_fits(start) {
                continue;
            }
            let found = Moves::moves(&board, start);
            let ways = all_ways(&board, start);
            for &(piece, cost) in found.positions() {
                // No way to the cells of a lock position costs less than the least.
                let least = ways
                    .values()
                    .filter(|(p, _, _)| cells_of(p) == cells_of(&piece))
                    .filter(|(p, _, _)| {
                        let mut below = *p;
                        !below.soft_drop(&board)
                    })
                    .map(|&(_, _, short)| short)
                    .min()
                    .unwrap();
                assert!(cost >= least);
                // The way that is handed out has no drop at its end.
                let way = found.path(piece);
                assert_ne!(way.back(), Some(&minobot::pathfinder::PathfinderMove::SonicDrop));
            }
        }
    }
}

#[test]
fn a_drop_on_the_way_can_hide_a_shorter_way() {
    // The reported cost is the least among the entries of the table, which keeps for
    // each state the way that is shortest without its last drop; where that way ends in
    // a long drop, the states behind it are reached at a higher cost than need be.
    let mut rows = [0u16; 40];
    rows[..7].copy_from_slice(&[0x137, 0x185, 0x1f6, 0x012, 0x117, 0x265, 0x1d5]);
    let mut board = Board::new();
    board.set_field(rows);
    let start = Piece::spawn(&board, PieceType::I);
    let found = Moves::moves(&board, start);
    let ways = all_ways(&board, start);
    let (piece, cost) = *found
        .positions()
        .iter()
        .find(|(p, _)| cells_of(p) == [(3, 1), (4, 1), (5, 1), (6, 1)])
        .expect("the place is reached");
    let least = ways
        .values()
        .filter(|(p, _, _)| cells_of(p) == cells_of(&piece))
        .map(|&(_, _, short)| short)
        .min()
        .unwrap();
    assert_eq!(cost, 20);
    assert_eq!(least, 19);
}

#[test]
fn turns_of_an_o_reach_no_other_cells() {
    let mut rng = Lcg(5);
    for _ in 0..40 {
        let board = some_board(&mut rng);
        let start = Piece::spawn(&board, PieceType::O);
        if !board.piece_fits(start) {
            continue;
        }
        let found = Moves::moves(&board, start);
        // Every state that any inputs lead to, the turns among them.
        let mut seen: BTreeSet<State> = BTreeSet::new();
        let mut queue = VecDeque::new();
        seen.insert(state_of(&start));
        queue.push_back(start);
        let mut resting: BTreeSet<[(i32, i32); 4]> = BTreeSet::new();
        while let Some(from) = queue.pop_front() {
            let mut below = from;
            if !below.soft_drop(&board) {
                resting.insert(cells_of(&from));
            }
            for input in 0..5 {
                let mut to = from;
                let moved = match input {
                    0 => to.turn_left(&board),
                    1 => to.turn_right(&board),
                    2 => to.move_left(&board),
                    3 => to.move_right(&board),
                    _ => to.sonic_drop(&board),
                };
                if moved && seen.insert(state_of(&to)) {
                    queue.push_back(to);
                }
            }
        }
        let reported: BTreeSet<[(i32, i32); 4]> =
            found.positions().iter().map(|(p, _)| cells_of(p)).collect();
        assert_eq!(reported, resting);
    }
}
