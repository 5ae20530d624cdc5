use std::collections::VecDeque;
use vstd::prelude::*;
use crate::board::Board;
use crate::bot::{child_of, is_best, pieces_used, Bot, BotSettings, Exploration};
use crate::evaluator::Evaluator;
use crate::geometry::PieceType;
use crate::pathfinder::{
    apply_move, law_reachable_found, lemma_entry_reachable, path_allowed, reachable, replay, Moves,
    PathfinderMove,
};
use crate::piece::Piece;

verus! {

/// What a caller can ask of a search worker.
pub enum BotCommand {
    /// One more piece has come into the queue.
    NewPiece(PieceType),
    /// Start over from this board with these pieces to come.
    Reset(Board, Vec<PieceType>),
    /// Start to think.
    BeginThinking,
    /// Stop thinking and hand over the best move.
    NextMove,
}

/// The move that a search worker hands over.
pub struct BotMove {
    /// Where the piece is to be locked.
    pub mv: Piece,
    /// Whether the placement begins with a hold.
    pub uses_hold: bool,
    /// The inputs that lead the piece from its spawn to `mv`, a drop at
    /// their end left out.
    pub path: VecDeque<PathfinderMove>,
    /// How many passes of the search were made for this move.
    pub thinks: u32,
    /// How long the search thought, in the unit of the caller's clock.
    pub think_time: u64,
}

/// A search with what its worker has to remember between commands:
/// whether it is thinking, how many passes it made since the last move,
/// and when it began to think.
pub struct Worker<E, X> {
    bot: Bot<E, X>,
    thinking: bool,
    thinks: u32,
    started: u64,
}

/// What a worker is, apart from how it is stored.
pub struct WorkerView<E, X> {
    pub bot: Bot<E, X>,
    pub thinking: bool,
    pub thinks: u32,
    pub started: u64,
}

impl<E, X> View for Worker<E, X> {
    type V = WorkerView<E, X>;

    closed spec fn view(&self) -> WorkerView<E, X> {
        WorkerView {
            bot: self.bot,
            thinking: self.thinking,
            thinks: self.thinks,
            started: self.started,
        }
    }
}

/// The time from `started` to `now`, and zero where `now` is the earlier.
pub open spec fn elapsed(now: u64, started: u64) -> u64 {
    if now >= started {
        (now - started) as u64
    } else {
        0
    }
}

/// `n` and one more, held at `u32::MAX`.
pub open spec fn one_more(n: u32) -> u32 {
    if n == u32::MAX {
        n
    } else {
        (n + 1) as u32
    }
}

/// What `handle` does with a command that came in at the time `now`:
/// `after` is the worker that `before` became, and `reply` what is to be
/// sent back.
pub open spec fn handled<E, X>(
    before: WorkerView<E, X>,
    command: BotCommand,
    now: u64,
    after: WorkerView<E, X>,
    reply: Option<Option<BotMove>>,
) -> bool {
    let queue = before.bot@.data.queue@;
    let root = before.bot@.root;
    match command {
        BotCommand::BeginThinking => {
            &&& reply.is_none()
            &&& after.thinking
            &&& after.started == now
            &&& after.thinks == before.thinks
            &&& after.bot == before.bot
        },
        BotCommand::NewPiece(piece) => {
            &&& reply.is_none()
            &&& after.thinking == before.thinking
            &&& after.started == before.started
            &&& after.thinks == before.thinks
            &&& after.bot@.root == root
            &&& after.bot@.data.queue@ == if queue.len() < u32::MAX {
                queue.push(piece)
            } else {
                queue
            }
        },
        BotCommand::Reset(board, pieces) => {
            &&& reply.is_none()
            &&& after.thinking == before.thinking
            &&& after.started == before.started
            &&& after.thinks == before.thinks
            &&& if pieces@.len() <= u32::MAX {
                &&& after.bot@.root.board == board
                &&& after.bot@.root.children@.len() == 0
                &&& !after.bot@.root.finished
                &&& after.bot@.data.queue == pieces
            } else {
                after.bot == before.bot
            }
        },
        BotCommand::NextMove => {
            &&& !after.thinking
            &&& after.thinks == 0
            &&& after.started == before.started
            &&& reply.is_some()
            &&& root.children@.len() == 0 ==> reply == Some(None::<BotMove>) && after.bot@.root
                == root && after.bot@.data.queue@ == queue
            &&& root.children@.len() > 0 ==> {
                &&& reply.unwrap().is_some()
                &&& reply.unwrap().unwrap().thinks == before.thinks
                &&& reply.unwrap().unwrap().think_time == elapsed(now, before.started)
                &&& reply.unwrap().unwrap().mv == after.bot@.root.mv
                &&& reply.unwrap().unwrap().uses_hold == after.bot@.root.uses_hold
                &&& is_way_to(root.board.grid(), after.bot@.root.mv, reply.unwrap().unwrap().path@)
                &&& exists|i: int|
                    {
                        let took = #[trigger] root.children@[i];
                        let used = pieces_used(root.board, took);
                        &&& is_best(root.children@, i)
                        &&& took.advanced_to(after.bot@.root, used)
                        &&& after.bot@.data.queue@ == queue.skip(used)
                    }
            }
        },
    }
}

impl<E: Evaluator, X: Exploration> Worker<E, X> {
    /// What holds of a worker between calls: its search is in order.
    pub open spec fn wf(&self) -> bool {
        self@.bot.wf()
    }

    /// A worker with a new search from `board`, not thinking.
    pub fn new(board: Board, evaluator: E, settings: BotSettings<X>) -> (worker: Self)
        ensures
            worker.wf(),
            !worker@.thinking,
            worker@.thinks == 0,
            worker@.bot@.root.board == board,
            worker@.bot@.data.queue@.len() == 0,
    {
        Worker { bot: Bot::new(board, evaluator, settings), thinking: false, thinks: 0, started: 0 }
    }

    /// Whether the worker is thinking. A worker that thinks makes one pass
    /// after the other and looks for a command between them without
    /// waiting; one that does not waits for its next command.
    pub fn is_thinking(&self) -> (thinking: bool)
        ensures
            thinking == self@.thinking,
    {
        self.thinking
    }

    /// The worker's search.
    pub fn bot(&self) -> (bot: &Bot<E, X>)
        ensures
            *bot == self@.bot,
    {
        &self.bot
    }

    /// One pass of the search. The worker goes on thinking unless nothing
    /// is left to explore.
    pub fn think(&mut self)
        requires
            old(self).wf(),
        ensures
            final(self).wf(),
            final(self)@.thinking == !final(self)@.bot@.root.finished,
            final(self)@.thinks == one_more(old(self)@.thinks),
            final(self)@.started == old(self)@.started,
            final(self)@.bot@.data == old(self)@.bot@.data,
            exists|out: ((i32, i32), u32)| #[trigger]
                old(self)@.bot@.root.passed(
                    final(self)@.bot@.root,
                    out,
                    old(self)@.bot@.data.queue@,
                    old(self)@.bot@.data.settings.use_hold,
                ),
    {
        let finished = self.bot.think();
        self.thinking = !finished;
        if self.thinks < u32::MAX {
            self.thinks = self.thinks + 1;
        }
    }

    /// Carries out one command that came in at the time `now`.
    ///
    /// - `BeginThinking`: the worker thinks from now on, and `now` is when
    ///   it began.
    /// - `NewPiece`: the piece is appended to the queue, unless the queue
    ///   is full.
    /// - `Reset`: the search starts over from the board and the queue of
    ///   the command, unless that queue is longer than a queue can be.
    /// - `NextMove`: the worker stops thinking, the search takes its best
    ///   move, and the count of passes starts again at zero.
    ///
    /// Returns what is to be sent back: nothing for the first three, and
    /// for `NextMove` the move that was taken, or `None` where the search
    /// had none.
    pub fn handle(&mut self, command: BotCommand, now: u64) -> (reply: Option<Option<BotMove>>)
        requires
            old(self).wf(),
        ensures
            final(self).wf(),
            handled(old(self)@, command, now, final(self)@, reply),
    {
        match command {
            BotCommand::BeginThinking => {
                self.started = now;
                self.thinking = true;
                None
            },
            BotCommand::NewPiece(piece) => {
                if self.bot.data().queue.len() < u32::MAX as usize {
                    self.bot.update_queue(piece);
                }
                None
            },
            BotCommand::Reset(board, queue) => {
                if queue.len() <= u32::MAX as usize {
                    self.bot.reset(board, queue);
                }
                None
            },
            BotCommand::NextMove => {
                self.thinking = false;
                let board = self.bot.root().board.clone();
                let thinks = self.thinks;
                let think_time = if now >= self.started {
                    now - self.started
                } else {
                    0
                };
                self.thinks = 0;
                let reply = match self.bot.next_move() {
                    Some(node) => {
                        let path = way_to(&board, node.mv);
                        Some(
                            BotMove {
                                mv: node.mv,
                                uses_hold: node.uses_hold,
                                path,
                                thinks,
                                think_time,
                            },
                        )
                    },
                    None => None,
                };
                Some(reply)
            },
        }
    }
}

/// Whether `path` is the way that is handed over for the placement `mv` on
/// the grid `g`. Where the piece fits at its spawn and inputs can lead it
/// from there to `mv`, these are inputs that lead it to `mv`, or to a
/// place from which it drops to `mv`, and the last of them is no drop.
/// Else there is no input.
pub open spec fn is_way_to(g: Seq<u16>, mv: Piece, path: Seq<PathfinderMove>) -> bool {
    let start = Piece::spec_spawn(g, mv.kind);
    if start.fits(g) && reachable(g, start, mv) {
        &&& path_allowed(mv.kind, path)
        &&& path.len() > 0 ==> path.last() != PathfinderMove::SonicDrop
        &&& (replay(g, start, path) == mv || apply_move(
            g,
            replay(g, start, path),
            PathfinderMove::SonicDrop,
        ) == mv)
    } else {
        path.len() == 0
    }
}

/// The inputs that lead a piece of the kind of `mv` from its spawn on
/// `board` to `mv`, a drop at their end left out; no input where the piece
/// cannot get there.
pub fn way_to(board: &Board, mv: Piece) -> (path: VecDeque<PathfinderMove>)
    ensures
        is_way_to(board.grid(), mv, path@),
{
    let ghost g = board.grid();
    let piece = Piece::spawn(board, mv.kind);
    let found = Moves::moves(board, piece);
    proof {
        if piece.fits(g) {
            if found@.visited(mv) {
                lemma_entry_reachable(found@.table, g, piece, mv);
            }
            if reachable(g, piece, mv) {
                let way = choose|way: Seq<PathfinderMove>|
                    path_allowed(piece.kind, way) && #[trigger] replay(g, piece, way) == mv;
                law_reachable_found(found@, way);
            }
        }
    }
    if found.contains(mv) {
        found.path(mv)
    } else {
        VecDeque::new()
    }
}

/// The way that a worker hands over with a move leads to the move: on the
/// board that the search stood on, the inputs take the piece from its spawn
/// to the place where it is to be locked, or to a place from which it
/// drops there.
pub proof fn law_way_leads<E: Evaluator, X: Exploration>(
    before: WorkerView<E, X>,
    now: u64,
    after: WorkerView<E, X>,
    reply: Option<Option<BotMove>>,
)
    requires
        before.bot.wf(),
        before.bot@.root.children@.len() > 0,
        handled(before, BotCommand::NextMove, now, after, reply),
    ensures
        ({
            let taken = reply.unwrap().unwrap();
            let g = before.bot@.root.board.grid();
            let end = replay(g, Piece::spec_spawn(g, taken.mv.kind), taken.path@);
            end == taken.mv || apply_move(g, end, PathfinderMove::SonicDrop) == taken.mv
        }),
{
    let root = before.bot@.root;
    let queue = before.bot@.data.queue@;
    let i = choose|i: int|
        {
            let took = #[trigger] root.children@[i];
            let used = pieces_used(root.board, took);
            &&& is_best(root.children@, i)
            &&& took.advanced_to(after.bot@.root, used)
            &&& after.bot@.data.queue@ == queue.skip(used)
        };
    let took = root.children@[i];
    assert(child_of(root.board, 0, queue, took));
    let g = root.board.grid();
    let start = Piece::spec_spawn(g, took.mv.kind);
    let way = choose|way: Seq<PathfinderMove>|
        path_allowed(start.kind, way) && #[trigger] replay(g, start, way) == took.mv
            && crate::pathfinder::adjusted_cost(g, start, way) == took.move_dist;
    assert(reachable(g, start, took.mv));
}

} // verus!
