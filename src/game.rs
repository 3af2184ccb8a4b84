//! The game state: board, queue, active piece and held piece.
use vstd::prelude::*;
use crate::board::{Board, BoardModel, MAX_DIM, empty_row};
use crate::piece::{Placement, NUM_PIECES};
use crate::queue::{Queue, QueueModel, LCG_M, stream};

verus! {

pub struct Game {
    pub board: Board,
    pub queue: Queue,
    pub active: Placement,
    pub hold: Option<usize>,
}

/// Where a new piece of `piece_type` appears on a board of the given size.
pub open spec fn spawn(piece_type: usize, height: usize, width: usize) -> Placement {
    Placement {
        piece_type,
        rotation_state: 0,
        row: (height - 3) as i8,
        col: (width / 2 - 1) as i8,
    }
}

/// What a game holds, as mathematical values.
pub struct GameModel {
    pub board: BoardModel,
    pub queue: QueueModel,
    pub active: Placement,
    pub hold: Option<usize>,
}

impl View for Game {
    type V = GameModel;

    open spec fn view(&self) -> GameModel {
        GameModel { board: self.board@, queue: self.queue@, active: self.active, hold: self.hold }
    }
}

impl GameModel {
    pub open spec fn wf(self) -> bool {
        &&& self.board.wf()
        &&& self.queue.wf()
        &&& self.active.wf()
        &&& (self.hold matches Some(t) ==> t < NUM_PIECES)
    }

    /// The same board, active piece and held piece, with the same pieces still to come.
    pub open spec fn same_state(self, o: GameModel) -> bool {
        &&& self.board == o.board
        &&& self.active == o.active
        &&& self.hold == o.hold
        &&& self.queue.same_upcoming(o.queue)
    }

    /// The piece type that holding would make active: the held type, or else the next piece.
    pub open spec fn hold_incoming(self) -> usize {
        match self.hold {
            Some(t) => t,
            None => self.queue.upcoming(0),
        }
    }

    /// A new piece of `piece_type` where it appears on this board.
    pub open spec fn spawned(self, piece_type: usize) -> Placement {
        spawn(piece_type, self.board.height as usize, self.board.width as usize)
    }
}

impl Game {
    pub open spec fn wf(&self) -> bool {
        &&& self.board.wf()
        &&& self@.wf()
    }

    /// A game on an empty board whose first piece is the first one drawn from `seed`.
    pub fn new(height: usize, width: usize, seed: usize) -> (r: Self)
        requires
            height <= MAX_DIM,
            width <= MAX_DIM,
        ensures
            r.wf(),
            r.board.width == width,
            r.board.height == height,
            r.board.grid() == Seq::new(height as nat, |i: int| empty_row(width as int)),
            r.active == spawn(stream(seed as int % LCG_M as int, 0), height, width),
            r.hold.is_none(),
            forall|i: nat| #[trigger] r.queue@.upcoming(i) == stream(seed as int % LCG_M as int, i + 1),
    {
        let mut queue = Queue::new(seed);
        proof {
            queue.lemma_upcoming_bounded(0);
        }
        let board = Board::new(width, height);
        proof {
            board.lemma_wf_model();
        }
        let first = queue.next();
        let active = new_piece(first, height, width);
        Self { board, queue, active, hold: None }
    }

    /// A new piece of `piece_type` at its spawn position on this board.
    pub fn new_piece(&self, piece_type: usize) -> (r: Placement)
        requires
            self.board.wf(),
        ensures
            r == self@.spawned(piece_type),
    {
        new_piece(piece_type, self.board.height, self.board.width)
    }
}

/// The spawn row and column for a board of the given size.
fn default_piece_spawn(height: usize, width: usize) -> (r: (i8, i8))
    requires
        height <= MAX_DIM,
        width <= MAX_DIM,
    ensures
        r.0 == height - 3,
        r.1 == width / 2 - 1,
{
    (height as i8 - 3, width as i8 / 2 - 1)
}

/// A new piece of `piece_type` in rotation state 0 at the spawn position.
pub fn new_piece(piece_type: usize, height: usize, width: usize) -> (r: Placement)
    requires
        height <= MAX_DIM,
        width <= MAX_DIM,
    ensures
        r == spawn(piece_type, height, width),
{
    let (row, col) = default_piece_spawn(height, width);
    Placement::new(piece_type, 0, row, col)
}

} // verus!
