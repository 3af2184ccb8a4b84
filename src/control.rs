//! Reversible commands: each one records what it needs to undo itself.
use vstd::prelude::*;
use crate::board::{BoardModel, empty_row};
use crate::game::{Game, GameModel};
use crate::piece::{Placement, Point, NUM_PIECES};
use crate::reversal::lemma_cleared_rows;

verus! {

/// Moves the active piece by `(dy, dx)` if it fits there.
#[derive(Clone, Copy, Debug)]
pub struct PieceMove {
    pub moved: bool,
    pub dy: i8,
    pub dx: i8,
}

/// Turns the active piece by `direction` quarter turns, trying the kick candidates in order.
#[derive(Clone, Copy, Debug)]
pub struct PieceRotate {
    pub direction: usize,
    pub before: Placement,
}

/// Lets the active piece fall as far as it fits.
#[derive(Clone, Copy, Debug)]
pub struct SoftDrop {
    pub distance: i8,
}

/// Writes the active piece's cells into the board.
#[derive(Clone, Copy, Debug)]
pub struct SetPiece {
    pub locations: [Point; 4],
    pub row: i8,
    pub col: i8,
}

/// Draws the next piece from the queue and makes it the active piece.
#[derive(Clone, Copy, Debug)]
pub struct NextPiece {
    pub cur_piece: Placement,
    pub next_piece: usize,
}

/// Sets the active piece's type aside, taking the held type or the next piece.
#[derive(Clone, Copy, Debug)]
pub struct Hold {
    pub first: bool,
    pub before: usize,
    pub after: usize,
}

/// Removes every full row, recording each removal for undo.
#[derive(Clone, Debug)]
pub struct ClearLines {
    pub line_indices: Vec<(usize, Vec<bool>)>,
}

/// Commands run in order and undone in reverse order.
pub struct Batch {
    pub commands: Vec<Command>,
}

/// Drop, lock, clear full rows and take the next piece, as one command.
pub struct HardDrop {
    pub batch: Batch,
}

/// A command sequence together with the placement it leads to.
pub struct PlacementActions {
    pub batch: Batch,
    pub placement: Placement,
}

pub enum Command {
    PieceRotate(PieceRotate),
    PieceMove(PieceMove),
    SoftDrop(SoftDrop),
    SetPiece(SetPiece),
    NextPiece(NextPiece),
    Hold(Hold),
    ClearLines(ClearLines),
    Batch(Batch),
    HardDrop(HardDrop),
    PlacementActions(PlacementActions),
}

/// `g` with cell `(r, c)` set to `v`.
pub open spec fn grid_set(g: Seq<Seq<bool>>, r: int, c: int, v: bool) -> Seq<Seq<bool>> {
    g.update(r, g[r].update(c, v))
}

/// `b` with the four cells `cells` set to `v`.
pub open spec fn marked(b: BoardModel, cells: Seq<(int, int)>, v: bool) -> BoardModel {
    let g0 = grid_set(b.grid, cells[0].0, cells[0].1, v);
    let g1 = grid_set(g0, cells[1].0, cells[1].1, v);
    let g2 = grid_set(g1, cells[2].0, cells[2].1, v);
    let g3 = grid_set(g2, cells[3].0, cells[3].1, v);
    BoardModel { grid: g3, ..b }
}

/// The four absolute cells of `p`.
pub open spec fn cells_of(p: Placement) -> Seq<(int, int)> {
    seq![p.cell(0), p.cell(1), p.cell(2), p.cell(3)]
}

/// All `w` cells of `row` are occupied.
pub open spec fn full(row: Seq<bool>, w: int) -> bool {
    forall|c: int| 0 <= c < w ==> #[trigger] row[c]
}

/// The bottom-up scan of the first `n` starting rows: the grid so far, the
/// removals so far (index at removal and the row's cells), and the index of
/// the next row to look at.
pub open spec fn scan(g: Seq<Seq<bool>>, w: int, n: nat) -> (Seq<Seq<bool>>, Seq<(int, Seq<bool>)>, int)
    decreases n,
{
    if n == 0 {
        (g, seq![], 0)
    } else {
        let prev = scan(g, w, (n - 1) as nat);
        let (g1, recs, pos) = prev;
        if full(g1[pos], w) {
            (g1.remove(pos).push(empty_row(w)), recs.push((pos, g1[pos])), pos)
        } else {
            (g1, recs, pos + 1)
        }
    }
}

/// The rows among the first `n` of `g` that are not full, in order.
pub open spec fn kept_rows(g: Seq<Seq<bool>>, w: int, n: nat) -> Seq<Seq<bool>>
    decreases n,
{
    if n == 0 {
        seq![]
    } else if full(g[n - 1], w) {
        kept_rows(g, w, (n - 1) as nat)
    } else {
        kept_rows(g, w, (n - 1) as nat).push(g[n - 1])
    }
}

/// `k` empty rows of width `w`.
pub open spec fn empty_rows(k: int, w: int) -> Seq<Seq<bool>> {
    Seq::new(k as nat, |i: int| empty_row(w))
}

/// Puts removed rows back, the last removal first: each time the top row goes
/// and the removed row returns to its index.
pub open spec fn unscan(g: Seq<Seq<bool>>, recs: Seq<(int, Seq<bool>)>) -> Seq<Seq<bool>>
    decreases recs.len(),
{
    if recs.len() == 0 {
        g
    } else {
        let (i, row) = recs.last();
        unscan(g.drop_last().insert(i, row), recs.drop_last())
    }
}

/// Each step of `unscan` has a top row to take away, an index in range and a row of width `w`.
pub open spec fn unscan_ok(g: Seq<Seq<bool>>, recs: Seq<(int, Seq<bool>)>, w: int) -> bool
    decreases recs.len(),
{
    if recs.len() == 0 {
        true
    } else {
        let (i, row) = recs.last();
        &&& g.len() > 0
        &&& 0 <= i < g.len()
        &&& row.len() == w
        &&& unscan_ok(g.drop_last().insert(i, row), recs.drop_last(), w)
    }
}

impl GameModel {
    pub open spec fn with_active(self, p: Placement) -> GameModel {
        GameModel { active: p, ..self }
    }
}

/// The active piece's cells written into the board.
pub open spec fn locked(m: GameModel) -> GameModel {
    GameModel { board: marked(m.board, cells_of(m.active), true), ..m }
}

/// Every full row removed, the rows above moving down, empty rows added on top.
pub open spec fn cleared(m: GameModel) -> GameModel {
    GameModel {
        board: BoardModel { grid: scan(m.board.grid, m.board.width, m.board.height as nat).0, ..m.board },
        ..m
    }
}

/// The next piece from the queue made active at its spawn position.
pub open spec fn advanced(m: GameModel) -> GameModel {
    GameModel { queue: m.queue.after_next(), active: m.spawned(m.queue.upcoming(0)), ..m }
}

/// The active piece's type held; the held type, or else the next piece, made active.
pub open spec fn held(m: GameModel) -> GameModel {
    match m.hold {
        None => GameModel { hold: Some(m.active.piece_type), ..advanced(m) },
        Some(t) => GameModel { active: m.spawned(t), hold: Some(m.active.piece_type), ..m },
    }
}

/// A hard drop: drop, lock, clear full rows, take the next piece.
pub open spec fn hard_dropped(m: GameModel) -> GameModel {
    advanced(cleared(locked(m.with_active(m.board.dropped(m.active)))))
}

impl ClearLines {
    pub open spec fn recs(self) -> Seq<(int, Seq<bool>)> {
        self.line_indices@.map_values(|e: (usize, Vec<bool>)| (e.0 as int, e.1@))
    }
}

impl SetPiece {
    /// The four absolute cells that were written.
    pub open spec fn cells(self) -> Seq<(int, int)> {
        seq![
            (self.row + self.locations[0].0, self.col + self.locations[0].1),
            (self.row + self.locations[1].0, self.col + self.locations[1].1),
            (self.row + self.locations[2].0, self.col + self.locations[2].1),
            (self.row + self.locations[3].0, self.col + self.locations[3].1),
        ]
    }
}

impl Command {
    /// The game after executing this command from `m`.
    pub open spec fn exec_game(self, m: GameModel) -> GameModel
        decreases self, 0int,
    {
        match self {
            Command::PieceMove(c) => match m.board.moved(m.active, c.dy as int, c.dx as int) {
                Some(p) => m.with_active(p),
                None => m,
            },
            Command::PieceRotate(c) => match m.board.rotated(m.active, c.direction as int) {
                Some(p) => m.with_active(p),
                None => m,
            },
            Command::SoftDrop(c) => m.with_active(m.board.dropped(m.active)),
            Command::SetPiece(c) => locked(m),
            Command::NextPiece(c) => advanced(m),
            Command::Hold(c) => held(m),
            Command::ClearLines(c) => cleared(m),
            Command::Batch(b) => exec_seq(b.commands@, m),
            Command::HardDrop(h) => exec_seq(h.batch.commands@, m),
            Command::PlacementActions(a) => exec_seq(a.batch.commands@, m),
        }
    }
}

impl Command {
    /// What executing this command from `m` reports: false only for a move or turn that does not fit.
    pub open spec fn exec_ok(self, m: GameModel) -> bool {
        match self {
            Command::PieceMove(c) => m.board.fits_at(m.active, c.dy as int, c.dx as int),
            Command::PieceRotate(c) => m.board.rotated(m.active, c.direction as int).is_some(),
            _ => true,
        }
    }

    /// `after` is this command as executing it from `m` leaves it: holding what undo needs.
    pub open spec fn recorded(self, m: GameModel, after: Command) -> bool
        decreases self, 0int,
    {
        match self {
            Command::PieceMove(c) => match after {
                Command::PieceMove(a) => a.moved == m.board.fits_at(m.active, c.dy as int, c.dx as int)
                    && a.dy == c.dy && a.dx == c.dx,
                _ => false,
            },
            Command::PieceRotate(c) => match after {
                Command::PieceRotate(a) => a.direction == c.direction && a.before == m.active,
                _ => false,
            },
            Command::SoftDrop(c) => match after {
                Command::SoftDrop(a) => a.distance == m.board.drop_distance(m.active, 0),
                _ => false,
            },
            Command::SetPiece(c) => match after {
                Command::SetPiece(a) => a.cells() == cells_of(m.active),
                _ => false,
            },
            Command::NextPiece(c) => match after {
                Command::NextPiece(a) => a.cur_piece == m.active && a.next_piece == m.queue.upcoming(0),
                _ => false,
            },
            Command::Hold(c) => match after {
                Command::Hold(a) => a.first == m.hold.is_none() && a.before == m.active.piece_type
                    && a.after == self.exec_game(m).active.piece_type,
                _ => false,
            },
            Command::ClearLines(c) => match after {
                Command::ClearLines(a) => a.recs() == scan(m.board.grid, m.board.width, m.board.height as nat).1,
                _ => false,
            },
            Command::Batch(b) => match after {
                Command::Batch(a) => recorded_seq(b.commands@, m, a.commands@),
                _ => false,
            },
            Command::HardDrop(h) => match after {
                Command::HardDrop(a) => recorded_seq(h.batch.commands@, m, a.batch.commands@),
                _ => false,
            },
            Command::PlacementActions(p) => match after {
                Command::PlacementActions(a) => recorded_seq(p.batch.commands@, m, a.batch.commands@)
                    && a.placement == p.placement,
                _ => false,
            },
        }
    }

    /// The game after undoing this (executed) command from `m`.
    pub open spec fn undo_game(self, m: GameModel) -> GameModel
        decreases self, 0int,
    {
        match self {
            Command::PieceMove(c) => if c.moved {
                m.with_active(m.active.shifted(-c.dy, -c.dx))
            } else {
                m
            },
            Command::PieceRotate(c) => m.with_active(c.before),
            Command::SoftDrop(c) => m.with_active(m.active.shifted(c.distance as int, 0)),
            Command::SetPiece(c) => GameModel { board: marked(m.board, c.cells(), false), ..m },
            Command::NextPiece(c) => GameModel { queue: m.queue.pushed(c.next_piece), active: c.cur_piece, ..m },
            Command::Hold(c) => if c.first {
                GameModel { queue: m.queue.pushed(c.after), active: m.spawned(c.before), hold: None, ..m }
            } else {
                GameModel { active: m.spawned(c.before), hold: Some(c.after), ..m }
            },
            Command::ClearLines(c) => GameModel {
                board: BoardModel { grid: unscan(m.board.grid, c.recs()), ..m.board },
                ..m
            },
            Command::Batch(b) => undo_seq(b.commands@, m),
            Command::HardDrop(h) => undo_seq(h.batch.commands@, m),
            Command::PlacementActions(a) => undo_seq(a.batch.commands@, m),
        }
    }

    /// Executing from `m` is defined: a turn has a direction of 1 to 3 and a
    /// piece is locked only where all its cells lie on the board.
    pub open spec fn can_execute(self, m: GameModel) -> bool
        decreases self, 0int,
    {
        match self {
            Command::PieceRotate(c) => 1 <= c.direction <= 3,
            Command::SetPiece(c) => m.board.in_bounds_at(m.active, 0, 0),
            Command::Batch(b) => can_execute_seq(b.commands@, m),
            Command::HardDrop(h) => can_execute_seq(h.batch.commands@, m),
            Command::PlacementActions(a) => can_execute_seq(a.batch.commands@, m),
            _ => true,
        }
    }

    /// Undoing from `m` is defined: what was recorded fits the game.
    pub open spec fn can_undo(self, m: GameModel) -> bool
        decreases self, 0int,
    {
        match self {
            Command::PieceMove(c) => c.moved ==> {
                &&& i8::MIN < c.dy && i8::MIN < c.dx
                &&& i8::MIN <= m.active.row - c.dy <= i8::MAX
                &&& i8::MIN <= m.active.col - c.dx <= i8::MAX
            },
            Command::PieceRotate(c) => c.before.wf(),
            Command::SoftDrop(c) => i8::MIN <= m.active.row + c.distance <= i8::MAX,
            Command::SetPiece(c) => {
                &&& m.board.inside(c.cells()[0].0, c.cells()[0].1)
                &&& m.board.inside(c.cells()[1].0, c.cells()[1].1)
                &&& m.board.inside(c.cells()[2].0, c.cells()[2].1)
                &&& m.board.inside(c.cells()[3].0, c.cells()[3].1)
            },
            Command::NextPiece(c) => c.next_piece < NUM_PIECES && c.cur_piece.wf(),
            Command::Hold(c) => c.before < NUM_PIECES && c.after < NUM_PIECES,
            Command::ClearLines(c) => unscan_ok(m.board.grid, c.recs(), m.board.width),
            Command::Batch(b) => can_undo_seq(b.commands@, m),
            Command::HardDrop(h) => can_undo_seq(h.batch.commands@, m),
            Command::PlacementActions(a) => can_undo_seq(a.batch.commands@, m),
        }
    }

    /// Undo brings `m` back: a locked piece covered only empty cells, and a
    /// hold started from the spawn position (undo respawns the piece).
    pub open spec fn reversible(self, m: GameModel) -> bool
        decreases self, 0int,
    {
        match self {
            Command::SetPiece(c) => !m.board.collides_at(m.active, 0, 0),
            Command::Hold(c) => m.active == m.spawned(m.active.piece_type),
            Command::Batch(b) => reversible_seq(b.commands@, m),
            Command::HardDrop(h) => reversible_seq(h.batch.commands@, m),
            Command::PlacementActions(a) => reversible_seq(a.batch.commands@, m),
            _ => true,
        }
    }
}

pub open spec fn recorded_seq(cs: Seq<Command>, m: GameModel, ds: Seq<Command>) -> bool
    decreases cs, 1int,
{
    &&& cs.len() == ds.len()
    &&& cs.len() > 0 ==> {
        &&& recorded_seq(cs.drop_last(), m, ds.drop_last())
        &&& cs.last().recorded(exec_seq(cs.drop_last(), m), ds.last())
    }
}

/// The game after undoing `cs`, the last command first, from `m`.
pub open spec fn undo_seq(cs: Seq<Command>, m: GameModel) -> GameModel
    decreases cs, 1int,
{
    if cs.len() == 0 {
        m
    } else {
        undo_seq(cs.drop_last(), cs.last().undo_game(m))
    }
}

pub open spec fn can_execute_seq(cs: Seq<Command>, m: GameModel) -> bool
    decreases cs, 1int,
{
    cs.len() > 0 ==> {
        &&& can_execute_seq(cs.drop_last(), m)
        &&& cs.last().can_execute(exec_seq(cs.drop_last(), m))
    }
}

pub open spec fn can_undo_seq(cs: Seq<Command>, m: GameModel) -> bool
    decreases cs, 1int,
{
    cs.len() > 0 ==> {
        &&& cs.last().can_undo(m)
        &&& can_undo_seq(cs.drop_last(), cs.last().undo_game(m))
    }
}

pub open spec fn reversible_seq(cs: Seq<Command>, m: GameModel) -> bool
    decreases cs, 1int,
{
    cs.len() > 0 ==> {
        &&& reversible_seq(cs.drop_last(), m)
        &&& cs.last().reversible(exec_seq(cs.drop_last(), m))
    }
}

/// The game after executing `cs` in order from `m`.
pub open spec fn exec_seq(cs: Seq<Command>, m: GameModel) -> GameModel
    decreases cs, 1int,
{
    if cs.len() == 0 {
        m
    } else {
        cs.last().exec_game(exec_seq(cs.drop_last(), m))
    }
}


impl PieceMove {
    pub fn new(dy: i8, dx: i8) -> (r: Self)
        ensures
            r == (PieceMove { moved: false, dy, dx }),
    {
        Self { moved: false, dy, dx }
    }

    pub fn execute(&mut self, game: &mut Game) -> (r: bool)
        requires
            old(game).wf(),
        ensures
            final(game).wf(),
            final(game)@ == Command::PieceMove(*old(self)).exec_game(old(game)@),
            r == Command::PieceMove(*old(self)).exec_ok(old(game)@),
            Command::PieceMove(*old(self)).recorded(old(game)@, Command::PieceMove(*final(self))),
    {
        let mut p = game.active;
        self.moved = game.board.try_move(&mut p, self.dy, self.dx);
        game.active = p;
        self.moved
    }

    pub fn undo(&mut self, game: &mut Game)
        requires
            old(game).wf(),
            Command::PieceMove(*old(self)).can_undo(old(game)@),
        ensures
            final(game).wf(),
            final(game)@ == Command::PieceMove(*old(self)).undo_game(old(game)@),
            *final(self) == *old(self),
    {
        if self.moved {
            game.active.shift(-self.dy, -self.dx);
        }
    }
}

impl PieceRotate {
    pub fn new(direction: usize) -> (r: Self)
        ensures
            r == (PieceRotate { direction, before: Placement { piece_type: 0, rotation_state: 0, row: 0, col: 0 } }),
    {
        Self { direction, before: Placement::new(0, 0, 0, 0) }
    }

    pub fn execute(&mut self, game: &mut Game) -> (r: bool)
        requires
            old(game).wf(),
            1 <= old(self).direction <= 3,
        ensures
            final(game).wf(),
            final(game)@ == Command::PieceRotate(*old(self)).exec_game(old(game)@),
            r == Command::PieceRotate(*old(self)).exec_ok(old(game)@),
            Command::PieceRotate(*old(self)).recorded(old(game)@, Command::PieceRotate(*final(self))),
    {
        self.before = game.active;
        let mut p = game.active;
        let ok = game.board.try_rotate(&mut p, self.direction);
        game.active = p;
        ok
    }

    pub fn undo(&mut self, game: &mut Game)
        requires
            old(game).wf(),
            Command::PieceRotate(*old(self)).can_undo(old(game)@),
        ensures
            final(game).wf(),
            final(game)@ == Command::PieceRotate(*old(self)).undo_game(old(game)@),
            *final(self) == *old(self),
    {
        game.active = self.before;
    }
}

impl SoftDrop {
    pub fn new() -> (r: Self)
        ensures
            r == (SoftDrop { distance: 0 }),
    {
        Self { distance: 0 }
    }

    pub fn execute(&mut self, game: &mut Game) -> (r: bool)
        requires
            old(game).wf(),
        ensures
            final(game).wf(),
            final(game)@ == Command::SoftDrop(*old(self)).exec_game(old(game)@),
            r,
            Command::SoftDrop(*old(self)).recorded(old(game)@, Command::SoftDrop(*final(self))),
    {
        let mut p = game.active;
        self.distance = game.board.drop_piece(&mut p);
        game.active = p;
        true
    }

    pub fn undo(&mut self, game: &mut Game)
        requires
            old(game).wf(),
            Command::SoftDrop(*old(self)).can_undo(old(game)@),
        ensures
            final(game).wf(),
            final(game)@ == Command::SoftDrop(*old(self)).undo_game(old(game)@),
            *final(self) == *old(self),
    {
        game.active.shift(self.distance, 0);
    }
}

impl SetPiece {
    pub fn new() -> (r: Self)
        ensures
            r.row == 0 && r.col == 0,
    {
        Self { locations: [(0, 0), (0, 0), (0, 0), (0, 0)], row: 0, col: 0 }
    }

    fn cell_at(&self, k: usize) -> (r: (usize, usize))
        requires
            k < 4,
            0 <= self.row + self.locations[k as int].0,
            0 <= self.col + self.locations[k as int].1,
            self.row + self.locations[k as int].0 <= 200,
            self.col + self.locations[k as int].1 <= 200,
        ensures
            r.0 == self.row + self.locations[k as int].0,
            r.1 == self.col + self.locations[k as int].1,
    {
        (
            (self.row as i16 + self.locations[k].0 as i16) as usize,
            (self.col as i16 + self.locations[k].1 as i16) as usize,
        )
    }

    pub fn execute(&mut self, game: &mut Game) -> (r: bool)
        requires
            old(game).wf(),
            old(game)@.board.in_bounds_at(old(game).active, 0, 0),
        ensures
            final(game).wf(),
            final(game)@ == Command::SetPiece(*old(self)).exec_game(old(game)@),
            r,
            Command::SetPiece(*old(self)).recorded(old(game)@, Command::SetPiece(*final(self))),
    {
        self.locations = game.active.rel_locations();
        self.row = game.active.row;
        self.col = game.active.col;
        assert(self.cells() =~= cells_of(game.active));
        assert(game.board@.cell_inside(game.active, 0, 0, 0));
        assert(game.board@.cell_inside(game.active, 1, 0, 0));
        assert(game.board@.cell_inside(game.active, 2, 0, 0));
        assert(game.board@.cell_inside(game.active, 3, 0, 0));
        let (r0, c0) = self.cell_at(0);
        game.board.add(r0, c0);
        let (r1, c1) = self.cell_at(1);
        game.board.add(r1, c1);
        let (r2, c2) = self.cell_at(2);
        game.board.add(r2, c2);
        let (r3, c3) = self.cell_at(3);
        game.board.add(r3, c3);
        proof {
            game.board.lemma_wf_model();
        }
        true
    }

    pub fn undo(&mut self, game: &mut Game)
        requires
            old(game).wf(),
            Command::SetPiece(*old(self)).can_undo(old(game)@),
        ensures
            final(game).wf(),
            final(game)@ == Command::SetPiece(*old(self)).undo_game(old(game)@),
            *final(self) == *old(self),
    {
        let (r0, c0) = self.cell_at(0);
        game.board.remove(r0, c0);
        let (r1, c1) = self.cell_at(1);
        game.board.remove(r1, c1);
        let (r2, c2) = self.cell_at(2);
        game.board.remove(r2, c2);
        let (r3, c3) = self.cell_at(3);
        game.board.remove(r3, c3);
        proof {
            game.board.lemma_wf_model();
        }
    }
}

impl NextPiece {
    pub fn new() -> (r: Self)
        ensures
            r.next_piece == NUM_PIECES,
    {
        Self { cur_piece: Placement::new(0, 0, 0, 0), next_piece: NUM_PIECES }
    }

    pub fn execute(&mut self, game: &mut Game) -> (r: bool)
        requires
            old(game).wf(),
        ensures
            final(game).wf(),
            final(game)@ == Command::NextPiece(*old(self)).exec_game(old(game)@),
            r,
            Command::NextPiece(*old(self)).recorded(old(game)@, Command::NextPiece(*final(self))),
    {
        proof {
            game.queue.lemma_upcoming_bounded(0);
        }
        self.cur_piece = game.active;
        self.next_piece = game.queue.next();
        game.active = game.new_piece(self.next_piece);
        true
    }

    pub fn undo(&mut self, game: &mut Game)
        requires
            old(game).wf(),
            Command::NextPiece(*old(self)).can_undo(old(game)@),
        ensures
            final(game).wf(),
            final(game)@ == Command::NextPiece(*old(self)).undo_game(old(game)@),
            *final(self) == *old(self),
    {
        game.queue.push(self.next_piece);
        game.active = self.cur_piece;
    }
}

impl Hold {
    pub fn new() -> (r: Self)
        ensures
            !r.first,
    {
        Self { first: false, before: 0, after: 0 }
    }

    pub fn execute(&mut self, game: &mut Game) -> (r: bool)
        requires
            old(game).wf(),
        ensures
            final(game).wf(),
            final(game)@ == Command::Hold(*old(self)).exec_game(old(game)@),
            r,
            Command::Hold(*old(self)).recorded(old(game)@, Command::Hold(*final(self))),
    {
        self.before = game.active.piece_type;
        self.first = game.hold.is_none();
        match game.hold {
            None => {
                let mut next = NextPiece::new();
                next.execute(game);
            },
            Some(t) => {
                game.active = game.new_piece(t);
            },
        }
        self.after = game.active.piece_type;
        game.hold = Some(self.before);
        true
    }

    pub fn undo(&mut self, game: &mut Game)
        requires
            old(game).wf(),
            Command::Hold(*old(self)).can_undo(old(game)@),
        ensures
            final(game).wf(),
            final(game)@ == Command::Hold(*old(self)).undo_game(old(game)@),
            *final(self) == *old(self),
    {
        if self.first {
            game.hold = None;
            game.queue.push(self.after);
        } else {
            game.hold = Some(self.after);
        }
        game.active = game.new_piece(self.before);
    }
}

impl ClearLines {
    pub fn new() -> (r: Self)
        ensures
            r.line_indices@.len() == 0,
    {
        Self { line_indices: Vec::new() }
    }

    pub fn execute(&mut self, game: &mut Game) -> (r: bool)
        requires
            old(game).wf(),
        ensures
            final(game).wf(),
            final(game)@ == Command::ClearLines(*old(self)).exec_game(old(game)@),
            final(game)@.board.grid == kept_rows(old(game)@.board.grid, old(game)@.board.width, old(game)@.board.height as nat)
                + empty_rows(
                old(game)@.board.height - kept_rows(
                    old(game)@.board.grid,
                    old(game)@.board.width,
                    old(game)@.board.height as nat,
                ).len(),
                old(game)@.board.width,
            ),
            r,
            Command::ClearLines(*old(self)).recorded(old(game)@, Command::ClearLines(*final(self))),
    {
        proof {
            old(game).board.lemma_wf_model();
            lemma_cleared_rows(old(game)@);
        }
        self.line_indices = Vec::new();
        let ghost g0 = game.board@.grid;
        let ghost w = game.board@.width;
        let mut pos: usize = 0;
        let mut n: usize = 0;
        assert(self.recs() =~= seq![]);
        while n < game.board.height
            invariant
                game.wf(),
                game.board.width == old(game).board.width,
                game.board.height == old(game).board.height,
                game.queue == old(game).queue,
                game.active == old(game).active,
                game.hold == old(game).hold,
                g0 == old(game)@.board.grid,
                w == game.board.width,
                n <= game.board.height,
                pos <= n,
                scan(g0, w, n as nat) == (game.board@.grid, self.recs(), pos as int),
            decreases game.board.height - n,
        {
            let ghost prev_recs = self.recs();
            match game.board.line_clear(pos) {
                Some(line) => {
                    self.line_indices.push((pos, line));
                    assert(self.recs() =~= prev_recs.push((pos as int, line@)));
                },
                None => {
                    pos = pos + 1;
                },
            }
            n = n + 1;
            proof {
                game.board.lemma_wf_model();
            }
        }
        true
    }

    pub fn undo(&mut self, game: &mut Game)
        requires
            old(game).wf(),
            Command::ClearLines(*old(self)).can_undo(old(game)@),
        ensures
            final(game).wf(),
            final(game)@ == Command::ClearLines(*old(self)).undo_game(old(game)@),
    {
        let ghost target = unscan(old(game)@.board.grid, old(self).recs());
        while self.line_indices.len() > 0
            invariant
                game.wf(),
                game.board.width == old(game).board.width,
                game.board.height == old(game).board.height,
                game.queue == old(game).queue,
                game.active == old(game).active,
                game.hold == old(game).hold,
                unscan_ok(game.board@.grid, self.recs(), game.board.width as int),
                unscan(game.board@.grid, self.recs()) == target,
            decreases self.line_indices@.len(),
        {
            let ghost prev = self.recs();
            let (index, line) = self.line_indices.pop().unwrap();
            assert(self.recs() =~= prev.drop_last());
            assert(prev.last() == (index as int, line@));
            game.board.restore_line(index, line);
            proof {
                game.board.lemma_wf_model();
            }
        }
    }
}


pub proof fn lemma_can_execute_prefix(cs: Seq<Command>, m: GameModel, j: int)
    requires
        can_execute_seq(cs, m),
        0 <= j <= cs.len(),
    ensures
        can_execute_seq(cs.take(j), m),
    decreases cs.len(),
{
    if j < cs.len() {
        lemma_can_execute_prefix(cs.drop_last(), m, j);
        assert(cs.drop_last().take(j) =~= cs.take(j));
    } else {
        assert(cs.take(j) =~= cs);
    }
}

impl Batch {
    pub fn new() -> (r: Self)
        ensures
            r.commands@.len() == 0,
    {
        Self { commands: Vec::new() }
    }

    /// Executes the commands in order; a command that reports failure does not stop the rest.
    pub fn execute(&mut self, game: &mut Game) -> (r: bool)
        requires
            old(game).wf(),
            can_execute_seq(old(self).commands@, old(game)@),
        ensures
            final(game).wf(),
            final(game)@ == exec_seq(old(self).commands@, old(game)@),
            r,
            recorded_seq(old(self).commands@, old(game)@, final(self).commands@),
        decreases *old(self), 0int,
    {
        let ghost cs = self.commands@;
        let ghost g0 = game@;
        let mut rest: Vec<Command> = Vec::new();
        std::mem::swap(&mut rest, &mut self.commands);
        assert(cs.take(0) =~= seq![]);
        assert(rest@ =~= cs.subrange(0, cs.len() as int));
        while rest.len() > 0
            invariant
                game.wf(),
                cs == old(self).commands@,
                cs.len() == self.commands@.len() + rest@.len(),
                rest@ == cs.subrange(self.commands@.len() as int, cs.len() as int),
                game@ == exec_seq(cs.take(self.commands@.len() as int), g0),
                recorded_seq(cs.take(self.commands@.len() as int), g0, self.commands@),
                can_execute_seq(cs, g0),
            decreases rest@.len(),
        {
            let ghost k = self.commands@.len() as int;
            let ghost before = game@;
            let mut c = rest.remove(0);
            assert(c == cs[k]);
            proof {
                lemma_can_execute_prefix(cs, g0, k + 1);
                assert(cs.take(k + 1).drop_last() =~= cs.take(k));
                assert(decreases_to!(old(self).commands => old(self).commands@));
                assert(decreases_to!(*old(self) => old(self).commands));
            }
            let ghost c0 = c;
            let ghost prev_cmds = self.commands@;
            c.execute(game);
            let ghost c1 = c;
            self.commands.push(c);
            proof {
                assert(self.commands@.drop_last() =~= prev_cmds);
                assert(self.commands@.last() == c1);
                assert(cs.take(k + 1).last() == c0);
                assert(c0.recorded(exec_seq(cs.take(k), g0), c1));
                assert(recorded_seq(cs.take(k + 1), g0, self.commands@));
                assert(rest@ =~= cs.subrange(k + 1, cs.len() as int));
            }
        }
        assert(cs.take(cs.len() as int) =~= cs);
        true
    }

    /// Undoes the commands, the last one first.
    pub fn undo(&mut self, game: &mut Game)
        requires
            old(game).wf(),
            can_undo_seq(old(self).commands@, old(game)@),
        ensures
            final(game).wf(),
            final(game)@ == undo_seq(old(self).commands@, old(game)@),
        decreases *old(self), 0int,
    {
        let ghost cs = self.commands@;
        let ghost target = undo_seq(cs, game@);
        let mut rest: Vec<Command> = Vec::new();
        std::mem::swap(&mut rest, &mut self.commands);
        let mut undone: Vec<Command> = Vec::new();
        assert(rest@ =~= cs.take(cs.len() as int));
        while rest.len() > 0
            invariant
                game.wf(),
                cs == old(self).commands@,
                rest@.len() <= cs.len(),
                rest@ == cs.take(rest@.len() as int),
                can_undo_seq(rest@, game@),
                undo_seq(rest@, game@) == target,
            decreases rest@.len(),
        {
            let ghost j = rest@.len() - 1;
            let ghost prev = rest@;
            let mut c = rest.pop().unwrap();
            assert(c == cs[j]);
            assert(rest@ =~= cs.take(j));
            proof {
                assert(decreases_to!(old(self).commands => old(self).commands@));
                assert(decreases_to!(*old(self) => old(self).commands));
            }
            c.undo(game);
            undone.push(c);
        }
        while undone.len() > 0
            decreases undone@.len(),
        {
            let c = undone.pop().unwrap();
            self.commands.push(c);
        }
    }
}

/// The four commands of a hard drop: drop, lock, clear full rows, next piece.
pub open spec fn hard_drop_shape(cs: Seq<Command>) -> bool {
    &&& cs.len() == 4
    &&& cs[0] is SoftDrop
    &&& cs[1] is SetPiece
    &&& cs[2] is ClearLines
    &&& cs[3] is NextPiece
}

/// A hard-drop sequence does what `hard_dropped` says.
pub proof fn lemma_hard_drop(cs: Seq<Command>, m: GameModel)
    requires
        hard_drop_shape(cs),
    ensures
        exec_seq(cs, m) == hard_dropped(m),
{
    lemma_hard_drop_states(cs, m);
}

proof fn lemma_hard_drop_states(cs: Seq<Command>, m: GameModel)
    requires
        cs.len() == 4,
    ensures
        exec_seq(cs.take(1).drop_last(), m) == m,
        exec_seq(cs.take(1), m) == cs[0].exec_game(m),
        exec_seq(cs.take(2), m) == cs[1].exec_game(cs[0].exec_game(m)),
        exec_seq(cs.take(3), m) == cs[2].exec_game(cs[1].exec_game(cs[0].exec_game(m))),
        exec_seq(cs, m) == cs[3].exec_game(exec_seq(cs.take(3), m)),
{
    lemma_hard_drop_prefixes(cs);
    let e = Seq::<Command>::empty();
    assert(exec_seq(e, m) == m);
    assert(exec_seq(cs.take(1), m) == cs.take(1).last().exec_game(exec_seq(cs.take(1).drop_last(), m)));
    assert(exec_seq(cs.take(2), m) == cs.take(2).last().exec_game(exec_seq(cs.take(2).drop_last(), m)));
    assert(exec_seq(cs.take(3), m) == cs.take(3).last().exec_game(exec_seq(cs.take(3).drop_last(), m)));
    assert(exec_seq(cs, m) == cs.last().exec_game(exec_seq(cs.drop_last(), m)));
}

proof fn lemma_hard_drop_prefixes(cs: Seq<Command>)
    requires
        cs.len() == 4,
    ensures
        cs.drop_last() == cs.take(3),
        cs.take(3).drop_last() == cs.take(2),
        cs.take(2).drop_last() == cs.take(1),
        cs.take(1).drop_last() == Seq::<Command>::empty(),
        cs.take(1).last() == cs[0],
        cs.take(2).last() == cs[1],
        cs.take(3).last() == cs[2],
{
    assert(cs.drop_last() =~= cs.take(3));
    assert(cs.take(3).drop_last() =~= cs.take(2));
    assert(cs.take(2).drop_last() =~= cs.take(1));
    assert(cs.take(1).drop_last() =~= Seq::<Command>::empty());
}

/// A hard drop can run where the active piece lies on the board, and from a
/// resting placement it is undone exactly.
pub proof fn lemma_hard_drop_runs(cs: Seq<Command>, m: GameModel)
    requires
        hard_drop_shape(cs),
        m.wf(),
    ensures
        m.board.in_bounds_at(m.active, 0, 0) ==> can_execute_seq(cs, m),
        m.board.valid_placement(m.active) ==> reversible_seq(cs, m),
{
    lemma_hard_drop_prefixes(cs);
    lemma_hard_drop_states(cs, m);
    m.board.lemma_dropped(m.active);
    let e = Seq::<Command>::empty();
    assert(can_execute_seq(e, m));
    assert(reversible_seq(e, m));
    assert(can_execute_seq(cs.take(1), m) == (can_execute_seq(e, m) && cs[0].can_execute(m)));
    assert(reversible_seq(cs.take(1), m) == (reversible_seq(e, m) && cs[0].reversible(m)));
    let m1 = cs[0].exec_game(m);
    assert(can_execute_seq(cs.take(2), m) == (can_execute_seq(cs.take(1), m) && cs[1].can_execute(m1)));
    assert(reversible_seq(cs.take(2), m) == (reversible_seq(cs.take(1), m) && cs[1].reversible(m1)));
    let m2 = cs[1].exec_game(m1);
    assert(can_execute_seq(cs.take(3), m) == (can_execute_seq(cs.take(2), m) && cs[2].can_execute(m2)));
    assert(reversible_seq(cs.take(3), m) == (reversible_seq(cs.take(2), m) && cs[2].reversible(m2)));
    let m3 = cs[2].exec_game(m2);
    assert(can_execute_seq(cs, m) == (can_execute_seq(cs.take(3), m) && cs[3].can_execute(m3)));
    assert(reversible_seq(cs, m) == (reversible_seq(cs.take(3), m) && cs[3].reversible(m3)));
}

impl HardDrop {
    pub fn new() -> (r: Self)
        ensures
            hard_drop_shape(r.batch.commands@),
    {
        let sd = Command::SoftDrop(SoftDrop::new());
        let set = Command::SetPiece(SetPiece::new());
        let clr = Command::ClearLines(ClearLines::new());
        let nxt = Command::NextPiece(NextPiece::new());
        let mut commands: Vec<Command> = Vec::new();
        commands.push(sd);
        commands.push(set);
        commands.push(clr);
        commands.push(nxt);
        Self { batch: Batch { commands } }
    }

    pub fn execute(&mut self, game: &mut Game) -> (r: bool)
        requires
            old(game).wf(),
            can_execute_seq(old(self).batch.commands@, old(game)@),
        ensures
            final(game).wf(),
            final(game)@ == exec_seq(old(self).batch.commands@, old(game)@),
            r,
            recorded_seq(old(self).batch.commands@, old(game)@, final(self).batch.commands@),
        decreases *old(self),
    {
        self.batch.execute(game)
    }

    pub fn undo(&mut self, game: &mut Game)
        requires
            old(game).wf(),
            can_undo_seq(old(self).batch.commands@, old(game)@),
        ensures
            final(game).wf(),
            final(game)@ == undo_seq(old(self).batch.commands@, old(game)@),
        decreases *old(self),
    {
        self.batch.undo(game)
    }
}

impl Command {
    pub fn execute(&mut self, game: &mut Game) -> (r: bool)
        requires
            old(game).wf(),
            old(self).can_execute(old(game)@),
        ensures
            final(game).wf(),
            final(game)@ == old(self).exec_game(old(game)@),
            r == old(self).exec_ok(old(game)@),
            old(self).recorded(old(game)@, *final(self)),
        decreases *old(self), 1int,
    {
        match self {
            Command::PieceRotate(c) => c.execute(game),
            Command::PieceMove(c) => c.execute(game),
            Command::SoftDrop(c) => c.execute(game),
            Command::SetPiece(c) => c.execute(game),
            Command::NextPiece(c) => c.execute(game),
            Command::Hold(c) => c.execute(game),
            Command::ClearLines(c) => c.execute(game),
            Command::Batch(b) => b.execute(game),
            Command::HardDrop(h) => h.batch.execute(game),
            Command::PlacementActions(a) => a.batch.execute(game),
        }
    }

    pub fn undo(&mut self, game: &mut Game)
        requires
            old(game).wf(),
            old(self).can_undo(old(game)@),
        ensures
            final(game).wf(),
            final(game)@ == old(self).undo_game(old(game)@),
        decreases *old(self), 1int,
    {
        match self {
            Command::PieceRotate(c) => c.undo(game),
            Command::PieceMove(c) => c.undo(game),
            Command::SoftDrop(c) => c.undo(game),
            Command::SetPiece(c) => c.undo(game),
            Command::NextPiece(c) => c.undo(game),
            Command::Hold(c) => c.undo(game),
            Command::ClearLines(c) => c.undo(game),
            Command::Batch(b) => b.undo(game),
            Command::HardDrop(h) => h.batch.undo(game),
            Command::PlacementActions(a) => a.batch.undo(game),
        }
    }
}


impl Command {
    /// `o` is a copy of this command: the same variant and fields, rows and
    /// sub-commands copied element by element.
    pub open spec fn copy_of(self, o: Command) -> bool
        decreases self, 0int,
    {
        match self {
            Command::ClearLines(c) => match o {
                Command::ClearLines(d) => d.recs() == c.recs(),
                _ => false,
            },
            Command::Batch(b) => match o {
                Command::Batch(d) => copy_seq(b.commands@, d.commands@),
                _ => false,
            },
            Command::HardDrop(h) => match o {
                Command::HardDrop(d) => copy_seq(h.batch.commands@, d.batch.commands@),
                _ => false,
            },
            Command::PlacementActions(a) => match o {
                Command::PlacementActions(d) => copy_seq(a.batch.commands@, d.batch.commands@)
                    && d.placement == a.placement,
                _ => false,
            },
            _ => o == self,
        }
    }

    /// A copy of this command.
    pub fn duplicate(&self) -> (r: Command)
        ensures
            self.copy_of(r),
        decreases *self, 1int,
    {
        match self {
            Command::PieceRotate(c) => Command::PieceRotate(*c),
            Command::PieceMove(c) => Command::PieceMove(*c),
            Command::SoftDrop(c) => Command::SoftDrop(*c),
            Command::SetPiece(c) => Command::SetPiece(*c),
            Command::NextPiece(c) => Command::NextPiece(*c),
            Command::Hold(c) => Command::Hold(*c),
            Command::ClearLines(c) => Command::ClearLines(c.duplicate()),
            Command::Batch(b) => Command::Batch(b.duplicate()),
            Command::HardDrop(h) => Command::HardDrop(HardDrop { batch: h.batch.duplicate() }),
            Command::PlacementActions(a) => Command::PlacementActions(
                PlacementActions { batch: a.batch.duplicate(), placement: a.placement },
            ),
        }
    }
}

/// `ds` copies `cs` element by element.
pub open spec fn copy_seq(cs: Seq<Command>, ds: Seq<Command>) -> bool
    decreases cs, 1int,
{
    &&& cs.len() == ds.len()
    &&& cs.len() > 0 ==> {
        &&& copy_seq(cs.drop_last(), ds.drop_last())
        &&& cs.last().copy_of(ds.last())
    }
}

fn copy_row(row: &Vec<bool>) -> (r: Vec<bool>)
    ensures
        r@ == row@,
{
    let mut out: Vec<bool> = Vec::new();
    let mut i: usize = 0;
    while i < row.len()
        invariant
            i <= row@.len(),
            out@ == row@.take(i as int),
        decreases row@.len() - i,
    {
        out.push(row[i]);
        i = i + 1;
        assert(out@ =~= row@.take(i as int));
    }
    assert(row@.take(row@.len() as int) =~= row@);
    out
}

impl ClearLines {
    pub fn duplicate(&self) -> (r: ClearLines)
        ensures
            r.recs() == self.recs(),
    {
        let mut out: Vec<(usize, Vec<bool>)> = Vec::new();
        let mut i: usize = 0;
        let ghost src = self.recs();
        while i < self.line_indices.len()
            invariant
                i <= self.line_indices@.len(),
                src == self.recs(),
                src.len() == self.line_indices@.len(),
                out@.map_values(|e: (usize, Vec<bool>)| (e.0 as int, e.1@)) == src.take(i as int),
            decreases self.line_indices@.len() - i,
        {
            let ghost prev = out@;
            let (index, row) = &self.line_indices[i];
            let copied = copy_row(row);
            out.push((*index, copied));
            assert(src[i as int] == (*index as int, row@));
            assert(out@.map_values(|e: (usize, Vec<bool>)| (e.0 as int, e.1@)) =~= prev.map_values(
                |e: (usize, Vec<bool>)| (e.0 as int, e.1@),
            ).push((*index as int, row@)));
            i = i + 1;
            assert(src.take(i as int) =~= src.take(i - 1).push(src[i - 1]));
        }
        assert(src.take(i as int) =~= src);
        ClearLines { line_indices: out }
    }
}

impl Batch {
    pub fn duplicate(&self) -> (r: Batch)
        ensures
            copy_seq(self.commands@, r.commands@),
        decreases *self, 0int,
    {
        let mut out: Vec<Command> = Vec::new();
        let mut i: usize = 0;
        assert(self.commands@.take(0) =~= seq![]);
        while i < self.commands.len()
            invariant
                i <= self.commands@.len(),
                copy_seq(self.commands@.take(i as int), out@),
            decreases self.commands@.len() - i,
        {
            proof {
                assert(decreases_to!(self.commands => self.commands@));
                assert(decreases_to!(*self => self.commands));
            }
            let c = self.commands[i].duplicate();
            let ghost prev = out@;
            out.push(c);
            proof {
                assert(out@.drop_last() =~= prev);
                assert(self.commands@.take(i + 1).drop_last() =~= self.commands@.take(i as int));
            }
            i = i + 1;
        }
        assert(self.commands@.take(i as int) =~= self.commands@);
        Batch { commands: out }
    }
}

impl PlacementActions {
    pub fn new() -> (r: Self)
        ensures
            r.batch.commands@.len() == 0,
            r.placement == (Placement { piece_type: 0, rotation_state: 0, row: 0, col: 0 }),
    {
        Self { batch: Batch::new(), placement: Placement::new(0, 0, 0, 0) }
    }

    /// A copy of the command sequence with the same placement.
    pub fn duplicate(&self) -> (r: Self)
        ensures
            r.placement == self.placement,
            copy_seq(self.batch.commands@, r.batch.commands@),
    {
        Self { batch: self.batch.duplicate(), placement: self.placement }
    }

    /// Appends `command` to the sequence.
    pub fn push(&mut self, command: Command)
        ensures
            final(self).batch.commands@ == old(self).batch.commands@.push(command),
            final(self).placement == old(self).placement,
    {
        self.batch.commands.push(command)
    }

    /// Removes and returns the last command, if any.
    pub fn pop(&mut self) -> (r: Option<Command>)
        ensures
            old(self).batch.commands@.len() == 0 ==> r.is_none() && final(self).batch.commands@.len() == 0,
            old(self).batch.commands@.len() > 0 ==> r == Some(old(self).batch.commands@.last())
                && final(self).batch.commands@ == old(self).batch.commands@.drop_last(),
            final(self).placement == old(self).placement,
    {
        self.batch.commands.pop()
    }

    /// A copy with `command` put in front of the sequence.
    pub fn ret_push_front(&self, command: Command) -> (r: Self)
        ensures
            r.placement == self.placement,
            r.batch.commands@.len() == self.batch.commands@.len() + 1,
            r.batch.commands@[0] == command,
            copy_seq(self.batch.commands@, r.batch.commands@.drop_first()),
    {
        let rest = self.batch.duplicate();
        let mut commands: Vec<Command> = Vec::new();
        commands.push(command);
        let mut tail = rest.commands;
        commands.append(&mut tail);
        assert(commands@.drop_first() =~= rest.commands@);
        Self { batch: Batch { commands }, placement: self.placement }
    }

    /// Executes the last command, if any; with none, reports success.
    pub fn execute_last(&mut self, game: &mut Game) -> (r: bool)
        requires
            old(game).wf(),
            old(self).batch.commands@.len() > 0 ==> old(self).batch.commands@.last().can_execute(old(game)@),
        ensures
            final(game).wf(),
            old(self).batch.commands@.len() == 0 ==> r && *final(game) == *old(game),
            old(self).batch.commands@.len() > 0 ==> {
                &&& final(game)@ == old(self).batch.commands@.last().exec_game(old(game)@)
                &&& r == old(self).batch.commands@.last().exec_ok(old(game)@)
                &&& old(self).batch.commands@.last().recorded(old(game)@, final(self).batch.commands@.last())
                &&& final(self).batch.commands@.drop_last() == old(self).batch.commands@.drop_last()
            },
            final(self).batch.commands@.len() == old(self).batch.commands@.len(),
            final(self).placement == old(self).placement,
    {
        match self.batch.commands.pop() {
            Some(mut command) => {
                let r = command.execute(game);
                self.batch.commands.push(command);
                proof {
                    assert(self.batch.commands@.drop_last() =~= old(self).batch.commands@.drop_last());
                }
                r
            },
            None => true,
        }
    }

    /// Undoes the last command, if any.
    pub fn undo_last(&mut self, game: &mut Game)
        requires
            old(game).wf(),
            old(self).batch.commands@.len() > 0 ==> old(self).batch.commands@.last().can_undo(old(game)@),
        ensures
            final(game).wf(),
            old(self).batch.commands@.len() == 0 ==> *final(game) == *old(game),
            old(self).batch.commands@.len() > 0 ==> final(game)@ == old(self).batch.commands@.last().undo_game(old(game)@),
            final(self).batch.commands@.len() == old(self).batch.commands@.len(),
            final(self).placement == old(self).placement,
    {
        match self.batch.commands.pop() {
            Some(mut command) => {
                command.undo(game);
                self.batch.commands.push(command);
            },
            None => {},
        }
    }

    pub fn execute(&mut self, game: &mut Game) -> (r: bool)
        requires
            old(game).wf(),
            can_execute_seq(old(self).batch.commands@, old(game)@),
        ensures
            final(game).wf(),
            final(game)@ == exec_seq(old(self).batch.commands@, old(game)@),
            r,
            recorded_seq(old(self).batch.commands@, old(game)@, final(self).batch.commands@),
    {
        self.batch.execute(game)
    }

    pub fn undo(&mut self, game: &mut Game)
        requires
            old(game).wf(),
            can_undo_seq(old(self).batch.commands@, old(game)@),
        ensures
            final(game).wf(),
            final(game)@ == undo_seq(old(self).batch.commands@, old(game)@),
    {
        self.batch.undo(game)
    }
}

/// Whether some element of `used` leads to the placement `piece`.
pub fn duplicate_placement(used: &Vec<PlacementActions>, piece: &Placement) -> (r: bool)
    ensures
        r == exists|i: int| 0 <= i < used@.len() && (#[trigger] used@[i]).placement == *piece,
{
    let mut i: usize = 0;
    while i < used.len()
        invariant
            i <= used@.len(),
            forall|j: int| 0 <= j < i ==> (#[trigger] used@[j]).placement != *piece,
        decreases used@.len() - i,
    {
        if used[i].placement == *piece {
            return true;
        }
        i = i + 1;
    }
    false
}


/// A reversible unit of work on a game: what executing it from a game gives,
/// and what undoing it (as executed) gives.
pub trait Executable {
    /// Executing from `m` is defined.
    spec fn ready(&self, m: GameModel) -> bool;

    /// The game after executing from `m`.
    spec fn executed(&self, m: GameModel) -> GameModel;

    /// What executing from `m` reports.
    spec fn succeeded(&self, m: GameModel) -> bool;

    /// Undoing from `m` is defined.
    spec fn revertible(&self, m: GameModel) -> bool;

    /// The game after undoing from `m`.
    spec fn reverted(&self, m: GameModel) -> GameModel;

    fn execute(&mut self, game: &mut Game) -> (r: bool)
        requires
            old(game).wf(),
            old(self).ready(old(game)@),
        ensures
            final(game).wf(),
            final(game)@ == old(self).executed(old(game)@),
            r == old(self).succeeded(old(game)@),
    ;

    fn undo(&mut self, game: &mut Game)
        requires
            old(game).wf(),
            old(self).revertible(old(game)@),
        ensures
            final(game).wf(),
            final(game)@ == old(self).reverted(old(game)@),
    ;
}

impl Executable for PieceMove {
    open spec fn ready(&self, m: GameModel) -> bool {
        Command::PieceMove(*self).can_execute(m)
    }

    open spec fn executed(&self, m: GameModel) -> GameModel {
        Command::PieceMove(*self).exec_game(m)
    }

    open spec fn succeeded(&self, m: GameModel) -> bool {
        Command::PieceMove(*self).exec_ok(m)
    }

    open spec fn revertible(&self, m: GameModel) -> bool {
        Command::PieceMove(*self).can_undo(m)
    }

    open spec fn reverted(&self, m: GameModel) -> GameModel {
        Command::PieceMove(*self).undo_game(m)
    }

    fn execute(&mut self, game: &mut Game) -> (r: bool) {
        PieceMove::execute(self, game)
    }

    fn undo(&mut self, game: &mut Game) {
        PieceMove::undo(self, game)
    }
}

impl Executable for PieceRotate {
    open spec fn ready(&self, m: GameModel) -> bool {
        Command::PieceRotate(*self).can_execute(m)
    }

    open spec fn executed(&self, m: GameModel) -> GameModel {
        Command::PieceRotate(*self).exec_game(m)
    }

    open spec fn succeeded(&self, m: GameModel) -> bool {
        Command::PieceRotate(*self).exec_ok(m)
    }

    open spec fn revertible(&self, m: GameModel) -> bool {
        Command::PieceRotate(*self).can_undo(m)
    }

    open spec fn reverted(&self, m: GameModel) -> GameModel {
        Command::PieceRotate(*self).undo_game(m)
    }

    fn execute(&mut self, game: &mut Game) -> (r: bool) {
        PieceRotate::execute(self, game)
    }

    fn undo(&mut self, game: &mut Game) {
        PieceRotate::undo(self, game)
    }
}

impl Executable for SoftDrop {
    open spec fn ready(&self, m: GameModel) -> bool {
        Command::SoftDrop(*self).can_execute(m)
    }

    open spec fn executed(&self, m: GameModel) -> GameModel {
        Command::SoftDrop(*self).exec_game(m)
    }

    open spec fn succeeded(&self, m: GameModel) -> bool {
        Command::SoftDrop(*self).exec_ok(m)
    }

    open spec fn revertible(&self, m: GameModel) -> bool {
        Command::SoftDrop(*self).can_undo(m)
    }

    open spec fn reverted(&self, m: GameModel) -> GameModel {
        Command::SoftDrop(*self).undo_game(m)
    }

    fn execute(&mut self, game: &mut Game) -> (r: bool) {
        SoftDrop::execute(self, game)
    }

    fn undo(&mut self, game: &mut Game) {
        SoftDrop::undo(self, game)
    }
}

impl Executable for SetPiece {
    open spec fn ready(&self, m: GameModel) -> bool {
        Command::SetPiece(*self).can_execute(m)
    }

    open spec fn executed(&self, m: GameModel) -> GameModel {
        Command::SetPiece(*self).exec_game(m)
    }

    open spec fn succeeded(&self, m: GameModel) -> bool {
        Command::SetPiece(*self).exec_ok(m)
    }

    open spec fn revertible(&self, m: GameModel) -> bool {
        Command::SetPiece(*self).can_undo(m)
    }

    open spec fn reverted(&self, m: GameModel) -> GameModel {
        Command::SetPiece(*self).undo_game(m)
    }

    fn execute(&mut self, game: &mut Game) -> (r: bool) {
        SetPiece::execute(self, game)
    }

    fn undo(&mut self, game: &mut Game) {
        SetPiece::undo(self, game)
    }
}

impl Executable for NextPiece {
    open spec fn ready(&self, m: GameModel) -> bool {
        Command::NextPiece(*self).can_execute(m)
    }

    open spec fn executed(&self, m: GameModel) -> GameModel {
        Command::NextPiece(*self).exec_game(m)
    }

    open spec fn succeeded(&self, m: GameModel) -> bool {
        Command::NextPiece(*self).exec_ok(m)
    }

    open spec fn revertible(&self, m: GameModel) -> bool {
        Command::NextPiece(*self).can_undo(m)
    }

    open spec fn reverted(&self, m: GameModel) -> GameModel {
        Command::NextPiece(*self).undo_game(m)
    }

    fn execute(&mut self, game: &mut Game) -> (r: bool) {
        NextPiece::execute(self, game)
    }

    fn undo(&mut self, game: &mut Game) {
        NextPiece::undo(self, game)
    }
}

impl Executable for Hold {
    open spec fn ready(&self, m: GameModel) -> bool {
        Command::Hold(*self).can_execute(m)
    }

    open spec fn executed(&self, m: GameModel) -> GameModel {
        Command::Hold(*self).exec_game(m)
    }

    open spec fn succeeded(&self, m: GameModel) -> bool {
        Command::Hold(*self).exec_ok(m)
    }

    open spec fn revertible(&self, m: GameModel) -> bool {
        Command::Hold(*self).can_undo(m)
    }

    open spec fn reverted(&self, m: GameModel) -> GameModel {
        Command::Hold(*self).undo_game(m)
    }

    fn execute(&mut self, game: &mut Game) -> (r: bool) {
        Hold::execute(self, game)
    }

    fn undo(&mut self, game: &mut Game) {
        Hold::undo(self, game)
    }
}

impl Executable for ClearLines {
    open spec fn ready(&self, m: GameModel) -> bool {
        Command::ClearLines(*self).can_execute(m)
    }

    open spec fn executed(&self, m: GameModel) -> GameModel {
        Command::ClearLines(*self).exec_game(m)
    }

    open spec fn succeeded(&self, m: GameModel) -> bool {
        Command::ClearLines(*self).exec_ok(m)
    }

    open spec fn revertible(&self, m: GameModel) -> bool {
        Command::ClearLines(*self).can_undo(m)
    }

    open spec fn reverted(&self, m: GameModel) -> GameModel {
        Command::ClearLines(*self).undo_game(m)
    }

    fn execute(&mut self, game: &mut Game) -> (r: bool) {
        ClearLines::execute(self, game)
    }

    fn undo(&mut self, game: &mut Game) {
        ClearLines::undo(self, game)
    }
}

impl Executable for Batch {
    open spec fn ready(&self, m: GameModel) -> bool {
        Command::Batch(*self).can_execute(m)
    }

    open spec fn executed(&self, m: GameModel) -> GameModel {
        Command::Batch(*self).exec_game(m)
    }

    open spec fn succeeded(&self, m: GameModel) -> bool {
        Command::Batch(*self).exec_ok(m)
    }

    open spec fn revertible(&self, m: GameModel) -> bool {
        Command::Batch(*self).can_undo(m)
    }

    open spec fn reverted(&self, m: GameModel) -> GameModel {
        Command::Batch(*self).undo_game(m)
    }

    fn execute(&mut self, game: &mut Game) -> (r: bool) {
        Batch::execute(self, game)
    }

    fn undo(&mut self, game: &mut Game) {
        Batch::undo(self, game)
    }
}

impl Executable for HardDrop {
    open spec fn ready(&self, m: GameModel) -> bool {
        Command::HardDrop(*self).can_execute(m)
    }

    open spec fn executed(&self, m: GameModel) -> GameModel {
        Command::HardDrop(*self).exec_game(m)
    }

    open spec fn succeeded(&self, m: GameModel) -> bool {
        Command::HardDrop(*self).exec_ok(m)
    }

    open spec fn revertible(&self, m: GameModel) -> bool {
        Command::HardDrop(*self).can_undo(m)
    }

    open spec fn reverted(&self, m: GameModel) -> GameModel {
        Command::HardDrop(*self).undo_game(m)
    }

    fn execute(&mut self, game: &mut Game) -> (r: bool) {
        HardDrop::execute(self, game)
    }

    fn undo(&mut self, game: &mut Game) {
        HardDrop::undo(self, game)
    }
}

impl Executable for PlacementActions {
    open spec fn ready(&self, m: GameModel) -> bool {
        Command::PlacementActions(*self).can_execute(m)
    }

    open spec fn executed(&self, m: GameModel) -> GameModel {
        Command::PlacementActions(*self).exec_game(m)
    }

    open spec fn succeeded(&self, m: GameModel) -> bool {
        Command::PlacementActions(*self).exec_ok(m)
    }

    open spec fn revertible(&self, m: GameModel) -> bool {
        Command::PlacementActions(*self).can_undo(m)
    }

    open spec fn reverted(&self, m: GameModel) -> GameModel {
        Command::PlacementActions(*self).undo_game(m)
    }

    fn execute(&mut self, game: &mut Game) -> (r: bool) {
        PlacementActions::execute(self, game)
    }

    fn undo(&mut self, game: &mut Game) {
        PlacementActions::undo(self, game)
    }
}

impl Executable for Command {
    open spec fn ready(&self, m: GameModel) -> bool {
        self.can_execute(m)
    }

    open spec fn executed(&self, m: GameModel) -> GameModel {
        self.exec_game(m)
    }

    open spec fn succeeded(&self, m: GameModel) -> bool {
        self.exec_ok(m)
    }

    open spec fn revertible(&self, m: GameModel) -> bool {
        self.can_undo(m)
    }

    open spec fn reverted(&self, m: GameModel) -> GameModel {
        self.undo_game(m)
    }

    fn execute(&mut self, game: &mut Game) -> (r: bool) {
        Command::execute(self, game)
    }

    fn undo(&mut self, game: &mut Game) {
        Command::undo(self, game)
    }
}

} // verus!
