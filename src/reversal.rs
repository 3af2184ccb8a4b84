//! Undoing an executed command restores the game.
use vstd::prelude::*;
use crate::board::{BoardModel, empty_row};
use crate::control::{
    kept_rows, empty_rows, Command, PieceRotate, ClearLines, cleared, marked, scan, unscan, unscan_ok, full, cells_of, exec_seq, undo_seq,
    recorded_seq, can_execute_seq, can_undo_seq, reversible_seq,
};
use crate::game::GameModel;
use crate::piece::{Placement, kick};
use crate::queue::{lemma_after_next, lemma_pushed, lemma_same_upcoming_steps, lemma_model_upcoming_bounded};

verus! {

/// Facts about the bottom-up line-clear scan of the first `n` rows: its shape,
/// and that undoing its removals gives the starting rows back.
pub proof fn lemma_scan(g: Seq<Seq<bool>>, w: int, n: nat)
    requires
        n <= g.len(),
        w >= 0,
        forall|r: int| 0 <= r < g.len() ==> (#[trigger] g[r]).len() == w,
    ensures
        scan(g, w, n).0.len() == g.len(),
        forall|r: int| 0 <= r < g.len() ==> (#[trigger] scan(g, w, n).0[r]).len() == w,
        0 <= scan(g, w, n).2 <= n,
        unscan_ok(scan(g, w, n).0, scan(g, w, n).1, w),
        unscan(scan(g, w, n).0, scan(g, w, n).1) == g,
    decreases n,
{
    if n > 0 {
        lemma_scan(g, w, (n - 1) as nat);
        let (g1, recs, pos) = scan(g, w, (n - 1) as nat);
        if full(g1[pos], w) {
            let g2 = g1.remove(pos).push(empty_row(w));
            let recs2 = recs.push((pos, g1[pos]));
            assert(g2.drop_last().insert(pos, g1[pos]) =~= g1);
            assert(recs2.drop_last() =~= recs);
            assert(recs2.last() == (pos, g1[pos]));
            assert forall|r: int| 0 <= r < g.len() implies (#[trigger] g2[r]).len() == w by {
                if r < pos {
                    assert(g2[r] == g1[r]);
                } else if r < g.len() - 1 {
                    assert(g2[r] == g1[r + 1]);
                }
            }
        }
    }
}

/// A single grid cell after marking four cells.
proof fn lemma_marked_cell(b: BoardModel, cells: Seq<(int, int)>, v: bool, r: int, c: int)
    requires
        b.wf(),
        cells.len() == 4,
        forall|k: int| 0 <= k < 4 ==> b.inside(#[trigger] cells[k].0, cells[k].1),
        0 <= r < b.height,
        0 <= c < b.width,
    ensures
        marked(b, cells, v).grid[r][c] == if exists|k: int| 0 <= k < 4 && (#[trigger] cells[k]) == (r, c) {
            v
        } else {
            b.grid[r][c]
        },
        marked(b, cells, v).grid.len() == b.grid.len(),
        marked(b, cells, v).grid[r].len() == b.grid[r].len(),
{
    if cells[3] == (r, c) {
    } else if cells[2] == (r, c) {
    } else if cells[1] == (r, c) {
    } else if cells[0] == (r, c) {
    } else {
        assert(!exists|k: int| 0 <= k < 4 && (#[trigger] cells[k]) == (r, c)) by {
            assert forall|k: int| 0 <= k < 4 implies (#[trigger] cells[k]) != (r, c) by {
                if k == 0 {} else if k == 1 {} else if k == 2 {} else {}
            }
        }
    }
}

/// Marking four cells that lie on the board keeps it well formed.
pub proof fn lemma_marked_wf(b: BoardModel, cells: Seq<(int, int)>, v: bool)
    requires
        b.wf(),
        cells.len() == 4,
        forall|k: int| 0 <= k < 4 ==> b.inside(#[trigger] cells[k].0, cells[k].1),
    ensures
        marked(b, cells, v).wf(),
        marked(b, cells, v).width == b.width,
        marked(b, cells, v).height == b.height,
{
}

/// Setting four empty cells and then clearing them gives the board back.
pub proof fn lemma_mark_unmark(b: BoardModel, cells: Seq<(int, int)>)
    requires
        b.wf(),
        cells.len() == 4,
        forall|k: int| 0 <= k < 4 ==> b.inside(#[trigger] cells[k].0, cells[k].1),
        forall|k: int| 0 <= k < 4 ==> !b.grid[(#[trigger] cells[k]).0][cells[k].1],
    ensures
        marked(marked(b, cells, true), cells, false) == b,
{
    let b1 = marked(b, cells, true);
    let b2 = marked(b1, cells, false);
    lemma_marked_wf(b, cells, true);
    assert forall|r: int| 0 <= r < b.height implies #[trigger] b2.grid[r] =~= b.grid[r] by {
        assert forall|c: int| 0 <= c < b.width implies b2.grid[r][c] == b.grid[r][c] by {
            lemma_marked_cell(b, cells, true, r, c);
            lemma_marked_cell(b1, cells, false, r, c);
            if exists|k: int| 0 <= k < 4 && (#[trigger] cells[k]) == (r, c) {
                let k = choose|k: int| 0 <= k < 4 && (#[trigger] cells[k]) == (r, c);
                assert(!b.grid[cells[k].0][cells[k].1]);
            }
        }
        lemma_marked_cell(b1, cells, false, r, 0);
    }
    assert(b2.grid =~= b.grid);
}


pub proof fn lemma_same_refl(m: GameModel)
    ensures
        m.same_state(m),
{
}

pub proof fn lemma_same_trans(m1: GameModel, m2: GameModel, m3: GameModel)
    requires
        m1.same_state(m2),
        m2.same_state(m3),
    ensures
        m1.same_state(m3),
{
    assert forall|i: nat| #[trigger] m1.queue.upcoming(i) == m3.queue.upcoming(i) by {
        assert(m1.queue.upcoming(i) == m2.queue.upcoming(i));
        assert(m2.queue.upcoming(i) == m3.queue.upcoming(i));
    }
}

/// Undo depends on the game only up to the pieces still to come.
pub proof fn lemma_undo_congruent(c: Command, m1: GameModel, m2: GameModel)
    requires
        m1.same_state(m2),
    ensures
        c.can_undo(m1) == c.can_undo(m2),
        c.undo_game(m1).same_state(c.undo_game(m2)),
    decreases c, 0int,
{
    match c {
        Command::NextPiece(n) => {
            lemma_same_upcoming_steps(m1.queue, m2.queue, n.next_piece);
        },
        Command::Hold(h) => {
            lemma_same_upcoming_steps(m1.queue, m2.queue, h.after);
        },
        Command::Batch(b) => {
            lemma_undo_congruent_seq(b.commands@, m1, m2);
        },
        Command::HardDrop(h) => {
            lemma_undo_congruent_seq(h.batch.commands@, m1, m2);
        },
        Command::PlacementActions(a) => {
            lemma_undo_congruent_seq(a.batch.commands@, m1, m2);
        },
        _ => {},
    }
}

pub proof fn lemma_undo_congruent_seq(cs: Seq<Command>, m1: GameModel, m2: GameModel)
    requires
        m1.same_state(m2),
    ensures
        can_undo_seq(cs, m1) == can_undo_seq(cs, m2),
        undo_seq(cs, m1).same_state(undo_seq(cs, m2)),
    decreases cs, 1int,
{
    if cs.len() > 0 {
        lemma_undo_congruent(cs.last(), m1, m2);
        lemma_undo_congruent_seq(cs.drop_last(), cs.last().undo_game(m1), cs.last().undo_game(m2));
    }
}

/// Executing a command keeps the game well formed.
pub proof fn lemma_exec_wf(c: Command, m: GameModel)
    requires
        m.wf(),
        c.can_execute(m),
    ensures
        c.exec_game(m).wf(),
    decreases c, 0int,
{
    match c {
        Command::SetPiece(_) => {
            let cs = cells_of(m.active);
            assert(m.board.cell_inside(m.active, 0, 0, 0));
            assert(m.board.cell_inside(m.active, 1, 0, 0));
            assert(m.board.cell_inside(m.active, 2, 0, 0));
            assert(m.board.cell_inside(m.active, 3, 0, 0));
            assert forall|k: int| 0 <= k < 4 implies m.board.inside(#[trigger] cs[k].0, cs[k].1) by {
                if k == 0 {} else if k == 1 {} else if k == 2 {} else {}
            }
            lemma_marked_wf(m.board, cs, true);
        },
        Command::NextPiece(_) => {
            lemma_after_next(m.queue);
            lemma_model_upcoming_bounded(m.queue, 0);
        },
        Command::Hold(_) => {
            lemma_after_next(m.queue);
            lemma_model_upcoming_bounded(m.queue, 0);
        },
        Command::ClearLines(_) => {
            lemma_scan(m.board.grid, m.board.width, m.board.height as nat);
        },
        Command::Batch(b) => {
            lemma_exec_wf_seq(b.commands@, m);
        },
        Command::HardDrop(h) => {
            lemma_exec_wf_seq(h.batch.commands@, m);
        },
        Command::PlacementActions(a) => {
            lemma_exec_wf_seq(a.batch.commands@, m);
        },
        _ => {},
    }
}

pub proof fn lemma_exec_wf_seq(cs: Seq<Command>, m: GameModel)
    requires
        m.wf(),
        can_execute_seq(cs, m),
    ensures
        exec_seq(cs, m).wf(),
    decreases cs, 1int,
{
    if cs.len() > 0 {
        lemma_exec_wf_seq(cs.drop_last(), m);
        lemma_exec_wf(cs.last(), exec_seq(cs.drop_last(), m));
    }
}

/// Executing a command and then undoing it restores the game: the same board,
/// active piece and held piece, with the same pieces still to come. A command
/// that reports failure changes nothing, and its undo changes nothing either.
pub proof fn lemma_execute_undo(c: Command, m: GameModel, d: Command)
    requires
        m.wf(),
        c.can_execute(m),
        c.reversible(m),
        c.recorded(m, d),
    ensures
        c.exec_game(m).wf(),
        d.can_undo(c.exec_game(m)),
        d.undo_game(c.exec_game(m)).same_state(m),
        !c.exec_ok(m) ==> c.exec_game(m) == m && d.undo_game(m) == m,
    decreases c, 0int,
{
    lemma_exec_wf(c, m);
    let e = c.exec_game(m);
    match c {
        Command::PieceMove(mv) => {
            if m.board.fits_at(m.active, mv.dy as int, mv.dx as int) {
                m.board.lemma_fits_pivot(m.active, mv.dy as int, mv.dx as int);
            }
        },
        Command::PieceRotate(_) => {},
        Command::SoftDrop(_) => {
            m.board.lemma_drop_fits(m.active, 0);
            let dd = m.board.drop_distance(m.active, 0);
            if dd > 0 {
                m.board.lemma_fits_pivot(m.active, -dd, 0);
            }
        },
        Command::SetPiece(_) => {
            let cs = cells_of(m.active);
            assert(m.board.cell_inside(m.active, 0, 0, 0));
            assert(m.board.cell_inside(m.active, 1, 0, 0));
            assert(m.board.cell_inside(m.active, 2, 0, 0));
            assert(m.board.cell_inside(m.active, 3, 0, 0));
            assert(!m.board.cell_occupied(m.active, 0, 0, 0));
            assert(!m.board.cell_occupied(m.active, 1, 0, 0));
            assert(!m.board.cell_occupied(m.active, 2, 0, 0));
            assert(!m.board.cell_occupied(m.active, 3, 0, 0));
            assert forall|k: int| 0 <= k < 4 implies m.board.inside(#[trigger] cs[k].0, cs[k].1)
                && !m.board.grid[cs[k].0][cs[k].1] by {
                if k == 0 {} else if k == 1 {} else if k == 2 {} else {}
            }
            lemma_mark_unmark(m.board, cs);
            lemma_marked_wf(m.board, cs, true);
        },
        Command::NextPiece(_) => {
            let q = m.queue;
            let u = q.upcoming(0);
            lemma_after_next(q);
            lemma_pushed(q.after_next(), u);
            lemma_model_upcoming_bounded(q, 0);
            let back = q.after_next().pushed(u);
            assert forall|i: nat| #[trigger] back.upcoming(i) == q.upcoming(i) by {
                if i > 0 {
                    let j = (i - 1) as nat;
                    assert(back.upcoming(j + 1) == q.after_next().upcoming(j));
                    assert(q.after_next().upcoming(j) == q.upcoming(j + 1));
                }
            }
        },
        Command::Hold(_) => {
            if m.hold.is_none() {
                let q = m.queue;
                let u = q.upcoming(0);
                lemma_after_next(q);
                lemma_pushed(q.after_next(), u);
                lemma_model_upcoming_bounded(q, 0);
                let back = q.after_next().pushed(u);
                assert forall|i: nat| #[trigger] back.upcoming(i) == q.upcoming(i) by {
                    if i > 0 {
                        let j = (i - 1) as nat;
                        assert(back.upcoming(j + 1) == q.after_next().upcoming(j));
                        assert(q.after_next().upcoming(j) == q.upcoming(j + 1));
                    }
                }
            }
        },
        Command::ClearLines(_) => {
            lemma_scan(m.board.grid, m.board.width, m.board.height as nat);
        },
        Command::Batch(b) => {
            let db = match d { Command::Batch(x) => x, _ => arbitrary() };
            lemma_execute_undo_seq(b.commands@, m, db.commands@);
        },
        Command::HardDrop(h) => {
            let dh = match d { Command::HardDrop(x) => x, _ => arbitrary() };
            lemma_execute_undo_seq(h.batch.commands@, m, dh.batch.commands@);
        },
        Command::PlacementActions(a) => {
            let da = match d { Command::PlacementActions(x) => x, _ => arbitrary() };
            lemma_execute_undo_seq(a.batch.commands@, m, da.batch.commands@);
        },
    }
}

/// The same for a sequence run in order and undone in reverse order.
pub proof fn lemma_execute_undo_seq(cs: Seq<Command>, m: GameModel, ds: Seq<Command>)
    requires
        m.wf(),
        can_execute_seq(cs, m),
        reversible_seq(cs, m),
        recorded_seq(cs, m, ds),
    ensures
        exec_seq(cs, m).wf(),
        can_undo_seq(ds, exec_seq(cs, m)),
        undo_seq(ds, exec_seq(cs, m)).same_state(m),
    decreases cs, 1int,
{
    if cs.len() == 0 {
        lemma_same_refl(m);
    } else {
        let cs0 = cs.drop_last();
        let ds0 = ds.drop_last();
        lemma_execute_undo_seq(cs0, m, ds0);
        let m1 = exec_seq(cs0, m);
        let c = cs.last();
        let d = ds.last();
        lemma_execute_undo(c, m1, d);
        let e = c.exec_game(m1);
        let back = d.undo_game(e);
        lemma_undo_congruent_seq(ds0, back, m1);
        lemma_same_trans(undo_seq(ds0, back), undo_seq(ds0, m1), m);
    }
}


/// A turn uses the first kick candidate that fits: when the candidates before
/// `j` do not fit and candidate `j` does, the piece is moved by exactly
/// candidate `j`, and undoing the turn puts it back where it was.
pub proof fn lemma_kick_order(m: GameModel, r: PieceRotate, d: Command, j: int)
    requires
        m.wf(),
        1 <= r.direction <= 3,
        0 <= j < 6,
        Command::PieceRotate(r).recorded(m, d),
        ({
            let q = Placement { rotation_state: ((m.active.rotation_state + r.direction) % 4) as usize, ..m.active };
            &&& forall|i: int| 0 <= i < j ==> !m.board.fits_at(
                q,
                -kick(q.piece_type as int, q.rotation_state as int, r.direction as int, i).0,
                -kick(q.piece_type as int, q.rotation_state as int, r.direction as int, i).1,
            )
            &&& m.board.fits_at(
                q,
                -kick(q.piece_type as int, q.rotation_state as int, r.direction as int, j).0,
                -kick(q.piece_type as int, q.rotation_state as int, r.direction as int, j).1,
            )
        }),
    ensures
        ({
            let q = Placement { rotation_state: ((m.active.rotation_state + r.direction) % 4) as usize, ..m.active };
            let o = kick(q.piece_type as int, q.rotation_state as int, r.direction as int, j);
            Command::PieceRotate(r).exec_game(m) == m.with_active(q.shifted(-o.0, -o.1))
        }),
        Command::PieceRotate(r).exec_ok(m),
        d.undo_game(Command::PieceRotate(r).exec_game(m)) == m,
{
    let dir = r.direction as int;
    let q = Placement { rotation_state: ((m.active.rotation_state + r.direction) % 4) as usize, ..m.active };
    m.board.lemma_first_kick(q, dir, 0);
    let f = m.board.first_kick(q, dir, 0);
    assert(f == j);
}

/// Clearing lines keeps the grid's shape, `height` rows of `width` cells each,
/// and undoing the clear gives back the same rows at the same indices.
pub proof fn lemma_clear_lines_shape(m: GameModel, c: ClearLines, d: Command)
    requires
        m.wf(),
        Command::ClearLines(c).recorded(m, d),
    ensures
        cleared(m).board.wf(),
        cleared(m).board.width == m.board.width,
        cleared(m).board.height == m.board.height,
        d.can_undo(cleared(m)),
        d.undo_game(cleared(m)).board == m.board,
{
    lemma_scan(m.board.grid, m.board.width, m.board.height as nat);
    lemma_execute_undo(Command::ClearLines(c), m, d);
}

/// After scanning `n` rows, the grid is the non-full rows among them, then the
/// rows not yet scanned, then one empty row for each row removed.
pub proof fn lemma_scan_rows(g: Seq<Seq<bool>>, w: int, n: nat)
    requires
        n <= g.len(),
    ensures
        kept_rows(g, w, n).len() <= n,
        scan(g, w, n).2 == kept_rows(g, w, n).len(),
        scan(g, w, n).0 == kept_rows(g, w, n) + g.subrange(n as int, g.len() as int) + empty_rows(
            n - kept_rows(g, w, n).len(),
            w,
        ),
    decreases n,
{
    if n == 0 {
        assert(g.subrange(0, g.len() as int) =~= g);
        assert(kept_rows(g, w, 0) + g + empty_rows(0, w) =~= g);
    } else {
        let m = (n - 1) as nat;
        lemma_scan_rows(g, w, m);
        let k = kept_rows(g, w, m);
        let rest = g.subrange(m as int, g.len() as int);
        let e = empty_rows(m - k.len(), w);
        let g1 = scan(g, w, m).0;
        let pos = k.len() as int;
        assert(g1[pos] == g[m as int]);
        let rest2 = g.subrange(n as int, g.len() as int);
        if full(g[m as int], w) {
            assert(g1.remove(pos).push(empty_row(w)) =~= k + rest2 + empty_rows(n - k.len(), w));
        } else {
            assert(g1 =~= k.push(g[m as int]) + rest2 + e);
        }
    }
}

/// Clearing lines leaves the rows that were not full, in order, with empty rows on top.
pub proof fn lemma_cleared_rows(m: GameModel)
    requires
        m.board.wf(),
    ensures
        cleared(m).board.grid == kept_rows(m.board.grid, m.board.width, m.board.height as nat) + empty_rows(
            m.board.height - kept_rows(m.board.grid, m.board.width, m.board.height as nat).len(),
            m.board.width,
        ),
{
    let g = m.board.grid;
    lemma_scan_rows(g, m.board.width, m.board.height as nat);
    assert(g.subrange(m.board.height, g.len() as int) =~= Seq::<Seq<bool>>::empty());
    let k = kept_rows(g, m.board.width, m.board.height as nat);
    assert(k + Seq::<Seq<bool>>::empty() =~= k);
}

} // verus!
