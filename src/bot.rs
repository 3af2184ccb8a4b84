//! The search engine: reachable resting placements, lookahead and scoring.
use vstd::prelude::*;
use vstd::set_lib::{lemma_int_range, lemma_len_subset, set_int_range};
use crate::board::{Board, BoardModel, MAX_DIM};
use crate::control::{copy_seq, exec_seq, Command, PieceMove, PieceRotate, SoftDrop, Hold, HardDrop, PlacementActions, duplicate_placement, held, hard_dropped, lemma_hard_drop, lemma_hard_drop_runs};
use crate::reversal::{lemma_execute_undo, lemma_undo_congruent, lemma_same_trans, lemma_same_refl};
use crate::game::{Game, GameModel};
use crate::piece::{Placement, NUM_PIECES};
use crate::queue::{lemma_same_upcoming_steps, lemma_next_push, lemma_model_upcoming_bounded, stream, LCG_M};

verus! {

/// Where a placement of piece type `t` sits among all placements of that type on an `h` by `w` board.
pub open spec fn box_index(p: Placement, h: int, w: int) -> int {
    (p.rotation_state * h + p.row) * w + p.col
}

/// `p` is a placement of type `t` with its pivot on an `h` by `w` board.
pub open spec fn in_box(p: Placement, t: usize, h: int, w: int) -> bool {
    &&& p.piece_type == t
    &&& p.rotation_state < 4
    &&& 0 <= p.row < h
    &&& 0 <= p.col < w
}

proof fn lemma_box_index(p: Placement, q: Placement, t: usize, h: int, w: int)
    requires
        in_box(p, t, h, w),
        in_box(q, t, h, w),
    ensures
        0 <= box_index(p, h, w) < 4 * h * w,
        box_index(p, h, w) == box_index(q, h, w) ==> p == q,
{
    let a = p.rotation_state * h + p.row;
    let b = q.rotation_state * h + q.row;
    assert(0 <= a < 4 * h) by (nonlinear_arith)
        requires a == p.rotation_state * h + p.row, 0 <= p.rotation_state < 4, 0 <= p.row < h;
    assert(0 <= b < 4 * h) by (nonlinear_arith)
        requires b == q.rotation_state * h + q.row, 0 <= q.rotation_state < 4, 0 <= q.row < h;
    assert(0 <= a * w + p.col < 4 * h * w) by (nonlinear_arith)
        requires 0 <= a < 4 * h, 0 <= p.col < w;
    if a * w + p.col == b * w + q.col {
        assert(a == b && p.col == q.col) by (nonlinear_arith)
            requires a * w + p.col == b * w + q.col, 0 <= p.col < w, 0 <= q.col < w, 0 <= a, 0 <= b;
        assert(p.rotation_state == q.rotation_state && p.row == q.row) by (nonlinear_arith)
            requires p.rotation_state * h + p.row == q.rotation_state * h + q.row,
                0 <= p.row < h, 0 <= q.row < h, 0 <= p.rotation_state, 0 <= q.rotation_state;
    }
}

/// Distinct placements of one piece type with their pivots on the board number at most `4 * h * w`.
pub proof fn lemma_box_count(s: Seq<Placement>, t: usize, h: int, w: int)
    requires
        h >= 0,
        w >= 0,
        forall|i: int| 0 <= i < s.len() ==> in_box(#[trigger] s[i], t, h, w),
        forall|i: int, j: int| 0 <= i < j < s.len() ==> s[i] != s[j],
    ensures
        s.len() <= 4 * h * w,
{
    let keys = s.map_values(|p: Placement| box_index(p, h, w));
    assert forall|i: int, j: int| 0 <= i < keys.len() && 0 <= j < keys.len() && i != j implies keys[i] != keys[j] by {
        lemma_box_index(s[i], s[j], t, h, w);
        if i < j {
            assert(s[i] != s[j]);
        } else {
            assert(s[j] != s[i]);
        }
    }
    assert(keys.no_duplicates());
    keys.unique_seq_to_set();
    assert(4 * h * w >= 0) by (nonlinear_arith)
        requires h >= 0, w >= 0;
    lemma_int_range(0, 4 * h * w);
    assert forall|k: int| keys.to_set().contains(k) implies set_int_range(0, 4 * h * w).contains(k) by {
        let i = choose|i: int| 0 <= i < keys.len() && keys[i] == k;
        lemma_box_index(s[i], s[i], t, h, w);
    }
    lemma_len_subset(keys.to_set(), set_int_range(0, 4 * h * w));
}


/// Points for cell `k` of `p`: 10 where it covers an occupied target cell in `row`, else -20.
pub open spec fn cell_score(target: BoardModel, p: Placement, k: int, row: int) -> int {
    if target.occupied(p.cell(k).0, p.cell(k).1) && p.cell(k).0 == row {
        10
    } else {
        -20
    }
}

/// The score of `p` against the occupied cells of row `row` of `target`.
pub open spec fn score_of(target: BoardModel, p: Placement, row: int) -> int {
    cell_score(target, p, 0, row) + cell_score(target, p, 1, row) + cell_score(target, p, 2, row)
        + cell_score(target, p, 3, row)
}

pub open spec fn score_prefix(target: BoardModel, p: Placement, row: int, k: int) -> int
    decreases k,
{
    if k <= 0 {
        0
    } else {
        score_prefix(target, p, row, k - 1) + cell_score(target, p, k - 1, row)
    }
}

/// Scores `piece` against row `row` of a target board: each of its cells earns
/// 10 where it covers an occupied target cell in that row, and loses 20 elsewhere.
pub fn score(piece: &Placement, board: &Board, row: i8) -> (r: i8)
    requires
        piece.wf(),
        board.wf(),
    ensures
        r == score_of(board@, *piece, row as int),
{
    let locations = piece.rel_locations();
    let mut out: i8 = 0;
    let mut k: usize = 0;
    while k < 4
        invariant
            piece.wf(),
            board.wf(),
            k <= 4,
            forall|j: int|
                0 <= j < 4 ==> crate::piece::pt_int(#[trigger] locations[j]) == crate::piece::rel_cell(
                    piece.piece_type as int,
                    piece.rotation_state as int,
                    j,
                ),
            forall|j: int| 0 <= j < 4 ==> -2 <= (#[trigger] locations[j]).0 <= 2 && -2 <= locations[j].1 <= 2,
            out == score_prefix(board@, *piece, row as int, k as int),
            -20 * k <= out <= 10 * k,
        decreases 4 - k,
    {
        let (dy, dx) = locations[k];
        let y: i16 = dy as i16 + piece.row as i16;
        let x: i16 = dx as i16 + piece.col as i16;
        assert(crate::piece::pt_int(locations[k as int]) == crate::piece::rel_cell(
            piece.piece_type as int,
            piece.rotation_state as int,
            k as int,
        ));
        assert(y == piece.cell(k as int).0 && x == piece.cell(k as int).1);
        if y >= 0 && x >= 0 && board.get(y as usize, x as usize) && row as i16 == y {
            out = out + 10;
        } else {
            out = out - 20;
        }
        k = k + 1;
    }
    proof {
        reveal_with_fuel(score_prefix, 5);
    }
    assert(score_prefix(board@, *piece, row as int, 4) == score_of(board@, *piece, row as int));
    out
}

/// The five single actions tried from a placement: left, right, and turns by 1, 2 and 3.
pub open spec fn step(b: BoardModel, p: Placement, k: int) -> Option<Placement> {
    if k == 0 {
        b.moved(p, 0, -1)
    } else if k == 1 {
        b.moved(p, 0, 1)
    } else {
        b.rotated(p, k - 1)
    }
}

/// The resting placement reached by action `k` and a drop, if the action fits.
pub open spec fn successor(b: BoardModel, p: Placement, k: int) -> Option<Placement> {
    match step(b, p, k) {
        Some(q) => Some(b.dropped(q)),
        None => None,
    }
}

/// `p` slid `n` columns in direction `dx`, one column at a time, if every step fits.
pub open spec fn slid(b: BoardModel, p: Placement, dx: int, n: nat) -> Option<Placement>
    decreases n,
{
    if n == 0 {
        Some(p)
    } else {
        match slid(b, p, dx, (n - 1) as nat) {
            Some(q) => b.moved(q, 0, dx),
            None => None,
        }
    }
}

/// Where `p` comes to rest after `r` quarter turns (none for 0) and a drop, if the turn fits.
pub open spec fn landing(b: BoardModel, p: Placement, r: int) -> Option<Placement> {
    if r == 0 {
        Some(b.dropped(p))
    } else {
        match b.rotated(p, r) {
            Some(q) => Some(b.dropped(q)),
            None => None,
        }
    }
}

/// `cs` is a copy of `base`, then `mid`, then a fresh soft drop.
pub open spec fn extends(base: Seq<Command>, cs: Seq<Command>, mid: Seq<Command>) -> bool {
    &&& cs.len() == base.len() + mid.len() + 1
    &&& copy_seq(base, cs.take(base.len() as int))
    &&& cs.subrange(base.len() as int, (base.len() + mid.len()) as int) == mid
    &&& cs.last() == Command::SoftDrop(SoftDrop { distance: 0 })
}

/// A fresh move by one column in direction `dx`.
pub open spec fn move_cmd(dx: int) -> Command {
    Command::PieceMove(PieceMove { moved: false, dy: 0, dx: dx as i8 })
}

/// A fresh turn by `r` quarter turns.
pub open spec fn turn_cmd(r: int) -> Command {
    Command::PieceRotate(
        PieceRotate { direction: r as usize, before: Placement { piece_type: 0, rotation_state: 0, row: 0, col: 0 } },
    )
}

/// `n` moves in direction `dx`, then a turn by `r` (none for 0).
pub open spec fn sweep_cmds(dx: int, n: nat, r: int) -> Seq<Command> {
    Seq::new(n, |i: int| move_cmd(dx)) + if r == 0 {
        Seq::<Command>::empty()
    } else {
        seq![turn_cmd(r)]
    }
}

/// The fresh command for single action `k`: left, right, or a turn by `k - 1`.
pub open spec fn step_cmd(k: int) -> Command {
    if k == 0 {
        move_cmd(-1)
    } else if k == 1 {
        move_cmd(1)
    } else {
        turn_cmd(k - 1)
    }
}

/// `e` lands where `p`, reached by `base` then `n` moves in direction `dx`,
/// comes to rest after some turn and a drop, and its commands say so.
pub open spec fn landing_entry(b: BoardModel, p: Placement, base: Seq<Command>, dx: int, n: nat, e: PlacementActions) -> bool {
    exists|r: int|
        0 <= r < 4 && #[trigger] landing(b, p, r) == Some(e.placement) && extends(base, e.batch.commands@, sweep_cmds(dx, n, r))
}

/// `e` is a sweep result from `start`, with `base` then the sweep's moves,
/// turn and drop as its commands.
pub open spec fn sweep_entry(b: BoardModel, start: Placement, base: Seq<Command>, e: PlacementActions) -> bool {
    exists|dx: int, n: nat, r: int|
        (dx == -1 || dx == 1) && 0 <= r < 4 && #[trigger] sweep_landing(b, start, dx, n, r) == Some(e.placement)
            && extends(base, e.batch.commands@, sweep_cmds(dx, n, r))
}

/// `e` is reached from `base` by single action `k` and a drop, with `base`'s
/// commands, that action and a drop as its commands.
pub open spec fn successor_entry(b: BoardModel, base: PlacementActions, e: PlacementActions) -> bool {
    exists|k: int|
        0 <= k < 5 && #[trigger] successor(b, base.placement, k) == Some(e.placement) && extends(
            base.batch.commands@,
            e.batch.commands@,
            seq![step_cmd(k)],
        )
}

/// The command sequence starts with a hold.
pub open spec fn starts_with_hold(cs: Seq<Command>) -> bool {
    cs.len() > 0 && cs[0] is Hold
}

pub proof fn lemma_copy_seq_index(cs: Seq<Command>, ds: Seq<Command>, i: int)
    requires
        copy_seq(cs, ds),
        0 <= i < cs.len(),
    ensures
        ds.len() == cs.len(),
        cs[i].copy_of(ds[i]),
    decreases cs.len(),
{
    if i < cs.len() - 1 {
        lemma_copy_seq_index(cs.drop_last(), ds.drop_last(), i);
    }
}

/// A copy starts with a hold exactly when the sequence it copies does.
pub proof fn lemma_copy_seq_hold(cs: Seq<Command>, ds: Seq<Command>)
    requires
        copy_seq(cs, ds),
    ensures
        starts_with_hold(ds) == starts_with_hold(cs),
{
    if cs.len() > 0 {
        lemma_copy_seq_index(cs, ds, 0);
        assert(cs[0].copy_of(ds[0]));
    }
}

/// Commands built on `base` with a middle free of holds start with a hold exactly when `base` does.
pub proof fn lemma_extends_hold(base: Seq<Command>, cs: Seq<Command>, mid: Seq<Command>)
    requires
        extends(base, cs, mid),
        forall|i: int| 0 <= i < mid.len() ==> !(#[trigger] mid[i] is Hold),
    ensures
        starts_with_hold(cs) == starts_with_hold(base),
{
    let n = base.len() as int;
    if n > 0 {
        lemma_copy_seq_hold(base, cs.take(n));
        assert(cs.take(n)[0] == cs[0]);
    } else if mid.len() > 0 {
        assert(cs.subrange(n, n + mid.len())[0] == cs[0]);
    } else {
        assert(cs[0] == cs.last());
    }
}

/// `q` is where `p` comes to rest after some number of quarter turns and a drop.
pub open spec fn is_landing_of(b: BoardModel, p: Placement, q: Placement) -> bool {
    exists|r: int| 0 <= r < 4 && #[trigger] landing(b, p, r) == Some(q)
}

/// Where the sweep from `start` lands after sliding `n` columns in direction `dx` and turning `r` times.
pub open spec fn sweep_landing(b: BoardModel, start: Placement, dx: int, n: nat, r: int) -> Option<Placement> {
    match slid(b, start, dx, n) {
        Some(p) => landing(b, p, r),
        None => None,
    }
}

/// `q` is a legal resting placement found by the sweep from `start`.
pub open spec fn is_seed(b: BoardModel, start: Placement, q: Placement) -> bool {
    exists|dx: int, n: nat, r: int|
        (dx == -1 || dx == 1) && 0 <= r < 4 && #[trigger] sweep_landing(b, start, dx, n, r) == Some(q)
            && b.valid_placement(q)
}

/// The resting placements derived from the sweep from `start` by at most `n`
/// single actions, each followed by a drop.
pub open spec fn reach(b: BoardModel, start: Placement, n: nat) -> Set<Placement>
    decreases n,
{
    if n == 0 {
        Set::new(|q: Placement| is_seed(b, start, q))
    } else {
        let prev = reach(b, start, (n - 1) as nat);
        Set::new(
            |q: Placement|
                prev.contains(q) || (b.valid_placement(q) && exists|p: Placement, k: int|
                    prev.contains(p) && 0 <= k < 5 && #[trigger] successor(b, p, k) == Some(q)),
        )
    }
}

/// `q` is a resting placement reachable from `start`: found by the sweep, or
/// derived from one by single actions, each followed by a drop.
pub open spec fn reachable(b: BoardModel, start: Placement, q: Placement) -> bool {
    exists|n: nat| #[trigger] reach(b, start, n).contains(q)
}

/// Every sweep result from `start` is in `used`.
pub open spec fn seeds_in(b: BoardModel, start: Placement, used: Seq<PlacementActions>) -> bool {
    forall|dx: int, n: nat, r: int|
        (dx == -1 || dx == 1) && 0 <= r < 4 ==> match #[trigger] sweep_landing(b, start, dx, n, r) {
            Some(q) => b.valid_placement(q) ==> has_placement(used, q),
            None => true,
        }
}

/// A set holding the sweep results and closed under single actions holds everything reachable.
pub proof fn lemma_reach_in(b: BoardModel, start: Placement, used: Seq<PlacementActions>, n: nat)
    requires
        seeds_in(b, start, used),
        closed(b, used),
    ensures
        forall|q: Placement| #[trigger] reach(b, start, n).contains(q) ==> has_placement(used, q),
    decreases n,
{
    if n == 0 {
        assert forall|q: Placement| #[trigger] reach(b, start, n).contains(q) implies has_placement(used, q) by {
            let (dx, m, r) = choose|dx: int, m: nat, r: int|
                (dx == -1 || dx == 1) && 0 <= r < 4 && #[trigger] sweep_landing(b, start, dx, m, r) == Some(q)
                    && b.valid_placement(q);
            assert(sweep_landing(b, start, dx, m, r) == Some(q));
        }
    } else {
        lemma_reach_in(b, start, used, (n - 1) as nat);
        let prev = reach(b, start, (n - 1) as nat);
        assert forall|q: Placement| #[trigger] reach(b, start, n).contains(q) implies has_placement(used, q) by {
            if !prev.contains(q) {
                let (p, k) = choose|p: Placement, k: int|
                    prev.contains(p) && 0 <= k < 5 && #[trigger] successor(b, p, k) == Some(q);
                assert(has_placement(used, p));
                let i = choose|i: int| 0 <= i < used.len() && (#[trigger] used[i]).placement == p;
                assert(successor(b, used[i].placement, k) == Some(q));
            }
        }
    }
}

/// A successor of a placement reachable in `n` steps is reachable in `n + 1`.
pub proof fn lemma_reach_step(b: BoardModel, start: Placement, n: nat, p: Placement, k: int, q: Placement)
    requires
        reach(b, start, n).contains(p),
        0 <= k < 5,
        successor(b, p, k) == Some(q),
        b.valid_placement(q),
    ensures
        reach(b, start, n + 1).contains(q),
{
    assert(reach(b, start, (n + 1) as nat) == Set::new(
        |x: Placement|
            reach(b, start, n).contains(x) || (b.valid_placement(x) && exists|y: Placement, j: int|
                reach(b, start, n).contains(y) && 0 <= j < 5 && #[trigger] successor(b, y, j) == Some(x)),
    ));
}

/// Sliding stops for good once a step does not fit.
pub proof fn lemma_slid_stops(b: BoardModel, p: Placement, dx: int, j: nat, n: nat)
    requires
        slid(b, p, dx, j).is_none(),
        j <= n,
    ensures
        slid(b, p, dx, n).is_none(),
    decreases n - j,
{
    if j < n {
        lemma_slid_stops(b, p, dx, j, (n - 1) as nat);
    }
}

/// What one more column of the sweep adds keeps the sweep's bookkeeping.
proof fn lemma_sweep_step(
    b: BoardModel,
    start: Placement,
    dx: int,
    side: int,
    j: nat,
    p: Placement,
    base_len: int,
    prev: Seq<PlacementActions>,
    used: Seq<PlacementActions>,
)
    requires
        dx == (if side == 0 { -1int } else { 1 }),
        0 <= side < 2,
        slid(b, start, dx, j + 1) == Some(p),
        grows(prev, used),
        search_ok(b, used),
        forall|r: int| 0 <= r < 4 ==> match #[trigger] landing(b, p, r) {
            Some(q) => b.valid_placement(q) ==> has_placement(used, q),
            None => true,
        },
        forall|i: int| prev.len() <= i < used.len() ==> is_landing_of(b, p, (#[trigger] used[i]).placement),
        forall|n: nat, r: int| n <= j && 0 <= r < 4 ==> match #[trigger] sweep_landing(b, start, dx, n, r) {
            Some(q) => b.valid_placement(q) ==> has_placement(prev, q),
            None => true,
        },
        forall|d: int, n: nat, r: int|
            ((d == -1 && side >= 1) || (d == 1 && side >= 2)) && 0 <= r < 4 ==> match #[trigger] sweep_landing(b, start, d, n, r) {
                Some(q) => b.valid_placement(q) ==> has_placement(prev, q),
                None => true,
            },
        forall|i: int| base_len <= i < prev.len() ==> is_seed(b, start, (#[trigger] prev[i]).placement),
        0 <= base_len <= prev.len(),
    ensures
        forall|n: nat, r: int| n <= j + 1 && 0 <= r < 4 ==> match #[trigger] sweep_landing(b, start, dx, n, r) {
            Some(q) => b.valid_placement(q) ==> has_placement(used, q),
            None => true,
        },
        forall|d: int, n: nat, r: int|
            ((d == -1 && side >= 1) || (d == 1 && side >= 2)) && 0 <= r < 4 ==> match #[trigger] sweep_landing(b, start, d, n, r) {
                Some(q) => b.valid_placement(q) ==> has_placement(used, q),
                None => true,
            },
        forall|i: int| base_len <= i < used.len() ==> is_seed(b, start, (#[trigger] used[i]).placement),
{
    assert forall|n: nat, r: int| n <= j + 1 && 0 <= r < 4 implies match #[trigger] sweep_landing(b, start, dx, n, r) {
        Some(q) => b.valid_placement(q) ==> has_placement(used, q),
        None => true,
    } by {
        if n <= j {
            if let Some(q) = sweep_landing(b, start, dx, n, r) {
                if b.valid_placement(q) {
                    lemma_grows_has(prev, used, q);
                }
            }
        } else {
            assert(sweep_landing(b, start, dx, n, r) == landing(b, p, r));
        }
    }
    assert forall|d: int, n: nat, r: int|
        ((d == -1 && side >= 1) || (d == 1 && side >= 2)) && 0 <= r < 4 implies match #[trigger] sweep_landing(b, start, d, n, r) {
            Some(q) => b.valid_placement(q) ==> has_placement(used, q),
            None => true,
        } by {
        if let Some(q) = sweep_landing(b, start, d, n, r) {
            if b.valid_placement(q) {
                lemma_grows_has(prev, used, q);
            }
        }
    }
    assert forall|i: int| base_len <= i < used.len() implies is_seed(b, start, (#[trigger] used[i]).placement) by {
        if i < prev.len() {
            assert(used[i] == prev[i]);
        } else {
            let r = choose|r: int| 0 <= r < 4 && #[trigger] landing(b, p, r) == Some(used[i].placement);
            assert(sweep_landing(b, start, dx, j + 1, r) == Some(used[i].placement));
        }
    }
}

/// Some element of `used` leads to `p`.
pub open spec fn has_placement(used: Seq<PlacementActions>, p: Placement) -> bool {
    exists|i: int| 0 <= i < used.len() && (#[trigger] used[i]).placement == p
}

/// Every element leads to a distinct legal resting placement.
pub open spec fn search_ok(b: BoardModel, used: Seq<PlacementActions>) -> bool {
    &&& forall|i: int| 0 <= i < used.len() ==> (#[trigger] used[i]).placement.wf()
        && b.valid_placement(used[i].placement)
    &&& forall|i: int, j: int| 0 <= i < j < used.len() ==> used[i].placement != used[j].placement
}

/// Every element is of piece type `t`.
pub open spec fn all_of_type(used: Seq<PlacementActions>, t: usize) -> bool {
    forall|i: int| 0 <= i < used.len() ==> (#[trigger] used[i]).placement.piece_type == t
}

/// No single action and drop from a placement in `used` leads to a resting placement outside it.
pub open spec fn closed(b: BoardModel, used: Seq<PlacementActions>) -> bool {
    forall|i: int, k: int|
        0 <= i < used.len() && 0 <= k < 5 ==> match #[trigger] successor(b, used[i].placement, k) {
            Some(q) => b.valid_placement(q) ==> has_placement(used, q),
            None => true,
        }
}

/// `new` keeps the elements of `old` in front.
pub open spec fn grows(old: Seq<PlacementActions>, new: Seq<PlacementActions>) -> bool {
    &&& old.len() <= new.len()
    &&& forall|i: int| 0 <= i < old.len() ==> new[i] == old[i]
}

pub proof fn lemma_grows_has(old: Seq<PlacementActions>, new: Seq<PlacementActions>, p: Placement)
    requires
        grows(old, new),
        has_placement(old, p),
    ensures
        has_placement(new, p),
{
    let i = choose|i: int| 0 <= i < old.len() && (#[trigger] old[i]).placement == p;
    assert(new[i] == old[i]);
}

pub proof fn lemma_grows_trans(a: Seq<PlacementActions>, b: Seq<PlacementActions>, c: Seq<PlacementActions>)
    requires
        grows(a, b),
        grows(b, c),
    ensures
        grows(a, c),
{
}

/// A valid search list has at most one element per placement on the board.
pub proof fn lemma_search_bound(b: BoardModel, used: Seq<PlacementActions>, t: usize)
    requires
        b.wf(),
        search_ok(b, used),
        all_of_type(used, t),
    ensures
        used.len() <= 4 * b.height * b.width,
{
    let s = used.map_values(|a: PlacementActions| a.placement);
    assert forall|i: int| 0 <= i < s.len() implies in_box(#[trigger] s[i], t, b.height, b.width) by {
        assert(s[i] == used[i].placement);
        b.lemma_fits_pivot(used[i].placement, 0, 0);
    }
    assert forall|i: int, j: int| 0 <= i < j < s.len() implies s[i] != s[j] by {
        assert(s[i] == used[i].placement);
        assert(s[j] == used[j].placement);
    }
    lemma_box_count(s, t, b.height, b.width);
}

pub proof fn lemma_same_with_active(x: GameModel, y: GameModel, p: Placement)
    requires
        x.same_state(y),
    ensures
        x.with_active(p).same_state(y.with_active(p)),
{
}

/// Undoing a hold from a game like the one it produced, whatever its active
/// piece, and then putting the old active piece back restores the game.
pub proof fn lemma_hold_restore(m: GameModel, c: Command, d: Command, x: GameModel, p: Placement)
    requires
        m.wf(),
        c is Hold,
        c.recorded(m, d),
        x.same_state(c.exec_game(m).with_active(p)),
    ensures
        d.can_undo(x),
        d.undo_game(x).with_active(m.active).same_state(m),
{
    let m2 = m.with_active(m.spawned(m.active.piece_type));
    assert(c.exec_game(m) == held(m));
    assert(c.exec_game(m2) == held(m2));
    assert(held(m) == held(m2));
    assert(c.recorded(m2, d));
    lemma_execute_undo(c, m2, d);
    let e = c.exec_game(m2);
    lemma_undo_congruent(d, x, e.with_active(p));
    assert(d.undo_game(e.with_active(p)) == d.undo_game(e));
    lemma_same_trans(d.undo_game(x), d.undo_game(e), m2);
    lemma_same_with_active(d.undo_game(x), m2, m.active);
    assert(m2.with_active(m.active) == m);
}

/// Search is determined by the game: on games with the same board, active
/// piece, held piece and pieces to come, any two search results hold the same
/// placements.
pub proof fn lemma_search_deterministic(
    g1: GameModel,
    g2: GameModel,
    r1: Seq<PlacementActions>,
    r2: Seq<PlacementActions>,
)
    requires
        g1.same_state(g2),
        forall|q: Placement| #[trigger] has_placement(r1, q) <==> reachable(g1.board, g1.active, q) || reachable(
            g1.board,
            g1.spawned(g1.hold_incoming()),
            q,
        ),
        forall|q: Placement| #[trigger] has_placement(r2, q) <==> reachable(g2.board, g2.active, q) || reachable(
            g2.board,
            g2.spawned(g2.hold_incoming()),
            q,
        ),
    ensures
        forall|q: Placement| #[trigger] has_placement(r1, q) <==> has_placement(r2, q),
{
    assert(g1.queue.upcoming(0) == g2.queue.upcoming(0));
    assert(g1.hold_incoming() == g2.hold_incoming());
}

/// `n` fresh moves in direction `dx`, then a fresh turn by `turn` (none for 0).
fn sweep_commands(dx: i8, n: usize, turn: usize) -> (r: Vec<Command>)
    requires
        turn < 4,
    ensures
        r@ == sweep_cmds(dx as int, n as nat, turn as int),
{
    let mut out: Vec<Command> = Vec::new();
    let mut i: usize = 0;
    while i < n
        invariant
            i <= n,
            out@ == Seq::new(i as nat, |j: int| move_cmd(dx as int)),
        decreases n - i,
    {
        out.push(Command::PieceMove(PieceMove::new(0, dx)));
        i = i + 1;
        assert(out@ =~= Seq::new(i as nat, |j: int| move_cmd(dx as int)));
    }
    if turn > 0 {
        out.push(Command::PieceRotate(PieceRotate::new(turn)));
    }
    assert(out@ =~= sweep_cmds(dx as int, n as nat, turn as int));
    out
}

/// A copy of a command executes as the command does.
pub proof fn lemma_copy_exec(c: Command, d: Command, m: GameModel)
    requires
        c.copy_of(d),
    ensures
        d.exec_game(m) == c.exec_game(m),
    decreases c, 0int,
{
    match c {
        Command::Batch(b) => {
            let db = match d { Command::Batch(x) => x, _ => arbitrary() };
            lemma_copy_exec_seq(b.commands@, db.commands@, m);
        },
        Command::HardDrop(h) => {
            let dh = match d { Command::HardDrop(x) => x, _ => arbitrary() };
            lemma_copy_exec_seq(h.batch.commands@, dh.batch.commands@, m);
        },
        Command::PlacementActions(a) => {
            let da = match d { Command::PlacementActions(x) => x, _ => arbitrary() };
            lemma_copy_exec_seq(a.batch.commands@, da.batch.commands@, m);
        },
        _ => {},
    }
}

pub proof fn lemma_copy_exec_seq(cs: Seq<Command>, ds: Seq<Command>, m: GameModel)
    requires
        copy_seq(cs, ds),
    ensures
        exec_seq(ds, m) == exec_seq(cs, m),
    decreases cs, 1int,
{
    if cs.len() > 0 {
        lemma_copy_exec_seq(cs.drop_last(), ds.drop_last(), m);
        lemma_copy_exec(cs.last(), ds.last(), exec_seq(cs.drop_last(), m));
    }
}

/// Executing `a + b` executes `a`, then `b`.
pub proof fn lemma_exec_concat(a: Seq<Command>, b: Seq<Command>, m: GameModel)
    ensures
        exec_seq(a + b, m) == exec_seq(b, exec_seq(a, m)),
    decreases b.len(),
{
    if b.len() == 0 {
        assert(a + b =~= a);
    } else {
        lemma_exec_concat(a, b.drop_last(), m);
        assert((a + b).drop_last() =~= a + b.drop_last());
        assert((a + b).last() == b.last());
    }
}

/// `n` moves in direction `dx` slide the active piece as `slid` says.
pub proof fn lemma_exec_moves(m: GameModel, dx: int, n: nat, p: Placement)
    requires
        dx == -1 || dx == 1,
        slid(m.board, m.active, dx, n) == Some(p),
    ensures
        exec_seq(Seq::new(n, |i: int| move_cmd(dx)), m) == m.with_active(p),
    decreases n,
{
    if n == 0 {
        assert(m.with_active(m.active) == m);
    } else {
        let q = slid(m.board, m.active, dx, (n - 1) as nat)->0;
        lemma_exec_moves(m, dx, (n - 1) as nat, q);
        let moves = Seq::new(n, |i: int| move_cmd(dx));
        assert(moves.drop_last() =~= Seq::new((n - 1) as nat, |i: int| move_cmd(dx)));
        assert(moves.last() == move_cmd(dx));
        assert(exec_seq(moves, m) == move_cmd(dx).exec_game(exec_seq(moves.drop_last(), m)));
        assert((dx as i8) as int == dx);
        assert(m.with_active(q).active == q);
        assert(m.with_active(q).with_active(p) == m.with_active(p));
    }
}

/// Commands built on `base` execute as `base`, then `mid`, then a drop.
pub proof fn lemma_exec_extends(base: Seq<Command>, cs: Seq<Command>, mid: Seq<Command>, m: GameModel)
    requires
        extends(base, cs, mid),
    ensures
        exec_seq(cs, m) == Command::SoftDrop(SoftDrop { distance: 0 }).exec_game(exec_seq(mid, exec_seq(base, m))),
{
    let n = base.len() as int;
    let pre = cs.take(n);
    assert(cs =~= pre + mid + seq![cs.last()]);
    lemma_exec_concat(pre + mid, seq![cs.last()], m);
    lemma_exec_concat(pre, mid, m);
    lemma_copy_exec_seq(base, pre, m);
    assert(exec_seq(seq![cs.last()], exec_seq(pre + mid, m)) == cs.last().exec_game(exec_seq(Seq::<Command>::empty(), exec_seq(pre + mid, m)))) by {
        assert(seq![cs.last()].drop_last() =~= Seq::<Command>::empty());
    }
}

/// Replaying `e`'s commands from `m0` gives `ms` with `e`'s placement active.
pub open spec fn replays(m0: GameModel, ms: GameModel, e: PlacementActions) -> bool {
    exec_seq(e.batch.commands@, m0) == ms.with_active(e.placement)
}

/// A sweep entry replays, given that its base leads to the sweep's start.
pub proof fn lemma_sweep_replays(m0: GameModel, ms: GameModel, base: Seq<Command>, e: PlacementActions)
    requires
        exec_seq(base, m0) == ms,
        sweep_entry(ms.board, ms.active, base, e),
    ensures
        replays(m0, ms, e),
{
    let b = ms.board;
    let (dx, n, r) = choose|dx: int, n: nat, r: int|
        (dx == -1 || dx == 1) && 0 <= r < 4 && #[trigger] sweep_landing(b, ms.active, dx, n, r) == Some(e.placement)
            && extends(base, e.batch.commands@, sweep_cmds(dx, n, r));
    let p = slid(b, ms.active, dx, n)->0;
    lemma_exec_moves(ms, dx, n, p);
    let moves = Seq::new(n, |i: int| move_cmd(dx));
    let turn = if r == 0 { Seq::<Command>::empty() } else { seq![turn_cmd(r)] };
    lemma_exec_concat(moves, turn, ms);
    lemma_exec_extends(base, e.batch.commands@, sweep_cmds(dx, n, r), m0);
    let mp = ms.with_active(p);
    if r == 0 {
        assert(exec_seq(turn, mp) == mp);
    } else {
        assert(turn.drop_last() =~= Seq::<Command>::empty());
        assert(exec_seq(Seq::<Command>::empty(), mp) == mp);
        assert(exec_seq(turn, mp) == turn_cmd(r).exec_game(exec_seq(turn.drop_last(), mp)));
    }
}

/// An entry one action and drop beyond a replaying entry replays too.
pub proof fn lemma_successor_replays(m0: GameModel, ms: GameModel, base: PlacementActions, e: PlacementActions)
    requires
        replays(m0, ms, base),
        successor_entry(ms.board, base, e),
    ensures
        replays(m0, ms, e),
{
    let b = ms.board;
    let k = choose|k: int|
        0 <= k < 5 && #[trigger] successor(b, base.placement, k) == Some(e.placement) && extends(
            base.batch.commands@,
            e.batch.commands@,
            seq![step_cmd(k)],
        );
    lemma_exec_extends(base.batch.commands@, e.batch.commands@, seq![step_cmd(k)], m0);
    let mb = ms.with_active(base.placement);
    assert(seq![step_cmd(k)].drop_last() =~= Seq::<Command>::empty());
    assert(exec_seq(Seq::<Command>::empty(), mb) == mb);
    assert(exec_seq(seq![step_cmd(k)], mb) == step_cmd(k).exec_game(exec_seq(seq![step_cmd(k)].drop_last(), mb)));
    if k < 2 {
        assert((if k == 0 { -1int } else { 1int }) as i8 as int == (if k == 0 { -1int } else { 1int }));
    }
}

/// The resting placements a search on `m` finds.
pub open spec fn searched(m: GameModel) -> Set<Placement> {
    Set::new(|q: Placement| reachable(m.board, m.active, q) || reachable(m.board, m.spawned(m.hold_incoming()), q))
}

/// The game after committing placement `p`: holding first when only the
/// held-in piece reaches it, then a hard drop from `p`.
#[verifier::opaque]
pub open spec fn committed(m: GameModel, p: Placement) -> GameModel {
    let m1 = if reachable(m.board, m.active, p) {
        m
    } else {
        held(m)
    };
    hard_dropped(m1.with_active(p))
}

/// The final placements of the sequences of `depth` placements from `m`, each
/// placement but the last committed with a hard drop.
pub open spec fn lookahead(m: GameModel, depth: nat) -> Set<Placement>
    decreases depth, 1int,
{
    if depth <= 1 {
        searched(m)
    } else {
        Set::new(|q: Placement| deeper(m, depth, q))
    }
}

/// `q` ends a sequence of `depth - 1` placements after committing some placement found on `m`.
pub open spec fn deeper(m: GameModel, depth: nat, q: Placement) -> bool
    decreases depth, 0int,
{
    depth > 1 && exists|p: Placement|
        #![trigger searched(m).contains(p)]
        searched(m).contains(p) && lookahead(committed(m, p), (depth - 1) as nat).contains(q)
}

/// `q` ends a lookahead from one of the first `i` placements of `found`, committed on `m`.
pub open spec fn covered(m: GameModel, found: Seq<PlacementActions>, i: int, depth: nat, q: Placement) -> bool {
    exists|j: int|
        0 <= j < i && #[trigger] lookahead(committed(m, found[j].placement), (depth - 1) as nat).contains(q)
}

pub proof fn lemma_advanced_same(m1: GameModel, m2: GameModel)
    requires
        m1.same_state(m2),
    ensures
        crate::control::advanced(m1).same_state(crate::control::advanced(m2)),
        held(m1).same_state(held(m2)),
        hard_dropped(m1).same_state(hard_dropped(m2)),
{
    lemma_same_upcoming_steps(m1.queue, m2.queue, 0);
    let a1 = crate::control::cleared(crate::control::locked(m1.with_active(m1.board.dropped(m1.active))));
    let a2 = crate::control::cleared(crate::control::locked(m2.with_active(m2.board.dropped(m2.active))));
    assert(a1.same_state(a2));
    lemma_same_upcoming_steps(a1.queue, a2.queue, 0);
}

pub proof fn lemma_same_sym(m1: GameModel, m2: GameModel)
    requires
        m1.same_state(m2),
    ensures
        m2.same_state(m1),
{
}

/// Executing a command on games in the same state gives games in the same state.
pub proof fn lemma_exec_same(c: Command, m1: GameModel, m2: GameModel)
    requires
        m1.same_state(m2),
    ensures
        c.exec_game(m1).same_state(c.exec_game(m2)),
    decreases c, 0int,
{
    lemma_advanced_same(m1, m2);
    match c {
        Command::Batch(b) => {
            lemma_exec_same_seq(b.commands@, m1, m2);
        },
        Command::HardDrop(h) => {
            lemma_exec_same_seq(h.batch.commands@, m1, m2);
        },
        Command::PlacementActions(a) => {
            lemma_exec_same_seq(a.batch.commands@, m1, m2);
        },
        _ => {},
    }
}

pub proof fn lemma_exec_same_seq(cs: Seq<Command>, m1: GameModel, m2: GameModel)
    requires
        m1.same_state(m2),
    ensures
        exec_seq(cs, m1).same_state(exec_seq(cs, m2)),
    decreases cs, 1int,
{
    if cs.len() > 0 {
        lemma_exec_same_seq(cs.drop_last(), m1, m2);
        lemma_exec_same(cs.last(), exec_seq(cs.drop_last(), m1), exec_seq(cs.drop_last(), m2));
    }
}

/// Committing a placement on games in the same state gives games in the same state.
pub proof fn lemma_committed_same(m1: GameModel, m2: GameModel, p: Placement)
    requires
        m1.same_state(m2),
    ensures
        committed(m1, p).same_state(committed(m2, p)),
{
    reveal(committed);
    lemma_advanced_same(m1, m2);
    if reachable(m1.board, m1.active, p) {
        lemma_same_with_active(m1, m2, p);
        lemma_advanced_same(m1.with_active(p), m2.with_active(p));
    } else {
        lemma_same_with_active(held(m1), held(m2), p);
        lemma_advanced_same(held(m1).with_active(p), held(m2).with_active(p));
    }
}

/// The lookahead depends on the game only up to its state.
pub proof fn lemma_lookahead_same(m1: GameModel, m2: GameModel, depth: nat)
    requires
        m1.same_state(m2),
    ensures
        lookahead(m1, depth) == lookahead(m2, depth),
    decreases depth,
{
    assert(m1.queue.upcoming(0) == m2.queue.upcoming(0));
    assert(m1.spawned(m1.hold_incoming()) == m2.spawned(m2.hold_incoming()));
    assert(searched(m1) =~= searched(m2));
    if depth > 1 {
        assert forall|q: Placement| lookahead(m1, depth).contains(q) <==> lookahead(m2, depth).contains(q) by {
            assert(lookahead(m1, depth).contains(q) == deeper(m1, depth, q));
            assert(lookahead(m2, depth).contains(q) == deeper(m2, depth, q));
            if deeper(m1, depth, q) {
                let p = choose|p: Placement|
                    #![trigger searched(m1).contains(p)]
                    searched(m1).contains(p) && lookahead(committed(m1, p), (depth - 1) as nat).contains(q);
                lemma_committed_same(m1, m2, p);
                lemma_lookahead_same(committed(m1, p), committed(m2, p), (depth - 1) as nat);
                assert(searched(m2).contains(p));
            }
            if deeper(m2, depth, q) {
                let p = choose|p: Placement|
                    #![trigger searched(m2).contains(p)]
                    searched(m2).contains(p) && lookahead(committed(m2, p), (depth - 1) as nat).contains(q);
                lemma_committed_same(m1, m2, p);
                lemma_lookahead_same(committed(m1, p), committed(m2, p), (depth - 1) as nat);
                assert(searched(m1).contains(p));
            }
        }
        assert(lookahead(m1, depth) =~= lookahead(m2, depth));
    }
}

pub proof fn lemma_has_append(a: Seq<PlacementActions>, b: Seq<PlacementActions>, q: Placement)
    ensures
        has_placement(a + b, q) <==> has_placement(a, q) || has_placement(b, q),
{
    if has_placement(a + b, q) {
        let i = choose|i: int| 0 <= i < (a + b).len() && (#[trigger] (a + b)[i]).placement == q;
        if i >= a.len() {
            assert(b[i - a.len()] == (a + b)[i]);
        }
    }
    if has_placement(a, q) {
        let i = choose|i: int| 0 <= i < a.len() && (#[trigger] a[i]).placement == q;
        assert((a + b)[i] == a[i]);
    }
    if has_placement(b, q) {
        let i = choose|i: int| 0 <= i < b.len() && (#[trigger] b[i]).placement == q;
        assert((a + b)[a.len() + i] == b[i]);
    }
}

fn step_command(k: usize) -> (r: Command)
    requires
        k < 5,
    ensures
        r == step_cmd(k as int),
{
    if k == 0 {
        Command::PieceMove(PieceMove::new(0, -1))
    } else if k == 1 {
        Command::PieceMove(PieceMove::new(0, 1))
    } else {
        Command::PieceRotate(PieceRotate::new(k - 1))
    }
}

pub struct Bot {
    pub game: Game,
    /// The executed commands not yet undone, the most recent last.
    pub stack: Vec<Command>,
}

impl Bot {
    pub open spec fn wf(&self) -> bool {
        self.game.wf()
    }

    pub fn new(height: usize, width: usize, seed: usize) -> (r: Self)
        requires
            height <= MAX_DIM,
            width <= MAX_DIM,
        ensures
            r.wf(),
            r.stack@.len() == 0,
            r.game.board.width == width,
            r.game.board.height == height,
            r.game.board@.grid == Seq::new(height as nat, |i: int| crate::board::empty_row(width as int)),
            r.game.active == crate::game::spawn(stream(seed as int % LCG_M as int, 0), height, width),
            r.game.hold.is_none(),
            forall|i: nat| #[trigger] r.game.queue@.upcoming(i) == stream(seed as int % LCG_M as int, i + 1),
    {
        Self { game: Game::new(height, width, seed), stack: Vec::new() }
    }

    /// Executes `command` and pushes it on the stack.
    pub fn execute(&mut self, command: Command) -> (r: bool)
        requires
            old(self).wf(),
            command.can_execute(old(self).game@),
        ensures
            final(self).wf(),
            final(self).game@ == command.exec_game(old(self).game@),
            r == command.exec_ok(old(self).game@),
            final(self).stack@.len() == old(self).stack@.len() + 1,
            final(self).stack@.drop_last() == old(self).stack@,
            command.recorded(old(self).game@, final(self).stack@.last()),
            command.reversible(old(self).game@) ==> final(self).stack@.last().can_undo(final(self).game@)
                && final(self).stack@.last().undo_game(final(self).game@).same_state(old(self).game@),
    {
        let mut command = command;
        let ghost c0 = command;
        let r = command.execute(&mut self.game);
        proof {
            if c0.reversible(old(self).game@) {
                lemma_execute_undo(c0, old(self).game@, command);
            }
        }
        self.stack.push(command);
        assert(self.stack@.drop_last() =~= old(self).stack@);
        r
    }

    /// Pops the most recent command off the stack and undoes it.
    pub fn undo(&mut self)
        requires
            old(self).wf(),
            old(self).stack@.len() > 0,
            old(self).stack@.last().can_undo(old(self).game@),
        ensures
            final(self).wf(),
            final(self).game@ == old(self).stack@.last().undo_game(old(self).game@),
            final(self).stack@ == old(self).stack@.drop_last(),
    {
        let mut command = self.stack.pop().unwrap();
        command.undo(&mut self.game);
    }

    pub fn move_left(&mut self) -> (r: bool)
        requires
            old(self).wf(),
        ensures
            final(self).wf(),
            r == old(self).game@.board.fits_at(old(self).game.active, 0, -1),
            final(self).game@ == (if r {
                old(self).game@.with_active(old(self).game.active.shifted(0, -1))
            } else {
                old(self).game@
            }),
            final(self).stack@.drop_last() == old(self).stack@,
            final(self).stack@.len() == old(self).stack@.len() + 1,
    {
        self.execute(Command::PieceMove(PieceMove::new(0, -1)))
    }

    pub fn move_right(&mut self) -> (r: bool)
        requires
            old(self).wf(),
        ensures
            final(self).wf(),
            r == old(self).game@.board.fits_at(old(self).game.active, 0, 1),
            final(self).game@ == (if r {
                old(self).game@.with_active(old(self).game.active.shifted(0, 1))
            } else {
                old(self).game@
            }),
            final(self).stack@.drop_last() == old(self).stack@,
            final(self).stack@.len() == old(self).stack@.len() + 1,
    {
        self.execute(Command::PieceMove(PieceMove::new(0, 1)))
    }

    pub fn soft_drop(&mut self) -> (r: bool)
        requires
            old(self).wf(),
        ensures
            final(self).wf(),
            r,
            final(self).game@ == old(self).game@.with_active(old(self).game@.board.dropped(old(self).game.active)),
            final(self).stack@.drop_last() == old(self).stack@,
            final(self).stack@.len() == old(self).stack@.len() + 1,
    {
        self.execute(Command::SoftDrop(SoftDrop::new()))
    }

    fn rotate(&mut self, direction: usize) -> (r: bool)
        requires
            old(self).wf(),
            1 <= direction <= 3,
        ensures
            final(self).wf(),
            r == old(self).game@.board.rotated(old(self).game.active, direction as int).is_some(),
            final(self).game@ == match old(self).game@.board.rotated(old(self).game.active, direction as int) {
                Some(p) => old(self).game@.with_active(p),
                None => old(self).game@,
            },
            final(self).stack@.drop_last() == old(self).stack@,
            final(self).stack@.len() == old(self).stack@.len() + 1,
    {
        self.execute(Command::PieceRotate(PieceRotate::new(direction)))
    }

    pub fn rotate_cw(&mut self) -> (r: bool)
        requires
            old(self).wf(),
        ensures
            final(self).wf(),
            r == old(self).game@.board.rotated(old(self).game.active, 1).is_some(),
            final(self).game@ == match old(self).game@.board.rotated(old(self).game.active, 1) {
                Some(p) => old(self).game@.with_active(p),
                None => old(self).game@,
            },
            final(self).stack@.drop_last() == old(self).stack@,
            final(self).stack@.len() == old(self).stack@.len() + 1,
    {
        self.rotate(1)
    }

    pub fn rotate_180(&mut self) -> (r: bool)
        requires
            old(self).wf(),
        ensures
            final(self).wf(),
            r == old(self).game@.board.rotated(old(self).game.active, 2).is_some(),
            final(self).game@ == match old(self).game@.board.rotated(old(self).game.active, 2) {
                Some(p) => old(self).game@.with_active(p),
                None => old(self).game@,
            },
            final(self).stack@.drop_last() == old(self).stack@,
            final(self).stack@.len() == old(self).stack@.len() + 1,
    {
        self.rotate(2)
    }

    pub fn rotate_ccw(&mut self) -> (r: bool)
        requires
            old(self).wf(),
        ensures
            final(self).wf(),
            r == old(self).game@.board.rotated(old(self).game.active, 3).is_some(),
            final(self).game@ == match old(self).game@.board.rotated(old(self).game.active, 3) {
                Some(p) => old(self).game@.with_active(p),
                None => old(self).game@,
            },
            final(self).stack@.drop_last() == old(self).stack@,
            final(self).stack@.len() == old(self).stack@.len() + 1,
    {
        self.rotate(3)
    }

    /// Drops, locks, clears full rows and takes the next piece, as one undoable step.
    pub fn hard_drop(&mut self) -> (r: bool)
        requires
            old(self).wf(),
            old(self).game@.board.in_bounds_at(old(self).game.active, 0, 0),
        ensures
            final(self).wf(),
            r,
            final(self).game@ == hard_dropped(old(self).game@),
            final(self).stack@.drop_last() == old(self).stack@,
            final(self).stack@.len() == old(self).stack@.len() + 1,
    {
        let h = HardDrop::new();
        proof {
            lemma_hard_drop(h.batch.commands@, self.game@);
            lemma_hard_drop_runs(h.batch.commands@, self.game@);
        }
        self.execute(Command::HardDrop(h))
    }

    /// Sets the active piece's type aside, as one undoable step.
    pub fn hold(&mut self) -> (r: bool)
        requires
            old(self).wf(),
        ensures
            final(self).wf(),
            r,
            final(self).game@ == held(old(self).game@),
            final(self).stack@.drop_last() == old(self).stack@,
            final(self).stack@.len() == old(self).stack@.len() + 1,
    {
        self.execute(Command::Hold(Hold::new()))
    }

    /// Action `k` from `p`, if it fits.
    fn apply_step(&self, p: Placement, k: usize) -> (r: Option<Placement>)
        requires
            self.wf(),
            p.wf(),
            k < 5,
        ensures
            r == step(self.game.board@, p, k as int),
            r matches Some(q) ==> q.wf(),
    {
        let mut q = p;
        let ok = if k == 0 {
            self.game.board.try_move(&mut q, 0, -1)
        } else if k == 1 {
            self.game.board.try_move(&mut q, 0, 1)
        } else {
            self.game.board.try_rotate(&mut q, k - 1)
        };
        if ok {
            Some(q)
        } else {
            None
        }
    }

    /// Adds `base` followed by `first` (if any) and a drop, leading to `q`,
    /// Adds `base`'s commands followed by `mid` and a drop, leading to `q`,
    /// when `q` is a new legal resting placement.
    fn record(&self, base: &PlacementActions, mid: Vec<Command>, q: Placement, used: &mut Vec<PlacementActions>)
        requires
            self.wf(),
            q.wf(),
            search_ok(self.game.board@, old(used)@),
            all_of_type(old(used)@, q.piece_type),
        ensures
            search_ok(self.game.board@, final(used)@),
            all_of_type(final(used)@, q.piece_type),
            grows(old(used)@, final(used)@),
            self.game.board@.valid_placement(q) ==> has_placement(final(used)@, q),
            forall|i: int|
                old(used)@.len() <= i < final(used)@.len() ==> (#[trigger] final(used)@[i]).placement == q
                    && extends(base.batch.commands@, final(used)@[i].batch.commands@, mid@),
    {
        if self.game.board.piece_valid_placement(&q) {
            if !duplicate_placement(used, &q) {
                let mut a = base.duplicate();
                let ghost copied = a.batch.commands@;
                let mut mid = mid;
                let ghost m = mid@;
                a.batch.commands.append(&mut mid);
                a.push(Command::SoftDrop(SoftDrop::new()));
                a.placement = q;
                let ghost n = base.batch.commands@.len() as int;
                assert(a.batch.commands@.take(n) =~= copied);
                assert(a.batch.commands@.subrange(n, n + m.len()) =~= m);
                used.push(a);
                assert(used@[used@.len() - 1].placement == q);
            } else {
                assert(has_placement(used@, q));
            }
        }
    }

    /// Tries the four rotation states at `before` (reached by `base` then `n`
    /// moves in direction `dx`), dropping each.
    fn add_trivial_rotations(
        &self,
        base: &PlacementActions,
        used: &mut Vec<PlacementActions>,
        before: Placement,
        dx: i8,
        n: usize,
    )
        requires
            self.wf(),
            before.wf(),
            search_ok(self.game.board@, old(used)@),
            all_of_type(old(used)@, before.piece_type),
        ensures
            search_ok(self.game.board@, final(used)@),
            all_of_type(final(used)@, before.piece_type),
            grows(old(used)@, final(used)@),
            forall|r: int| 0 <= r < 4 ==> match #[trigger] landing(self.game.board@, before, r) {
                Some(q) => self.game.board@.valid_placement(q) ==> has_placement(final(used)@, q),
                None => true,
            },
            forall|i: int| old(used)@.len() <= i < final(used)@.len() ==> landing_entry(
                self.game.board@,
                before,
                base.batch.commands@,
                dx as int,
                n as nat,
                #[trigger] final(used)@[i],
            ),
    {
        let ghost b = self.game.board@;
        let ghost bc = base.batch.commands@;
        let mut rotation: usize = 0;
        while rotation < 4
            invariant
                self.wf(),
                before.wf(),
                b == self.game.board@,
                bc == base.batch.commands@,
                rotation <= 4,
                search_ok(b, used@),
                all_of_type(used@, before.piece_type),
                grows(old(used)@, used@),
                forall|r: int| 0 <= r < rotation ==> match #[trigger] landing(b, before, r) {
                    Some(q) => b.valid_placement(q) ==> has_placement(used@, q),
                    None => true,
                },
                forall|i: int| old(used)@.len() <= i < used@.len() ==> landing_entry(
                    b,
                    before,
                    bc,
                    dx as int,
                    n as nat,
                    #[trigger] used@[i],
                ),
            decreases 4 - rotation,
        {
            let ghost prev = used@;
            let mut q = before;
            let turned = rotation == 0 || self.game.board.try_rotate(&mut q, rotation);
            if turned {
                let _ = self.game.board.drop_piece(&mut q);
                let mid = sweep_commands(dx, n, rotation);
                self.record(base, mid, q, used);
                assert(landing(b, before, rotation as int) == Some(q));
            }
            proof {
                assert forall|r: int| 0 <= r < rotation + 1 implies match #[trigger] landing(b, before, r) {
                    Some(q) => b.valid_placement(q) ==> has_placement(used@, q),
                    None => true,
                } by {
                    if r < rotation {
                        if let Some(q) = landing(b, before, r) {
                            if b.valid_placement(q) {
                                lemma_grows_has(prev, used@, q);
                            }
                        }
                    }
                }
                assert forall|i: int| old(used)@.len() <= i < used@.len() implies landing_entry(
                    b,
                    before,
                    bc,
                    dx as int,
                    n as nat,
                    #[trigger] used@[i],
                ) by {
                    if i < prev.len() {
                        assert(used@[i] == prev[i]);
                    } else {
                        assert(landing(b, before, rotation as int) == Some(used@[i].placement));
                    }
                }
            }
            rotation = rotation + 1;
        }
    }

    /// Slides the piece from `start` all the way left and all the way right,
    /// trying every rotation at each column reached.
    #[verifier::rlimit(60)]
    fn trivial(&self, base: &PlacementActions, used: &mut Vec<PlacementActions>, start: Placement)
        requires
            self.wf(),
            start.wf(),
            search_ok(self.game.board@, old(used)@),
            all_of_type(old(used)@, start.piece_type),
        ensures
            search_ok(self.game.board@, final(used)@),
            all_of_type(final(used)@, start.piece_type),
            grows(old(used)@, final(used)@),
            seeds_in(self.game.board@, start, final(used)@),
            forall|i: int| old(used)@.len() <= i < final(used)@.len() ==> is_seed(
                self.game.board@,
                start,
                (#[trigger] final(used)@[i]).placement,
            ),
            forall|i: int| old(used)@.len() <= i < final(used)@.len() ==> sweep_entry(
                self.game.board@,
                start,
                base.batch.commands@,
                #[trigger] final(used)@[i],
            ),
    {
        let ghost b = self.game.board@;
        let ghost bc = base.batch.commands@;
        self.add_trivial_rotations(base, used, start, -1, 0);
        proof {
            assert forall|i: int| old(used)@.len() <= i < used@.len() implies is_seed(
                b,
                start,
                (#[trigger] used@[i]).placement,
            ) && sweep_entry(b, start, bc, used@[i]) by {
                assert(landing_entry(b, start, bc, -1, 0, used@[i]));
                let r = choose|r: int|
                    0 <= r < 4 && #[trigger] landing(b, start, r) == Some(used@[i].placement) && extends(
                        bc,
                        used@[i].batch.commands@,
                        sweep_cmds(-1, 0, r),
                    );
                assert(sweep_landing(b, start, -1, 0, r) == Some(used@[i].placement));
            }
        }
        let ghost first = used@;
        let mut side: usize = 0;
        while side < 2
            invariant
                self.wf(),
                start.wf(),
                b == self.game.board@,
                bc == base.batch.commands@,
                side <= 2,
                search_ok(b, used@),
                all_of_type(used@, start.piece_type),
                grows(old(used)@, first),
                grows(first, used@),
                forall|r: int| 0 <= r < 4 ==> match #[trigger] landing(b, start, r) {
                    Some(q) => b.valid_placement(q) ==> has_placement(first, q),
                    None => true,
                },
                forall|d: int, n: nat, r: int|
                    ((d == -1 && side >= 1) || (d == 1 && side >= 2)) && 0 <= r < 4 ==> match #[trigger] sweep_landing(b, start, d, n, r) {
                        Some(q) => b.valid_placement(q) ==> has_placement(used@, q),
                        None => true,
                    },
                forall|i: int| old(used)@.len() <= i < used@.len() ==> is_seed(b, start, (#[trigger] used@[i]).placement),
                forall|i: int| old(used)@.len() <= i < used@.len() ==> sweep_entry(b, start, bc, #[trigger] used@[i]),
            decreases 2 - side,
        {
            let dx: i8 = if side == 0 { -1 } else { 1 };
            let mut p = start;
            let mut moving = true;
            let mut j: usize = 0;
            proof {
                assert forall|n: nat, r: int| n <= j && 0 <= r < 4 implies match #[trigger] sweep_landing(b, start, dx as int, n, r) {
                    Some(q) => b.valid_placement(q) ==> has_placement(used@, q),
                    None => true,
                } by {
                    assert(sweep_landing(b, start, dx as int, n, r) == landing(b, start, r));
                    if let Some(q) = landing(b, start, r) {
                        if b.valid_placement(q) {
                            lemma_grows_has(first, used@, q);
                        }
                    }
                }
            }
            while moving
                invariant
                    self.wf(),
                    p.wf(),
                    p.piece_type == start.piece_type,
                    b == self.game.board@,
                    bc == base.batch.commands@,
                    dx == -1 || dx == 1,
                    side < 2,
                    dx == (if side == 0 { -1int } else { 1 }),
                    j as int == (if dx == -1 { start.col - p.col } else { p.col - start.col }),
                    search_ok(b, used@),
                    all_of_type(used@, start.piece_type),
                    grows(old(used)@, first),
                    grows(first, used@),
                    slid(b, start, dx as int, j as nat) == Some(p),
                    !moving ==> slid(b, start, dx as int, (j + 1) as nat).is_none(),
                    forall|n: nat, r: int| n <= j && 0 <= r < 4 ==> match #[trigger] sweep_landing(b, start, dx as int, n, r) {
                        Some(q) => b.valid_placement(q) ==> has_placement(used@, q),
                        None => true,
                    },
                    forall|d: int, n: nat, r: int|
                        ((d == -1 && side >= 1) || (d == 1 && side >= 2)) && 0 <= r < 4 ==> match #[trigger] sweep_landing(b, start, d, n, r) {
                            Some(q) => b.valid_placement(q) ==> has_placement(used@, q),
                            None => true,
                        },
                    forall|i: int| old(used)@.len() <= i < used@.len() ==> is_seed(b, start, (#[trigger] used@[i]).placement),
                    forall|i: int| old(used)@.len() <= i < used@.len() ==> sweep_entry(b, start, bc, #[trigger] used@[i]),
                decreases (if dx == -1 { p.col + 130 } else { 130 - p.col }) + (if moving { 1int } else { 0 }),
            {
                let ghost prev = used@;
                if self.game.board.try_move(&mut p, 0, dx) {
                    j = j + 1;
                    self.add_trivial_rotations(base, used, p, dx, j);
                    proof {
                        assert(slid(b, start, dx as int, j as nat) == Some(p));
                        assert forall|i: int| prev.len() <= i < used@.len() implies is_landing_of(
                            b,
                            p,
                            (#[trigger] used@[i]).placement,
                        ) && sweep_entry(b, start, bc, used@[i]) by {
                            assert(landing_entry(b, p, bc, dx as int, j as nat, used@[i]));
                            let r = choose|r: int|
                                0 <= r < 4 && #[trigger] landing(b, p, r) == Some(used@[i].placement) && extends(
                                    bc,
                                    used@[i].batch.commands@,
                                    sweep_cmds(dx as int, j as nat, r),
                                );
                            assert(sweep_landing(b, start, dx as int, j as nat, r) == Some(used@[i].placement));
                        }
                        lemma_grows_trans(old(used)@, first, prev);
                        lemma_sweep_step(b, start, dx as int, side as int, (j - 1) as nat, p, old(used)@.len() as int, prev, used@);
                        assert forall|i: int| old(used)@.len() <= i < used@.len() implies sweep_entry(b, start, bc, #[trigger] used@[i]) by {
                            if i < prev.len() {
                                assert(used@[i] == prev[i]);
                            }
                        }
                    }
                } else {
                    moving = false;
                    assert(slid(b, start, dx as int, (j + 1) as nat).is_none());
                }
                proof {
                    lemma_grows_trans(first, prev, used@);
                }
            }
            proof {
                assert forall|n: nat, r: int| 0 <= r < 4 implies match #[trigger] sweep_landing(b, start, dx as int, n, r) {
                    Some(q) => b.valid_placement(q) ==> has_placement(used@, q),
                    None => true,
                } by {
                    if n > j {
                        lemma_slid_stops(b, start, dx as int, (j + 1) as nat, n);
                    }
                }
            }
            side = side + 1;
        }
        proof {
            lemma_grows_trans(old(used)@, first, used@);
        }
    }

    /// Tries each single action from `base`'s placement, dropping the piece after it.
    fn extend(&self, base: &PlacementActions, used: &mut Vec<PlacementActions>)
        requires
            self.wf(),
            base.placement.wf(),
            search_ok(self.game.board@, old(used)@),
            all_of_type(old(used)@, base.placement.piece_type),
        ensures
            search_ok(self.game.board@, final(used)@),
            all_of_type(final(used)@, base.placement.piece_type),
            grows(old(used)@, final(used)@),
            forall|k: int| 0 <= k < 5 ==> match #[trigger] successor(self.game.board@, base.placement, k) {
                Some(q) => self.game.board@.valid_placement(q) ==> has_placement(final(used)@, q),
                None => true,
            },
            forall|i: int| old(used)@.len() <= i < final(used)@.len() ==> successor_entry(
                self.game.board@,
                *base,
                #[trigger] final(used)@[i],
            ),
    {
        let ghost b = self.game.board@;
        let p = base.placement;
        let mut k: usize = 0;
        while k < 5
            invariant
                self.wf(),
                p.wf(),
                p == base.placement,
                b == self.game.board@,
                k <= 5,
                search_ok(b, used@),
                all_of_type(used@, p.piece_type),
                grows(old(used)@, used@),
                forall|j: int| 0 <= j < k ==> match #[trigger] successor(b, p, j) {
                    Some(q) => b.valid_placement(q) ==> has_placement(used@, q),
                    None => true,
                },
                forall|i: int| old(used)@.len() <= i < used@.len() ==> successor_entry(b, *base, #[trigger] used@[i]),
            decreases 5 - k,
        {
            let ghost prev = used@;
            match self.apply_step(p, k) {
                Some(q0) => {
                    let mut q = q0;
                    let _ = self.game.board.drop_piece(&mut q);
                    let mut mid: Vec<Command> = Vec::new();
                    mid.push(step_command(k));
                    assert(mid@ =~= seq![step_cmd(k as int)]);
                    self.record(base, mid, q, used);
                    assert(successor(b, p, k as int) == Some(q));
                },
                None => {},
            }
            proof {
                assert forall|j: int| 0 <= j < k + 1 implies match #[trigger] successor(b, p, j) {
                    Some(q) => b.valid_placement(q) ==> has_placement(used@, q),
                    None => true,
                } by {
                    if j < k {
                        if let Some(q) = successor(b, p, j) {
                            if b.valid_placement(q) {
                                lemma_grows_has(prev, used@, q);
                            }
                        }
                    }
                }
                assert forall|i: int| old(used)@.len() <= i < used@.len() implies successor_entry(b, *base, #[trigger] used@[i]) by {
                    if i < prev.len() {
                        assert(used@[i] == prev[i]);
                    } else {
                        assert(successor(b, p, k as int) == Some(used@[i].placement));
                    }
                }
            }
            k = k + 1;
        }
    }

    /// Extends every placement found, and every one found on the way, until no
    /// single action and drop leads to a new resting placement.
    fn non_trivial(
        &self,
        used: &mut Vec<PlacementActions>,
        t: usize,
        start: Ghost<Placement>,
        held: Ghost<bool>,
        m0: Ghost<GameModel>,
        ms: Ghost<GameModel>,
    )
        requires
            ms@.board == self.game.board@,
            forall|i: int| 0 <= i < old(used)@.len() ==> replays(m0@, ms@, #[trigger] old(used)@[i]),
            self.wf(),
            t < NUM_PIECES,
            search_ok(self.game.board@, old(used)@),
            all_of_type(old(used)@, t),
            forall|i: int| 0 <= i < old(used)@.len() ==> reachable(self.game.board@, start@, (#[trigger] old(used)@[i]).placement),
            forall|i: int| 0 <= i < old(used)@.len() ==> starts_with_hold((#[trigger] old(used)@[i]).batch.commands@) == held@,
        ensures
            forall|i: int| 0 <= i < final(used)@.len() ==> starts_with_hold((#[trigger] final(used)@[i]).batch.commands@) == held@,
            forall|i: int| 0 <= i < final(used)@.len() ==> replays(m0@, ms@, #[trigger] final(used)@[i]),
            search_ok(self.game.board@, final(used)@),
            all_of_type(final(used)@, t),
            grows(old(used)@, final(used)@),
            closed(self.game.board@, final(used)@),
            forall|i: int| 0 <= i < final(used)@.len() ==> reachable(self.game.board@, start@, (#[trigger] final(used)@[i]).placement),
    {
        let ghost b = self.game.board@;
        proof {
            self.game.board.lemma_wf_model();
            lemma_search_bound(b, used@, t);
        }
        let ghost bound = 4 * b.height * b.width;
        let mut i: usize = 0;
        while i < used.len()
            invariant
                self.wf(),
                b == self.game.board@,
                b.wf(),
                bound == 4 * b.height * b.width,
                t < NUM_PIECES,
                i <= used@.len() <= bound,
                search_ok(b, used@),
                all_of_type(used@, t),
                grows(old(used)@, used@),
                forall|j: int, k: int|
                    0 <= j < i && 0 <= k < 5 ==> match #[trigger] successor(b, used@[j].placement, k) {
                        Some(q) => b.valid_placement(q) ==> has_placement(used@, q),
                        None => true,
                    },
                forall|j: int| 0 <= j < used@.len() ==> reachable(b, start@, (#[trigger] used@[j]).placement),
                forall|j: int| 0 <= j < used@.len() ==> starts_with_hold((#[trigger] used@[j]).batch.commands@) == held@,
                forall|j: int| 0 <= j < used@.len() ==> replays(m0@, ms@, #[trigger] used@[j]),
                ms@.board == b,
            decreases bound - i,
        {
            let ghost prev = used@;
            let base = used[i].duplicate();
            self.extend(&base, used);
            proof {
                lemma_search_bound(b, used@, t);
                assert forall|j: int, k: int|
                    0 <= j < i + 1 && 0 <= k < 5 implies match #[trigger] successor(b, used@[j].placement, k) {
                        Some(q) => b.valid_placement(q) ==> has_placement(used@, q),
                        None => true,
                    } by {
                    assert(used@[j] == prev[j]);
                    if j < i {
                        if let Some(q) = successor(b, prev[j].placement, k) {
                            if b.valid_placement(q) {
                                lemma_grows_has(prev, used@, q);
                            }
                        }
                    }
                }
                let pi = prev[i as int].placement;
                assert(reachable(b, start@, pi));
                let n = choose|n: nat| #[trigger] reach(b, start@, n).contains(pi);
                assert forall|j: int| 0 <= j < used@.len() implies reachable(b, start@, (#[trigger] used@[j]).placement) by {
                    if j < prev.len() {
                        assert(used@[j] == prev[j]);
                    } else {
                        let k = choose|k: int| 0 <= k < 5 && #[trigger] successor(b, pi, k) == Some(used@[j].placement);
                        lemma_reach_step(b, start@, n, pi, k, used@[j].placement);
                        assert(reach(b, start@, n + 1).contains(used@[j].placement));
                    }
                }
                lemma_copy_seq_hold(prev[i as int].batch.commands@, base.batch.commands@);
                lemma_copy_exec_seq(prev[i as int].batch.commands@, base.batch.commands@, m0@);
                assert(replays(m0@, ms@, prev[i as int]));
                assert(replays(m0@, ms@, base));
                assert forall|j: int| 0 <= j < used@.len() implies replays(m0@, ms@, #[trigger] used@[j]) by {
                    if j < prev.len() {
                        assert(used@[j] == prev[j]);
                    } else {
                        lemma_successor_replays(m0@, ms@, base, used@[j]);
                    }
                }
                assert forall|j: int| 0 <= j < used@.len() implies starts_with_hold((#[trigger] used@[j]).batch.commands@) == held@ by {
                    if j < prev.len() {
                        assert(used@[j] == prev[j]);
                    } else {
                        assert(successor_entry(b, base, used@[j]));
                        let k = choose|k: int|
                            0 <= k < 5 && #[trigger] successor(b, base.placement, k) == Some(used@[j].placement) && extends(
                                base.batch.commands@,
                                used@[j].batch.commands@,
                                seq![step_cmd(k)],
                            );
                        assert forall|x: int| 0 <= x < 1 implies !(#[trigger] seq![step_cmd(k)][x] is Hold) by {}
                        lemma_extends_hold(base.batch.commands@, used@[j].batch.commands@, seq![step_cmd(k)]);
                    }
                }
                lemma_grows_trans(old(used)@, prev, used@);
            }
            i = i + 1;
        }
    }

    /// The sweep phase from `start`, then the closure phase: exactly the
    /// resting placements reachable from `start`.
    fn search_all(
        &self,
        base: &PlacementActions,
        used: &mut Vec<PlacementActions>,
        start: Placement,
        m0: Ghost<GameModel>,
        ms: Ghost<GameModel>,
    )
        requires
            self.wf(),
            start.wf(),
            old(used)@.len() == 0,
            exec_seq(base.batch.commands@, m0@) == ms@,
            ms@.active == start,
            ms@.board == self.game.board@,
        ensures
            forall|i: int| 0 <= i < final(used)@.len() ==> replays(m0@, ms@, #[trigger] final(used)@[i]),
            search_ok(self.game.board@, final(used)@),
            all_of_type(final(used)@, start.piece_type),
            closed(self.game.board@, final(used)@),
            forall|q: Placement| #[trigger] has_placement(final(used)@, q) <==> reachable(self.game.board@, start, q),
            forall|i: int| 0 <= i < final(used)@.len() ==> starts_with_hold((#[trigger] final(used)@[i]).batch.commands@)
                == starts_with_hold(base.batch.commands@),
    {
        let ghost b = self.game.board@;
        self.trivial(base, used, start);
        proof {
            assert forall|i: int| 0 <= i < used@.len() implies starts_with_hold((#[trigger] used@[i]).batch.commands@)
                == starts_with_hold(base.batch.commands@) && replays(m0@, ms@, used@[i]) by {
                assert(sweep_entry(b, start, base.batch.commands@, used@[i]));
                let (dx, n, r) = choose|dx: int, n: nat, r: int|
                    (dx == -1 || dx == 1) && 0 <= r < 4 && #[trigger] sweep_landing(b, start, dx, n, r) == Some(used@[i].placement)
                        && extends(base.batch.commands@, used@[i].batch.commands@, sweep_cmds(dx, n, r));
                let mid = sweep_cmds(dx, n, r);
                assert forall|k: int| 0 <= k < mid.len() implies !(#[trigger] mid[k] is Hold) by {
                    if k < n {
                        assert(mid[k] == move_cmd(dx));
                    } else {
                        assert(mid[k] == turn_cmd(r));
                    }
                }
                lemma_extends_hold(base.batch.commands@, used@[i].batch.commands@, mid);
                lemma_sweep_replays(m0@, ms@, base.batch.commands@, used@[i]);
            }
        }
        let ghost mid = used@;
        proof {
            assert forall|i: int| 0 <= i < used@.len() implies reachable(b, start, (#[trigger] used@[i]).placement) by {
                assert(reach(b, start, 0).contains(used@[i].placement));
            }
        }
        self.non_trivial(used, start.piece_type, Ghost(start), Ghost(starts_with_hold(base.batch.commands@)), m0, ms);
        proof {
            assert forall|dx: int, n: nat, r: int|
                (dx == -1 || dx == 1) && 0 <= r < 4 implies match #[trigger] sweep_landing(b, start, dx, n, r) {
                    Some(q) => b.valid_placement(q) ==> has_placement(used@, q),
                    None => true,
                } by {
                if let Some(q) = sweep_landing(b, start, dx, n, r) {
                    if b.valid_placement(q) {
                        lemma_grows_has(mid, used@, q);
                    }
                }
            }
            assert forall|q: Placement| #[trigger] has_placement(used@, q) <==> reachable(b, start, q) by {
                if has_placement(used@, q) {
                    let i = choose|i: int| 0 <= i < used@.len() && (#[trigger] used@[i]).placement == q;
                    assert(reachable(b, start, used@[i].placement));
                }
                if reachable(b, start, q) {
                    let n = choose|n: nat| #[trigger] reach(b, start, n).contains(q);
                    lemma_reach_in(b, start, used@, n);
                }
            }
        }
    }

    /// The piece type that holding would make active: the held type, or else the next piece.
    fn hold_piece(&mut self) -> (r: usize)
        requires
            old(self).wf(),
        ensures
            final(self).wf(),
            final(self).game@.same_state(old(self).game@),
            final(self).stack == old(self).stack,
            r == old(self).game@.hold_incoming(),
            r < NUM_PIECES,
    {
        match self.game.hold {
            Some(t) => {
                assert(self.game@.queue.same_upcoming(self.game@.queue));
                t
            },
            None => {
                proof {
                    lemma_model_upcoming_bounded(self.game@.queue, 0);
                    lemma_next_push(self.game@.queue);
                }
                let t = self.game.queue.next();
                self.game.queue.push(t);
                t
            },
        }
    }

    /// Adds to `used` each element of `other` whose placement it lacks.
    fn merge(used: &mut Vec<PlacementActions>, other: Vec<PlacementActions>, b: Ghost<BoardModel>)
        requires
            search_ok(b@, old(used)@),
            search_ok(b@, other@),
        ensures
            search_ok(b@, final(used)@),
            grows(old(used)@, final(used)@),
            forall|q: Placement| #[trigger] has_placement(final(used)@, q) <==> has_placement(old(used)@, q)
                || has_placement(other@, q),
            forall|i: int| old(used)@.len() <= i < final(used)@.len() ==> other@.contains(#[trigger] final(used)@[i])
                && !has_placement(old(used)@, final(used)@[i].placement),
    {
        let ghost first = used@;
        let ghost second = other@;
        let mut other = other;
        while other.len() > 0
            invariant
                search_ok(b@, used@),
                search_ok(b@, second),
                grows(first, used@),
                other@ == second.take(other@.len() as int),
                other@.len() <= second.len(),
                forall|j: int| other@.len() <= j < second.len() ==> has_placement(used@, #[trigger] second[j].placement),
                forall|i: int| 0 <= i < used@.len() ==> has_placement(first, (#[trigger] used@[i]).placement)
                    || has_placement(second, used@[i].placement),
                forall|i: int| first.len() <= i < used@.len() ==> second.contains(#[trigger] used@[i])
                    && !has_placement(first, used@[i].placement),
            decreases other@.len(),
        {
            let ghost prev = used@;
            let ghost n = other@.len() - 1;
            let a = other.pop().unwrap();
            assert(a == second[n]);
            assert(other@ =~= second.take(n));
            if !duplicate_placement(&used, &a.placement) {
                proof {
                    if has_placement(first, a.placement) {
                        lemma_grows_has(first, used@, a.placement);
                    }
                }
                used.push(a);
                assert(used@[used@.len() - 1] == second[n]);
                assert(has_placement(second, used@[used@.len() - 1].placement));
            }
            proof {
                assert(has_placement(used@, second[n].placement));
                assert forall|j: int| n <= j < second.len() implies has_placement(used@, #[trigger] second[j].placement) by {
                    if j > n {
                        lemma_grows_has(prev, used@, second[j].placement);
                    }
                }
                assert forall|i: int| 0 <= i < used@.len() implies has_placement(first, (#[trigger] used@[i]).placement)
                    || has_placement(second, used@[i].placement) by {
                    if i < prev.len() {
                        assert(used@[i] == prev[i]);
                    }
                }
                assert forall|i: int| first.len() <= i < used@.len() implies second.contains(#[trigger] used@[i])
                    && !has_placement(first, used@[i].placement) by {
                    if i < prev.len() {
                        assert(used@[i] == prev[i]);
                    } else {
                        assert(used@[i] == second[n]);
                    }
                }
            }
        }
        proof {
            assert forall|q: Placement| #[trigger] has_placement(used@, q) <==> has_placement(first, q)
                || has_placement(second, q) by {
                if has_placement(used@, q) {
                    let i = choose|i: int| 0 <= i < used@.len() && (#[trigger] used@[i]).placement == q;
                    assert(has_placement(first, used@[i].placement) || has_placement(second, used@[i].placement));
                }
                if has_placement(first, q) {
                    lemma_grows_has(first, used@, q);
                }
                if has_placement(second, q) {
                    let j = choose|j: int| 0 <= j < second.len() && (#[trigger] second[j]).placement == q;
                    assert(has_placement(used@, second[j].placement));
                }
            }
        }
    }

    /// All distinct resting placements reachable by moves, turns and drops,
    /// from the active piece and from the piece that holding would bring in
    /// (whose command sequences start with a hold).
    pub fn search(&mut self) -> (r: Vec<PlacementActions>)
        requires
            old(self).wf(),
        ensures
            final(self).wf(),
            final(self).game@.same_state(old(self).game@),
            final(self).stack == old(self).stack,
            search_ok(old(self).game.board@, r@),
            closed(old(self).game.board@, r@),
            forall|q: Placement| #[trigger] has_placement(r@, q) <==> reachable(
                old(self).game.board@,
                old(self).game.active,
                q,
            ) || reachable(old(self).game.board@, old(self).game@.spawned(old(self).game@.hold_incoming()), q),
            forall|i: int| 0 <= i < r@.len() ==> (starts_with_hold((#[trigger] r@[i]).batch.commands@) <==> !reachable(
                old(self).game.board@,
                old(self).game.active,
                r@[i].placement,
            )),
            forall|i: int| 0 <= i < r@.len() ==> exec_seq((#[trigger] r@[i]).batch.commands@, old(self).game@) == (if starts_with_hold(
                r@[i].batch.commands@,
            ) {
                held(old(self).game@)
            } else {
                old(self).game@
            }).with_active(r@[i].placement),
    {
        let ghost b = self.game.board@;
        let ghost g0 = self.game@;
        let before = self.game.active;
        let mut used: Vec<PlacementActions> = Vec::new();
        let empty = PlacementActions::new();
        assert(exec_seq(empty.batch.commands@, g0) == g0);
        self.search_all(&empty, &mut used, before, Ghost(g0), Ghost(g0));
        let held_type = self.hold_piece();
        let start = self.game.new_piece(held_type);
        let mut hold_base = PlacementActions::new();
        let hold_cmd = Hold::new();
        hold_base.push(Command::Hold(hold_cmd));
        proof {
            let hs = hold_base.batch.commands@;
            assert(hs.drop_last() =~= Seq::<Command>::empty());
            assert(exec_seq(Seq::<Command>::empty(), g0) == g0);
            assert(exec_seq(hs, g0) == Command::Hold(hold_cmd).exec_game(g0));
            assert(held(g0).active == start);
        }
        let mut other: Vec<PlacementActions> = Vec::new();
        self.search_all(&hold_base, &mut other, start, Ghost(g0), Ghost(held(g0)));
        let ghost first = used@;
        let ghost second = other@;
        assert(starts_with_hold(hold_base.batch.commands@));
        assert(!starts_with_hold(empty.batch.commands@));
        Self::merge(&mut used, other, Ghost(b));
        proof {
            assert forall|i: int| 0 <= i < used@.len() implies exec_seq((#[trigger] used@[i]).batch.commands@, g0) == (if starts_with_hold(
                used@[i].batch.commands@,
            ) {
                held(g0)
            } else {
                g0
            }).with_active(used@[i].placement) by {
                if i < first.len() {
                    assert(used@[i] == first[i]);
                    assert(replays(g0, g0, first[i]));
                } else {
                    let j = choose|j: int| 0 <= j < second.len() && second[j] == used@[i];
                    assert(replays(g0, held(g0), second[j]));
                }
            }
            assert forall|i: int| 0 <= i < used@.len() implies (starts_with_hold((#[trigger] used@[i]).batch.commands@)
                <==> !reachable(b, before, used@[i].placement)) by {
                if i < first.len() {
                    assert(used@[i] == first[i]);
                    assert(has_placement(first, first[i].placement));
                } else {
                    let j = choose|j: int| 0 <= j < second.len() && second[j] == used@[i];
                    assert(starts_with_hold(second[j].batch.commands@));
                }
            }
            assert forall|i: int, k: int| 0 <= i < used@.len() && 0 <= k < 5 implies match #[trigger] successor(b, used@[i].placement, k) {
                Some(q) => b.valid_placement(q) ==> has_placement(used@, q),
                None => true,
            } by {
                let p = used@[i].placement;
                assert(has_placement(used@, p));
                if let Some(q) = successor(b, p, k) {
                    if b.valid_placement(q) {
                        if has_placement(first, p) {
                            let j = choose|j: int| 0 <= j < first.len() && (#[trigger] first[j]).placement == p;
                            assert(successor(b, first[j].placement, k) == Some(q));
                        } else {
                            let j = choose|j: int| 0 <= j < second.len() && (#[trigger] second[j]).placement == p;
                            assert(successor(b, second[j].placement, k) == Some(q));
                        }
                    }
                }
            }
        }
        used
    }

    /// Every sequence of `depth` placements: for each placement found now, its
    /// hard drop is committed, the search goes on from there, and the drop is
    /// undone. Each sequence is `base` followed by the placements' commands.
    fn deep_search(&mut self, depth: usize, base: &PlacementActions, root: Ghost<GameModel>) -> (r: Vec<PlacementActions>)
        requires
            old(self).wf(),
            depth >= 1,
            exec_seq(base.batch.commands@, root@).same_state(old(self).game@),
        ensures
            forall|i: int| 0 <= i < r@.len() ==> exec_seq((#[trigger] r@[i]).batch.commands@, root@).active == r@[i].placement,
            final(self).wf(),
            final(self).game@.same_state(old(self).game@),
            final(self).stack@ == old(self).stack@,
            depth == 1 ==> search_ok(old(self).game.board@, r@),
            forall|q: Placement| #[trigger] has_placement(r@, q) <==> lookahead(old(self).game@, depth as nat).contains(q),
            forall|i: int| 0 <= i < r@.len() ==> (#[trigger] r@[i]).placement.wf(),
        decreases depth, 1int,
    {
        let ghost g0 = self.game@;
        let ghost b0 = self.game.board@;
        let ghost s0 = self.stack;
        let found = self.search();
        let mut out: Vec<PlacementActions> = Vec::new();
        let mut i: usize = 0;
        if depth == 1 {
            while i < found.len()
                invariant
                    i <= found@.len(),
                    out@.len() == i,
                    forall|j: int| 0 <= j < i ==> (#[trigger] out@[j]).placement == found@[j].placement,
                    search_ok(b0, found@),
                    exec_seq(base.batch.commands@, root@).same_state(g0),
                    forall|j: int| 0 <= j < found@.len() ==> exec_seq((#[trigger] found@[j]).batch.commands@, g0) == (if starts_with_hold(
                        found@[j].batch.commands@,
                    ) {
                        held(g0)
                    } else {
                        g0
                    }).with_active(found@[j].placement),
                    forall|j: int| 0 <= j < i ==> exec_seq((#[trigger] out@[j]).batch.commands@, root@).active == out@[j].placement,
                decreases found@.len() - i,
            {
                let mut a = base.duplicate();
                let f = found[i].duplicate();
                let ghost fc = f.batch.commands@;
                let ghost dc = a.batch.commands@;
                a.push(Command::PlacementActions(f));
                a.placement = found[i].placement;
                proof {
                    let mm = exec_seq(base.batch.commands@, root@);
                    let ac = a.batch.commands@;
                    lemma_copy_exec_seq(base.batch.commands@, dc, root@);
                    assert(ac.drop_last() =~= dc);
                    assert(exec_seq(ac, root@) == ac.last().exec_game(exec_seq(ac.drop_last(), root@)));
                    assert(exec_seq(ac, root@) == exec_seq(fc, mm));
                    lemma_copy_exec_seq(found@[i as int].batch.commands@, fc, mm);
                    lemma_exec_same_seq(found@[i as int].batch.commands@, mm, g0);
                    assert(exec_seq(ac, root@).active == a.placement);
                }
                let ghost prev_out = out@;
                out.push(a);
                assert forall|j: int| 0 <= j < i + 1 implies exec_seq((#[trigger] out@[j]).batch.commands@, root@).active
                    == out@[j].placement by {
                    if j < i {
                        assert(out@[j] == prev_out[j]);
                    }
                }
                i = i + 1;
            }
            assert forall|j: int, k: int| 0 <= j < k < out@.len() implies out@[j].placement != out@[k].placement by {
                assert(out@[j].placement == found@[j].placement);
                assert(out@[k].placement == found@[k].placement);
            }
            assert forall|j: int| 0 <= j < out@.len() implies (#[trigger] out@[j]).placement.wf()
                && b0.valid_placement(out@[j].placement) by {
                assert(out@[j].placement == found@[j].placement);
            }
            assert forall|q: Placement| #[trigger] has_placement(out@, q) <==> has_placement(found@, q) by {
                if has_placement(out@, q) {
                    let j = choose|j: int| 0 <= j < out@.len() && (#[trigger] out@[j]).placement == q;
                    assert(found@[j].placement == q);
                }
                if has_placement(found@, q) {
                    let j = choose|j: int| 0 <= j < found@.len() && (#[trigger] found@[j]).placement == q;
                    assert(out@[j].placement == q);
                }
                assert(lookahead(g0, 1).contains(q) == searched(g0).contains(q));
            }
            return out;
        }
        while i < found.len()
            invariant
                self.wf(),
                depth >= 2,
                self.game@.same_state(g0),
                self.stack@ == s0@,
                b0 == g0.board,
                i <= found@.len(),
                search_ok(b0, found@),
                forall|j: int| 0 <= j < out@.len() ==> (#[trigger] out@[j]).placement.wf(),
                forall|q: Placement| #[trigger] has_placement(found@, q) <==> searched(g0).contains(q),
                forall|j: int| 0 <= j < found@.len() ==> (starts_with_hold((#[trigger] found@[j]).batch.commands@) <==> !reachable(
                    g0.board,
                    g0.active,
                    found@[j].placement,
                )),
                forall|q: Placement| #[trigger] has_placement(out@, q) <==> covered(g0, found@, i as int, depth as nat, q),
                exec_seq(base.batch.commands@, root@).same_state(g0),
                forall|j: int| 0 <= j < found@.len() ==> exec_seq((#[trigger] found@[j]).batch.commands@, g0) == (if starts_with_hold(
                    found@[j].batch.commands@,
                ) {
                    held(g0)
                } else {
                    g0
                }).with_active(found@[j].placement),
                forall|j: int| 0 <= j < out@.len() ==> exec_seq((#[trigger] out@[j]).batch.commands@, root@).active == out@[j].placement,
            decreases found@.len() - i,
        {
            let ghost gi = self.game@;
            proof {
                assert(gi.board == g0.board && gi.active == g0.active);
                let fa = found@[i as int];
                let y0 = if starts_with_hold(fa.batch.commands@) { held(g0) } else { g0 };
                let yi = if starts_with_hold(fa.batch.commands@) { held(gi) } else { gi };
                lemma_same_sym(gi, g0);
                lemma_exec_same_seq(fa.batch.commands@, gi, g0);
                lemma_advanced_same(gi, g0);
                lemma_same_with_active(yi, y0, fa.placement);
                lemma_same_sym(yi.with_active(fa.placement), y0.with_active(fa.placement));
                lemma_same_trans(exec_seq(fa.batch.commands@, gi), y0.with_active(fa.placement), yi.with_active(fa.placement));
                lemma_same_trans(exec_seq(base.batch.commands@, root@), g0, gi);
            }
            let mut sub = self.explore_from(depth, base, &found[i], root);
            proof {
                lemma_same_trans(self.game@, gi, g0);
                let p = found@[i as int].placement;
                lemma_committed_same(gi, g0, p);
                lemma_lookahead_same(committed(gi, p), committed(g0, p), (depth - 1) as nat);
            }
            let ghost before_out = out@;
            let ghost added = sub@;
            out.append(&mut sub);
            assert forall|j: int| 0 <= j < out@.len() implies (#[trigger] out@[j]).placement.wf()
                && exec_seq(out@[j].batch.commands@, root@).active == out@[j].placement by {
                if j >= before_out.len() {
                    assert(out@[j] == added[j - before_out.len()]);
                }
            }
            proof {
                assert(out@ == before_out + added);
                assert forall|q: Placement| #[trigger] has_placement(out@, q) <==> covered(g0, found@, i + 1, depth as nat, q) by {
                    lemma_has_append(before_out, added, q);
                    if covered(g0, found@, i + 1, depth as nat, q) && !covered(g0, found@, i as int, depth as nat, q) {
                        let j = choose|j: int|
                            0 <= j < i + 1 && #[trigger] lookahead(committed(g0, found@[j].placement), (depth - 1) as nat).contains(q);
                        assert(j == i);
                    }
                }
            }
            i = i + 1;
        }
        proof {
            assert forall|q: Placement| #[trigger] has_placement(out@, q) <==> lookahead(g0, depth as nat).contains(q) by {
                assert(lookahead(g0, depth as nat).contains(q) == deeper(g0, depth as nat, q));
                if covered(g0, found@, i as int, depth as nat, q) {
                    let j = choose|j: int|
                        0 <= j < i && #[trigger] lookahead(committed(g0, found@[j].placement), (depth - 1) as nat).contains(q);
                    assert(has_placement(found@, found@[j].placement));
                    assert(searched(g0).contains(found@[j].placement));
                }
                if deeper(g0, depth as nat, q) {
                    let p = choose|p: Placement|
                        #![trigger searched(g0).contains(p)]
                        searched(g0).contains(p) && lookahead(committed(g0, p), (depth - 1) as nat).contains(q);
                    assert(has_placement(found@, p));
                    let j = choose|j: int| 0 <= j < found@.len() && (#[trigger] found@[j]).placement == p;
                    assert(lookahead(committed(g0, found@[j].placement), (depth - 1) as nat).contains(q));
                }
            }
        }
        out
    }

    /// Commits `a` (its hold, if it starts with one, and the hard drop of its
    /// placement), searches `depth - 1` further placements, and undoes the commit.
    fn explore_from(
        &mut self,
        depth: usize,
        base: &PlacementActions,
        a: &PlacementActions,
        root: Ghost<GameModel>,
    ) -> (r: Vec<PlacementActions>)
        requires
            exec_seq(base.batch.commands@, root@).same_state(old(self).game@),
            exec_seq(a.batch.commands@, old(self).game@).same_state((if starts_with_hold(a.batch.commands@) {
                held(old(self).game@)
            } else {
                old(self).game@
            }).with_active(a.placement)),
            old(self).wf(),
            depth >= 2,
            a.placement.wf(),
            old(self).game@.board.valid_placement(a.placement),
            starts_with_hold(a.batch.commands@) <==> !reachable(old(self).game@.board, old(self).game.active, a.placement),
        ensures
            final(self).wf(),
            final(self).game@.same_state(old(self).game@),
            final(self).stack@ == old(self).stack@,
            forall|i: int| 0 <= i < r@.len() ==> (#[trigger] r@[i]).placement.wf(),
            forall|q: Placement| #[trigger] has_placement(r@, q) <==> lookahead(
                committed(old(self).game@, a.placement),
                (depth - 1) as nat,
            ).contains(q),
            forall|i: int| 0 <= i < r@.len() ==> exec_seq((#[trigger] r@[i]).batch.commands@, root@).active == r@[i].placement,
        decreases depth, 0int,
    {
        let ghost m0 = self.game@;
        let before = self.game.active;
        let p = a.placement;
        let hold_used = a.batch.commands.len() > 0 && matches!(a.batch.commands[0], Command::Hold(_));
        let hold_cmd = Hold::new();
        let ghost hc = Command::Hold(hold_cmd);
        if hold_used {
            self.execute(Command::Hold(hold_cmd));
        }
        let ghost hd = self.stack@.last();
        self.game.active = p;
        let ghost m2 = self.game@;
        let h = HardDrop::new();
        proof {
            lemma_hard_drop(h.batch.commands@, m2);
            lemma_hard_drop_runs(h.batch.commands@, m2);
        }
        self.execute(Command::HardDrop(h));
        let ghost m3 = self.game@;
        proof {
            reveal(committed);
            assert(hold_used == starts_with_hold(a.batch.commands@));
            assert(m3 == committed(m0, p));
        }
        let ghost top = self.stack@.last();
        let mut step = a.duplicate();
        let ghost ac = step.batch.commands@;
        let h2 = HardDrop::new();
        let ghost hc2 = h2.batch.commands@;
        step.push(Command::HardDrop(h2));
        let ghost sc = step.batch.commands@;
        let mut next_base = base.duplicate();
        let ghost bc = next_base.batch.commands@;
        next_base.push(Command::PlacementActions(step));
        next_base.placement = p;
        proof {
            let mm = exec_seq(base.batch.commands@, root@);
            lemma_copy_exec_seq(base.batch.commands@, bc, root@);
            assert(next_base.batch.commands@.drop_last() =~= bc);
            assert(sc.drop_last() =~= ac);
            let x = exec_seq(ac, mm);
            lemma_copy_exec_seq(a.batch.commands@, ac, mm);
            lemma_hard_drop(hc2, x);
            let nb = next_base.batch.commands@;
            assert(nb.last() == Command::PlacementActions(step));
            assert(exec_seq(nb, root@) == nb.last().exec_game(exec_seq(nb.drop_last(), root@)));
            assert(exec_seq(nb, root@) == exec_seq(sc, mm));
            assert(sc.last() == Command::HardDrop(h2));
            assert(exec_seq(sc, mm) == sc.last().exec_game(exec_seq(sc.drop_last(), mm)));
            assert(exec_seq(sc, mm) == exec_seq(hc2, x));
            assert(exec_seq(next_base.batch.commands@, root@) == hard_dropped(x));
            let y = (if hold_used { held(m0) } else { m0 }).with_active(p);
            lemma_exec_same_seq(a.batch.commands@, mm, m0);
            lemma_same_trans(x, exec_seq(a.batch.commands@, m0), y);
            lemma_advanced_same(x, y);
            reveal(committed);
            assert(hard_dropped(y) == committed(m0, p));
        }
        let sub = self.deep_search(depth - 1, &next_base, root);
        proof {
            lemma_undo_congruent(top, self.game@, m3);
            lemma_same_trans(top.undo_game(self.game@), top.undo_game(m3), m2);
        }
        self.undo();
        if hold_used {
            proof {
                lemma_hold_restore(m0, hc, hd, self.game@, p);
            }
            self.undo();
        }
        self.game.active = before;
        proof {
            if !hold_used {
                lemma_same_with_active(self.game@.with_active(p), m2, before);
                assert(self.game@.with_active(p).with_active(before) == self.game@);
                assert(m2.with_active(before) == m0);
            }
        }
        sub
    }

    /// Every sequence of `depth` placements from the current game, which is left as it was.
    pub fn look_ahead(&mut self, depth: usize) -> (r: Vec<PlacementActions>)
        requires
            old(self).wf(),
            depth >= 1,
        ensures
            final(self).wf(),
            final(self).game@.same_state(old(self).game@),
            final(self).stack@ == old(self).stack@,
            depth == 1 ==> search_ok(old(self).game.board@, r@),
            forall|q: Placement| #[trigger] has_placement(r@, q) <==> lookahead(old(self).game@, depth as nat).contains(q),
            forall|i: int| 0 <= i < r@.len() ==> (#[trigger] r@[i]).placement.wf(),
            forall|i: int| 0 <= i < r@.len() ==> exec_seq((#[trigger] r@[i]).batch.commands@, old(self).game@).active
                == r@[i].placement,
    {
        let empty = PlacementActions::new();
        proof {
            assert(exec_seq(empty.batch.commands@, self.game@) == self.game@);
            lemma_same_refl(self.game@);
        }
        self.deep_search(depth, &empty, Ghost(self.game@))
    }

    /// Looks `depth` placements ahead and returns the sequence whose final
    /// placement scores best against row `row` of `target`; none if there is none.
    pub fn best_action(&mut self, depth: usize, target: &Board, row: i8) -> (r: Option<PlacementActions>)
        requires
            old(self).wf(),
            depth >= 1,
            target.wf(),
        ensures
            final(self).wf(),
            final(self).game@.same_state(old(self).game@),
            final(self).stack@ == old(self).stack@,
            r.is_none() <==> forall|q: Placement| !lookahead(old(self).game@, depth as nat).contains(q),
            r matches Some(a) ==> {
                &&& a.placement.wf()
                &&& exec_seq(a.batch.commands@, old(self).game@).active == a.placement
                &&& lookahead(old(self).game@, depth as nat).contains(a.placement)
                &&& forall|q: Placement|
                    #[trigger] lookahead(old(self).game@, depth as nat).contains(q) ==> score_of(target@, q, row as int)
                        <= score_of(target@, a.placement, row as int)
            },
    {
        let mut all = self.look_ahead(depth);
        let ghost la = lookahead(old(self).game@, depth as nat);
        let ghost cands = all@;
        match best_of(&all, target, row) {
            Some(i) => {
                let a = all.remove(i);
                proof {
                    assert(a == cands[i as int]);
                    assert(has_placement(cands, a.placement));
                    assert forall|q: Placement| #[trigger] la.contains(q) implies score_of(target@, q, row as int)
                        <= score_of(target@, a.placement, row as int) by {
                        assert(has_placement(cands, q));
                        let j = choose|j: int| 0 <= j < cands.len() && (#[trigger] cands[j]).placement == q;
                        assert(score_of(target@, cands[j].placement, row as int) <= score_of(target@, cands[i as int].placement, row as int));
                    }
                }
                Some(a)
            },
            None => {
                proof {
                    assert forall|q: Placement| !la.contains(q) by {
                        if la.contains(q) {
                            assert(has_placement(cands, q));
                        }
                    }
                }
                None
            },
        }
    }
} // impl Bot

/// The index of the candidate whose placement scores best against row `row`
/// of `target`, the first of equals; none when there are no candidates.
pub fn best_of(candidates: &Vec<PlacementActions>, target: &Board, row: i8) -> (r: Option<usize>)
    requires
        target.wf(),
        forall|i: int| 0 <= i < candidates@.len() ==> (#[trigger] candidates@[i]).placement.wf(),
    ensures
        r.is_none() <==> candidates@.len() == 0,
        r matches Some(i) ==> i < candidates@.len() && forall|j: int|
            0 <= j < candidates@.len() ==> score_of(target@, (#[trigger] candidates@[j]).placement, row as int)
                <= score_of(target@, candidates@[i as int].placement, row as int),
        r matches Some(i) ==> forall|j: int|
            0 <= j < i ==> score_of(target@, (#[trigger] candidates@[j]).placement, row as int)
                < score_of(target@, candidates@[i as int].placement, row as int),
{
    if candidates.len() == 0 {
        return None;
    }
    let mut best: usize = 0;
    let mut best_score = score(&candidates[0].placement, target, row);
    let mut i: usize = 1;
    while i < candidates.len()
        invariant
            target.wf(),
            forall|k: int| 0 <= k < candidates@.len() ==> (#[trigger] candidates@[k]).placement.wf(),
            1 <= i <= candidates@.len(),
            best < i,
            best_score == score_of(target@, candidates@[best as int].placement, row as int),
            forall|j: int| 0 <= j < i ==> score_of(target@, (#[trigger] candidates@[j]).placement, row as int)
                <= best_score,
            forall|j: int| 0 <= j < best ==> score_of(target@, (#[trigger] candidates@[j]).placement, row as int)
                < best_score,
        decreases candidates@.len() - i,
    {
        let s = score(&candidates[i].placement, target, row);
        if s > best_score {
            best = i;
            best_score = s;
        }
        i = i + 1;
    }
    Some(best)
}

} // verus!
