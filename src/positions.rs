//! Preset positions: boards whose best moves need a spin into an overhang.
use vstd::prelude::*;
use crate::bot::Bot;
use crate::game::spawn;
use crate::queue::stream;

verus! {

/// The occupied cells of the spin position, as (row, column).
pub open spec fn l_spin_cells() -> Seq<(usize, usize)> {
    seq![
        (0usize, 0usize),
        (1, 0),
        (2, 0),
        (3, 0),
        (4, 0),
        (5, 0),
        (6, 0),
        (7, 0),
        (8, 0),
        (9, 0),
        (10, 0),
        (11, 0),
        (12, 0),
        (13, 0),
        (14, 0),
        (4, 1),
        (5, 1),
        (6, 1),
        (7, 1),
        (8, 1),
        (9, 1),
        (10, 1),
        (11, 1),
        (12, 1),
        (14, 1),
        (1, 2),
        (2, 2),
        (5, 2),
        (6, 2),
        (7, 2),
        (8, 2),
        (9, 2),
        (0, 3),
        (1, 3),
        (6, 3),
        (7, 3),
        (8, 3),
        (9, 3),
        (11, 3),
        (12, 3),
        (0, 4),
        (1, 4),
        (3, 4),
        (4, 4),
        (6, 4),
        (9, 4),
        (12, 4),
        (0, 5),
        (1, 5),
        (2, 5),
        (3, 5),
        (4, 5),
        (12, 5),
        (0, 6),
        (1, 6),
        (2, 6),
        (3, 6),
        (4, 6),
        (5, 6),
        (6, 6),
        (7, 6),
        (9, 6),
        (10, 6),
        (11, 6),
        (12, 6),
        (0, 7),
        (1, 7),
        (2, 7),
        (3, 7),
        (4, 7),
        (5, 7),
        (6, 7),
        (7, 7),
        (9, 7),
        (10, 7),
        (11, 7),
        (12, 7),
        (0, 8),
        (1, 8),
        (2, 8),
        (3, 8),
        (4, 8),
        (5, 8),
        (6, 8),
        (7, 8),
        (8, 8),
        (9, 8),
        (10, 8),
        (11, 8),
        (12, 8),
        (0, 9),
        (1, 9),
        (2, 9),
        (3, 9),
        (4, 9),
        (5, 9),
        (6, 9),
        (7, 9),
        (8, 9),
        (9, 9),
        (10, 9),
        (11, 9),
        (12, 9),
    ]
}

/// Cell `(r, c)` is one of `cells`.
pub open spec fn listed(cells: Seq<(usize, usize)>, r: int, c: int) -> bool {
    exists|i: int| 0 <= i < cells.len() && cells[i].0 == r && cells[i].1 == c
}

/// The cells the second spin position adds.
pub open spec fn l_spin_extra_cells() -> Seq<(usize, usize)> {
    seq![(13usize, 1usize), (13, 2), (13, 3), (13, 4), (13, 5), (15, 0), (15, 1)]
}

/// A 20 by 10 game, seed 43, with a stack shaped for a spin of the L piece.
pub fn l_spin_bot() -> (r: Bot)
    ensures
        r.wf(),
        r.stack@.len() == 0,
        r.game.board.width == 10,
        r.game.board.height == 20,
        forall|row: int, col: int| #[trigger] r.game.board@.occupied(row, col) <==> listed(l_spin_cells(), row, col),
        r.game.active == spawn(stream(43, 0), 20, 10),
        r.game.hold.is_none(),
        forall|i: nat| #[trigger] r.game.queue@.upcoming(i) == stream(43, i + 1),
{
    let mut bot = Bot::new(20, 10, 43);
    let board: Vec<(usize, usize)> = vec![
        (0, 0),
        (1, 0),
        (2, 0),
        (3, 0),
        (4, 0),
        (5, 0),
        (6, 0),
        (7, 0),
        (8, 0),
        (9, 0),
        (10, 0),
        (11, 0),
        (12, 0),
        (13, 0),
        (14, 0),
        (4, 1),
        (5, 1),
        (6, 1),
        (7, 1),
        (8, 1),
        (9, 1),
        (10, 1),
        (11, 1),
        (12, 1),
        (14, 1),
        (1, 2),
        (2, 2),
        (5, 2),
        (6, 2),
        (7, 2),
        (8, 2),
        (9, 2),
        (0, 3),
        (1, 3),
        (6, 3),
        (7, 3),
        (8, 3),
        (9, 3),
        (11, 3),
        (12, 3),
        (0, 4),
        (1, 4),
        (3, 4),
        (4, 4),
        (6, 4),
        (9, 4),
        (12, 4),
        (0, 5),
        (1, 5),
        (2, 5),
        (3, 5),
        (4, 5),
        (12, 5),
        (0, 6),
        (1, 6),
        (2, 6),
        (3, 6),
        (4, 6),
        (5, 6),
        (6, 6),
        (7, 6),
        (9, 6),
        (10, 6),
        (11, 6),
        (12, 6),
        (0, 7),
        (1, 7),
        (2, 7),
        (3, 7),
        (4, 7),
        (5, 7),
        (6, 7),
        (7, 7),
        (9, 7),
        (10, 7),
        (11, 7),
        (12, 7),
        (0, 8),
        (1, 8),
        (2, 8),
        (3, 8),
        (4, 8),
        (5, 8),
        (6, 8),
        (7, 8),
        (8, 8),
        (9, 8),
        (10, 8),
        (11, 8),
        (12, 8),
        (0, 9),
        (1, 9),
        (2, 9),
        (3, 9),
        (4, 9),
        (5, 9),
        (6, 9),
        (7, 9),
        (8, 9),
        (9, 9),
        (10, 9),
        (11, 9),
        (12, 9),
    ];
    assert(board@ =~= l_spin_cells());
    assert(forall|i: int| 0 <= i < board@.len() ==> (#[trigger] board@[i]).0 < 20 && board@[i].1 < 10);
    let ghost before = bot.game.board@;
    bot.game.board.bulk_add(board);
    assert forall|row: int, col: int| #[trigger] bot.game.board@.occupied(row, col) <==> listed(l_spin_cells(), row, col) by {
        assert(!before.occupied(row, col));
    }
    proof {
        bot.game.board.lemma_wf_model();
    }
    bot
}

/// The spin position with more cells filled, an L piece active and a long piece next.
pub fn l_spin_bot_2() -> (r: Bot)
    ensures
        r.wf(),
        r.stack@.len() == 0,
        r.game.board.width == 10,
        r.game.board.height == 20,
        forall|row: int, col: int| #[trigger] r.game.board@.occupied(row, col) <==> (listed(l_spin_cells(), row, col)
            || listed(l_spin_extra_cells(), row, col)) && !(row == 14 && col == 1),
        r.game.active == spawn(1, 20, 10),
        r.game.hold.is_none(),
        r.game.queue@.upcoming(0) == 4,
        forall|i: nat| #[trigger] r.game.queue@.upcoming(i + 1) == stream(43, i + 1),
{
    let mut bot = l_spin_bot();
    let extra: Vec<(usize, usize)> = vec![(13, 1), (13, 2), (13, 3), (13, 4), (13, 5), (15, 0), (15, 1)];
    assert(extra@ =~= l_spin_extra_cells());
    let ghost b1 = bot.game.board@;
    bot.game.board.bulk_add(extra);
    let ghost b2 = bot.game.board@;
    bot.game.board.remove(14, 1);
    assert forall|row: int, col: int| #[trigger] bot.game.board@.occupied(row, col) <==> (listed(l_spin_cells(), row, col)
        || listed(l_spin_extra_cells(), row, col)) && !(row == 14 && col == 1) by {
        assert(b1.occupied(row, col) == listed(l_spin_cells(), row, col));
        assert(b2.occupied(row, col) == (b1.occupied(row, col) || listed(l_spin_extra_cells(), row, col)));
        if !(row == 14 && col == 1) && 0 <= row < 20 && 0 <= col < 10 {
            assert(bot.game.board@.grid[row][col] == b2.grid[row][col]);
        }
    }
    proof {
        bot.game.board.lemma_wf_model();
    }
    bot.game.queue.push(4);
    bot.game.active = bot.game.new_piece(1);
    bot
}

} // verus!
