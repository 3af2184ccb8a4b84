use tetris_bot::bot::Bot;
use tetris_bot::control::{ClearLines, Command, HardDrop, Hold, NextPiece, PieceMove, PieceRotate, PlacementActions, SetPiece, SoftDrop, duplicate_placement};
use tetris_bot::game::{Game, new_piece};
use tetris_bot::piece::Placement;
use tetris_bot::queue::Queue;

fn snapshot(game: &Game) -> (Vec<Vec<bool>>, Placement, Option<usize>) {
    (game.board.arr.clone(), game.active, game.hold)
}

#[test]
fn queue_is_deterministic_for_a_seed() {
    let mut a = Queue::new(43);
    let mut b = Queue::new(43);
    let xs: Vec<usize> = (0..30).map(|_| a.next()).collect();
    let ys: Vec<usize> = (0..30).map(|_| b.next()).collect();
    assert_eq!(xs, ys);
    assert_eq!(&xs[..14], &[1, 6, 5, 4, 2, 3, 0, 2, 3, 4, 6, 5, 1, 0]);
}

#[test]
fn queue_bags_are_permutations() {
    let mut q = Queue::new(100);
    for _ in 0..5 {
        let mut bag: Vec<usize> = (0..7).map(|_| q.next()).collect();
        bag.sort();
        assert_eq!(bag, vec![0, 1, 2, 3, 4, 5, 6]);
    }
}

#[test]
fn queue_push_returns_the_piece_first() {
    let mut q = Queue::new(1);
    let first = q.next();
    assert_eq!(first, 2);
    q.push(first);
    assert_eq!(q.next(), 2);
    assert_eq!(q.next(), 5);
    assert!(q.buffered().len() >= 7);
}

#[test]
fn new_game_spawns_the_first_piece() {
    let game = Game::new(20, 10, 43);
    assert_eq!(game.active, Placement::new(1, 0, 17, 4));
    assert_eq!(game.hold, None);
    assert_eq!(game.new_piece(3), new_piece(3, 20, 10));
    assert_eq!(new_piece(4, 40, 40), Placement::new(4, 0, 37, 19));
}

#[test]
fn move_execute_and_undo() {
    let mut game = Game::new(20, 10, 43);
    let before = snapshot(&game);
    let mut left = PieceMove::new(0, -1);
    assert!(left.execute(&mut game));
    assert_eq!(game.active.col, 3);
    left.undo(&mut game);
    assert_eq!(snapshot(&game), before);
    let mut far = PieceMove::new(0, -9);
    assert!(!far.execute(&mut game));
    assert_eq!(snapshot(&game), before);
    far.undo(&mut game);
    assert_eq!(snapshot(&game), before);
}

#[test]
fn rotation_uses_the_third_kick_and_undo_restores_it() {
    let mut bot = Bot::new(20, 10, 43);
    bot.game.board.bulk_add(vec![(4, 4), (4, 3)]);
    bot.game.active = Placement::new(6, 0, 5, 4);
    assert!(bot.rotate_cw());
    assert_eq!(bot.game.active, Placement::new(6, 1, 6, 3));
    bot.undo();
    assert_eq!(bot.game.active, Placement::new(6, 0, 5, 4));
}

#[test]
fn rotation_without_a_fitting_kick_fails() {
    let mut game = Game::new(20, 10, 1);
    game.board.bulk_add((0..10).map(|c| (1, c)).collect());
    game.active = Placement::new(4, 0, 0, 4);
    let before = snapshot(&game);
    let mut turn = PieceRotate::new(1);
    assert!(!turn.execute(&mut game));
    assert_eq!(snapshot(&game), before);
    turn.undo(&mut game);
    assert_eq!(snapshot(&game), before);
}

#[test]
fn soft_drop_and_undo() {
    let mut game = Game::new(20, 10, 43);
    let before = snapshot(&game);
    let mut drop = SoftDrop::new();
    assert!(drop.execute(&mut game));
    assert_eq!(game.active.row, 0);
    drop.undo(&mut game);
    assert_eq!(snapshot(&game), before);
}

#[test]
fn line_clear_scenario() {
    let mut game = Game::new(20, 10, 43);
    game.board.bulk_add((0..9).map(|c| (0, c)).collect());
    game.board.add(5, 2);
    game.active = Placement::new(4, 1, 2, 9);
    let mut lock = SetPiece::new();
    assert!(lock.execute(&mut game));
    assert!(game.board.arr[0].iter().all(|&x| x));
    let locked = game.board.arr.clone();
    let mut clear = ClearLines::new();
    assert!(clear.execute(&mut game));
    assert_eq!(game.board.arr.len(), 20);
    assert_eq!(game.board.height, 20);
    let mut expected_bottom = vec![false; 10];
    expected_bottom[9] = true;
    assert_eq!(game.board.arr[0], expected_bottom);
    assert!(game.board.get(4, 2));
    assert_eq!(game.board.arr[19], vec![false; 10]);
    assert!(game.board.arr.iter().all(|row| row.len() == 10));
    clear.undo(&mut game);
    assert_eq!(game.board.arr.len(), 20);
    assert!(game.board.arr.iter().all(|row| row.len() == 10));
    assert_eq!(game.board.arr, locked);
    assert_eq!(game.board.arr[0], vec![true; 10]);
}

#[test]
fn clear_lines_with_two_adjacent_full_rows() {
    let mut game = Game::new(6, 3, 1);
    game.board.bulk_add(vec![(0, 0), (0, 1), (0, 2), (1, 0), (1, 1), (1, 2), (2, 1), (3, 0), (3, 1), (3, 2)]);
    let before = game.board.arr.clone();
    let mut clear = ClearLines::new();
    clear.execute(&mut game);
    assert_eq!(game.board.arr.len(), 6);
    assert_eq!(game.board.arr[0], vec![false, true, false]);
    for r in 1..6 {
        assert_eq!(game.board.arr[r], vec![false, false, false]);
    }
    clear.undo(&mut game);
    assert_eq!(game.board.arr, before);
}

#[test]
fn hold_first_use_behaves_like_next_piece() {
    let mut with_hold = Game::new(20, 10, 43);
    let mut with_next = Game::new(20, 10, 43);
    let start = with_hold.active;
    let mut hold = Hold::new();
    assert!(hold.execute(&mut with_hold));
    let mut next = NextPiece::new();
    assert!(next.execute(&mut with_next));
    assert_eq!(with_hold.active, with_next.active);
    assert_eq!(with_hold.active, Placement::new(6, 0, 17, 4));
    assert_eq!(with_hold.hold, Some(start.piece_type));
    hold.undo(&mut with_hold);
    assert_eq!(with_hold.hold, None);
    assert_eq!(with_hold.active, start);
    assert_eq!(with_hold.queue.next(), 6);
}

#[test]
fn hold_swap_and_undo() {
    let mut bot = Bot::new(20, 10, 43);
    assert!(bot.hold());
    assert_eq!(bot.game.hold, Some(1));
    assert_eq!(bot.game.active.piece_type, 6);
    assert!(bot.hold());
    assert_eq!(bot.game.hold, Some(6));
    assert_eq!(bot.game.active, Placement::new(1, 0, 17, 4));
    bot.undo();
    assert_eq!(bot.game.hold, Some(1));
    assert_eq!(bot.game.active, Placement::new(6, 0, 17, 4));
    bot.undo();
    assert_eq!(bot.game.hold, None);
    assert_eq!(bot.game.active, Placement::new(1, 0, 17, 4));
}

#[test]
fn hard_drop_round_trip() {
    let mut bot = Bot::new(20, 10, 43);
    let before = snapshot(&bot.game);
    assert!(bot.move_left());
    assert!(bot.hard_drop());
    assert!(bot.game.board.get(0, 2));
    assert!(bot.game.board.get(1, 4));
    assert_eq!(bot.game.active.piece_type, 6);
    bot.undo();
    bot.undo();
    assert_eq!(snapshot(&bot.game), before);
    assert_eq!(bot.game.queue.next(), 6);
}

#[test]
fn bot_moves_report_success() {
    let mut bot = Bot::new(20, 10, 100);
    assert_eq!(bot.game.active.piece_type, 4);
    for _ in 0..3 {
        assert!(bot.move_left());
    }
    assert!(!bot.move_left());
    assert_eq!(bot.game.active.col, 1);
    assert!(bot.move_right());
    assert!(bot.rotate_cw());
    assert!(bot.rotate_180());
    assert!(bot.rotate_ccw());
    assert!(bot.soft_drop());
    assert_eq!(bot.game.active.rotation_state, 2);
    assert_eq!(bot.game.active, Placement::new(4, 2, 0, 3));
    for _ in 0..9 {
        bot.undo();
    }
    assert_eq!(bot.game.active, Placement::new(4, 0, 17, 4));
}

#[test]
fn batch_runs_in_order_and_undoes_in_reverse() {
    let mut game = Game::new(20, 10, 43);
    let before = snapshot(&game);
    let mut actions = PlacementActions::new();
    actions.push(Command::PieceMove(PieceMove::new(0, 1)));
    actions.push(Command::PieceRotate(PieceRotate::new(1)));
    actions.push(Command::SoftDrop(SoftDrop::new()));
    assert!(actions.execute(&mut game));
    assert_eq!(game.active.row, 1);
    assert_eq!(game.active.rotation_state, 1);
    actions.undo(&mut game);
    assert_eq!(snapshot(&game), before);
    let copy = actions.ret_push_front(Command::HardDrop(HardDrop::new()));
    assert_eq!(copy.batch.commands.len(), 4);
    assert!(matches!(copy.batch.commands[0], Command::HardDrop(_)));
    assert!(matches!(copy.batch.commands[3], Command::SoftDrop(_)));
    let mut last = copy;
    assert!(matches!(last.pop(), Some(Command::SoftDrop(_))));
    assert_eq!(last.batch.commands.len(), 3);
}

#[test]
fn execute_last_and_undo_last() {
    let mut game = Game::new(20, 10, 43);
    let mut actions = PlacementActions::new();
    assert!(actions.execute_last(&mut game));
    actions.push(Command::PieceMove(PieceMove::new(0, 1)));
    assert!(actions.execute_last(&mut game));
    assert_eq!(game.active.col, 5);
    actions.undo_last(&mut game);
    assert_eq!(game.active.col, 4);
}

#[test]
fn duplicate_placement_finds_equal_placements() {
    let mut a = PlacementActions::new();
    a.placement = Placement::new(2, 0, 0, 4);
    let used = vec![a];
    assert!(duplicate_placement(&used, &Placement::new(2, 0, 0, 4)));
    assert!(!duplicate_placement(&used, &Placement::new(2, 1, 0, 4)));
}
