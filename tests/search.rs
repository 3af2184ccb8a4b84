use std::collections::HashSet;
use tetris_bot::board::Board;
use tetris_bot::bot::{Bot, best_of, score};
use tetris_bot::control::PlacementActions;
use tetris_bot::piece::Placement;
use tetris_bot::positions::{l_spin_bot, l_spin_bot_2};

fn cells(p: &Placement) -> Vec<(i32, i32)> {
    let mut v: Vec<(i32, i32)> = p
        .rel_locations()
        .iter()
        .map(|&(r, c)| (r as i32 + p.row as i32, c as i32 + p.col as i32))
        .collect();
    v.sort();
    v
}

fn search_for(piece_type: usize) -> (Bot, Vec<Placement>) {
    let mut bot = Bot::new(20, 10, 43);
    bot.game.active = bot.game.new_piece(piece_type);
    let found = bot.search();
    let placements = found.iter().map(|a| a.placement).collect();
    (bot, placements)
}

#[test]
fn search_on_empty_board_square_piece() {
    let (bot, found) = search_for(2);
    let squares: Vec<&Placement> = found.iter().filter(|p| p.piece_type == 2).collect();
    assert_eq!(squares.len(), 36);
    let shapes: HashSet<Vec<(i32, i32)>> = squares.iter().map(|p| cells(p)).collect();
    assert_eq!(shapes.len(), 9);
    for p in &found {
        assert!(bot.game.board.piece_valid_placement(p));
    }
}

#[test]
fn search_on_empty_board_other_pieces() {
    for (t, count, shapes) in [(0usize, 34usize, 17usize), (1, 34, 34), (4, 34, 17), (6, 34, 34)] {
        let (_, found) = search_for(t);
        let mine: Vec<&Placement> = found.iter().filter(|p| p.piece_type == t).collect();
        assert_eq!(mine.len(), count);
        let distinct: HashSet<Vec<(i32, i32)>> = mine.iter().map(|p| cells(p)).collect();
        assert_eq!(distinct.len(), shapes);
    }
}

#[test]
fn search_results_are_distinct_resting_placements() {
    let mut bot = l_spin_bot_2();
    let found = bot.search();
    assert!(!found.is_empty());
    let mut seen = HashSet::new();
    for a in &found {
        let p = a.placement;
        assert!(bot.game.board.piece_valid_placement(&p));
        assert!(seen.insert((p.piece_type, p.rotation_state, p.row, p.col)));
    }
}

#[test]
fn search_is_repeatable_and_restores_the_game() {
    let mut bot = l_spin_bot();
    let board = bot.game.board.arr.clone();
    let active = bot.game.active;
    let first: HashSet<Placement> = bot.search().iter().map(|a| a.placement).collect();
    assert_eq!(bot.game.board.arr, board);
    assert_eq!(bot.game.active, active);
    assert_eq!(bot.game.hold, None);
    let second: HashSet<Placement> = bot.search().iter().map(|a| a.placement).collect();
    assert_eq!(first, second);
    let mut other = l_spin_bot();
    let third: HashSet<Placement> = other.search().iter().map(|a| a.placement).collect();
    assert_eq!(first, third);
}

#[test]
fn search_finds_a_tuck_under_an_overhang() {
    let mut bot = Bot::new(20, 10, 43);
    bot.game.board.bulk_add(vec![(1, 0), (1, 1), (1, 2)]);
    bot.game.active = bot.game.new_piece(4);
    let found = bot.search();
    let tucked = found.iter().any(|a| cells(&a.placement) == vec![(0, 0), (0, 1), (0, 2), (0, 3)]);
    assert!(tucked);
}

#[test]
fn look_ahead_one_matches_search() {
    let mut bot = Bot::new(20, 10, 43);
    let searched: HashSet<Placement> = bot.search().iter().map(|a| a.placement).collect();
    let ahead: HashSet<Placement> = bot.look_ahead(1).iter().map(|a| a.placement).collect();
    assert_eq!(searched, ahead);
}

#[test]
fn look_ahead_two_restores_the_game() {
    let mut bot = Bot::new(20, 10, 43);
    let board = bot.game.board.arr.clone();
    let active = bot.game.active;
    let results = bot.look_ahead(2);
    assert!(!results.is_empty());
    assert_eq!(bot.game.board.arr, board);
    assert_eq!(bot.game.active, active);
    assert_eq!(bot.game.hold, None);
    assert_eq!(bot.game.queue.next(), 6);
}

#[test]
fn spin_positions() {
    let bot = l_spin_bot();
    assert!(bot.game.board.get(14, 1));
    assert!(bot.game.board.get(0, 0));
    assert!(!bot.game.board.get(3, 1));
    let mut second = l_spin_bot_2();
    assert!(!second.game.board.get(14, 1));
    assert!(second.game.board.get(15, 1));
    assert_eq!(second.game.active, Placement::new(1, 0, 17, 4));
    assert_eq!(second.game.queue.next(), 4);
}

#[test]
fn best_of_picks_the_first_highest_score() {
    let mut target = Board::new(10, 20);
    target.bulk_add(vec![(0, 0), (0, 1), (0, 2), (0, 3)]);
    let mut make = |p: Placement| {
        let mut a = PlacementActions::new();
        a.placement = p;
        a
    };
    let candidates = vec![
        make(Placement::new(4, 0, 0, 5)),
        make(Placement::new(4, 0, 0, 1)),
        make(Placement::new(4, 0, 0, 3)),
        make(Placement::new(4, 0, 0, 1)),
    ];
    assert_eq!(best_of(&candidates, &target, 0), Some(1));
    assert_eq!(best_of(&Vec::new(), &target, 0), None);
}

#[test]
fn best_action_returns_a_legal_placement() {
    let mut bot = Bot::new(20, 10, 43);
    let mut target = Board::new(10, 20);
    target.bulk_add(vec![(0, 0), (0, 1), (0, 2), (0, 3), (0, 4)]);
    let best = bot.best_action(1, &target, 0).unwrap();
    assert!(bot.game.board.piece_valid_placement(&best.placement));
    assert_eq!(score(&best.placement, &target, 0), 10);
}

#[test]
fn search_on_the_largest_board() {
    let mut bot = Bot::new(100, 100, 7);
    bot.game.active = bot.game.new_piece(2);
    let found = bot.search();
    let squares: Vec<&Placement> = found.iter().map(|a| &a.placement).filter(|p| p.piece_type == 2).collect();
    let shapes: HashSet<Vec<(i32, i32)>> = squares.iter().map(|p| cells(p)).collect();
    assert_eq!(shapes.len(), 99);
    assert_eq!(squares.len(), 396);
    for p in &squares {
        assert!(bot.game.board.piece_valid_placement(p));
    }
}

#[test]
fn search_results_replay_to_their_placements() {
    let mut bot = l_spin_bot();
    let found = bot.search();
    assert!(!found.is_empty());
    for entry in found {
        let target = entry.placement;
        let mut fresh = l_spin_bot();
        let mut actions = entry;
        actions.execute(&mut fresh.game);
        assert_eq!(fresh.game.active, target);
    }
}

#[test]
fn look_ahead_two_sequences_replay() {
    let mut bot = Bot::new(20, 10, 43);
    let results = bot.look_ahead(2);
    assert!(!results.is_empty());
    for entry in results.into_iter().take(40) {
        let target = entry.placement;
        let mut fresh = Bot::new(20, 10, 43);
        let mut actions = entry;
        actions.execute(&mut fresh.game);
        assert_eq!(fresh.game.active, target);
    }
}
