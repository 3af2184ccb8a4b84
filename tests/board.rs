use tetris_bot::analyzer::to_board;
use tetris_bot::board::Board;
use tetris_bot::bot::score;
use tetris_bot::piece::Placement;

#[test]
fn get_reads_off_board_cells_as_empty() {
    let mut board = Board::new(10, 20);
    board.add(0, 9);
    assert!(board.get(0, 9));
    assert!(!board.get(0, 10));
    assert!(!board.get(20, 0));
    assert!(!board.get(1000, 1000));
    board.remove(0, 9);
    assert!(!board.get(0, 9));
}

#[test]
fn line_clear_leaves_a_partial_row() {
    let mut board = Board::new(4, 3);
    board.bulk_add(vec![(0, 0), (0, 1), (0, 2)]);
    let before = board.clone();
    assert_eq!(board.line_clear(0), None);
    assert!(board == before);
    assert_eq!(board.arr.len(), 3);
}

#[test]
fn line_clear_removes_a_full_row_and_adds_an_empty_top_row() {
    let mut board = Board::new(3, 3);
    board.bulk_add(vec![(1, 0), (1, 1), (1, 2), (2, 1)]);
    assert_eq!(board.line_clear(1), Some(vec![true, true, true]));
    assert_eq!(board.height, 3);
    assert_eq!(board.arr, vec![vec![false, false, false], vec![false, true, false], vec![false, false, false]]);
}

#[test]
fn from_vec_takes_its_size_from_the_rows() {
    let board = Board::from_vec(vec![vec![true, false], vec![false, false], vec![false, true]]);
    assert_eq!(board.height, 3);
    assert_eq!(board.width, 2);
    assert!(board.get(0, 0));
    assert!(board.get(2, 1));
}

#[test]
fn placement_checks_on_an_empty_board() {
    let board = Board::new(10, 20);
    let resting = Placement::new(2, 0, 0, 4);
    assert!(board.piece_in_bounds(&resting));
    assert!(!board.piece_collision(&resting));
    assert!(board.piece_valid_location(&resting));
    assert!(board.piece_grounded(&resting));
    assert!(board.piece_valid_placement(&resting));
    let floating = Placement::new(2, 0, 5, 4);
    assert!(board.piece_valid_location(&floating));
    assert!(!board.piece_grounded(&floating));
    assert!(!board.piece_valid_placement(&floating));
    let off = Placement::new(4, 0, 0, 8);
    assert!(!board.piece_in_bounds(&off));
    assert!(!board.piece_valid_location(&off));
}

#[test]
fn collision_with_an_occupied_cell() {
    let mut board = Board::new(10, 20);
    board.add(1, 5);
    let p = Placement::new(2, 0, 0, 4);
    assert!(board.piece_collision(&p));
    assert!(!board.piece_valid_location(&p));
    let above = Placement::new(2, 0, 2, 4);
    assert!(board.piece_valid_placement(&above));
}

#[test]
fn rotation_shapes_and_kick_offsets() {
    let p = Placement::new(6, 1, 0, 0);
    assert_eq!(p.rel_locations(), [(0, 1), (1, 0), (0, 0), (-1, 0)]);
    let i = Placement::new(4, 3, 0, 0);
    assert_eq!(i.rel_locations(), [(-1, 0), (0, 0), (1, 0), (2, 0)]);
    assert_eq!(Placement::new(6, 1, 0, 0).get_offsets(1), [(0, 0), (0, 1), (-1, 1), (2, 0), (2, 1), (2, 1)]);
    assert_eq!(Placement::new(2, 3, 0, 0).get_offsets(2), [(1, -1); 6]);
    assert_eq!(Placement::new(4, 2, 0, 0).get_offsets(3), [(1, 0), (1, -2), (1, 1), (2, -2), (-1, 1), (-1, 1)]);
    let mut m = Placement::new(1, 3, 4, 4);
    m.rotate(2);
    assert_eq!(m.rotation_state, 1);
    m.shift(-2, 3);
    assert_eq!((m.row, m.col), (2, 7));
}

#[test]
fn to_string_draws_board_and_piece() {
    let mut board = Board::new(4, 3);
    board.add(0, 0);
    let piece = Placement::new(2, 0, 0, 1);
    assert_eq!(board.to_string(&piece), ". . . . \n. @ @ . \n# @ @ . \n");
}

#[test]
fn to_board_thresholds_and_flips_rows() {
    let board = to_board(2, 2, &vec![200, 0, 125, 126]);
    assert_eq!(board.height, 2);
    assert_eq!(board.width, 2);
    assert_eq!(board.arr, vec![vec![false, true], vec![true, false]]);
    let tall = to_board(1, 3, &vec![255, 10, 130]);
    assert_eq!(tall.arr, vec![vec![true], vec![false], vec![true]]);
}

#[test]
fn score_rewards_cells_on_the_target_row() {
    let mut target = Board::new(10, 20);
    target.bulk_add(vec![(0, 0), (0, 1), (0, 2), (0, 3)]);
    let flat = Placement::new(4, 0, 0, 1);
    assert_eq!(score(&flat, &target, 0), 40);
    assert_eq!(score(&flat, &target, 1), -80);
    let half = Placement::new(4, 0, 0, 3);
    assert_eq!(score(&half, &target, 0), -20);
}
