use blobwar::{Strategy, MinMax, AlphaBeta, Position};

fn leaf_pos(player: bool, score: i8) -> Position {
    Position { player, score, children: vec![] }
}

fn branch_pos(player: bool, score: i8, children: Vec<(u64, Position)>) -> Position {
    Position { player, score, children }
}

fn with_two_moves() -> Position {
    branch_pos(true, 0, vec![(3, leaf_pos(false, 2)), (4, leaf_pos(false, -1))])
}

#[test]
fn driver_publishes_a_move_once_depth_one_completes() {
    // The iterative-deepening driver runs the engine at level 1, 2, 3, ...
    // and publishes each result. Level k searches k - 1 plies, so after the
    // level that completes the one-ply search the slot holds a real move,
    // and it still does when the next level begins.
    let state = with_two_moves();
    let mut slot: Option<u64> = None;
    for level in 1..=3u8 {
        if level > 2 {
            // A search one ply deep has completed by now.
            assert!(slot.is_some());
        }
        slot = MinMax(level).compute_next_move(&state);
        if level >= 2 {
            assert!(slot.is_some());
        }
    }
}

#[test]
fn alpha_beta_driver_publishes_a_move_once_depth_one_completes() {
    let state = with_two_moves();
    let mut slot: Option<u64> = None;
    for level in 1..=3u8 {
        slot = AlphaBeta(level).compute_next_move(&state);
        if level >= 2 {
            assert!(slot.is_some());
        }
    }
}

#[test]
fn level_one_strategy_searches_zero_plies() {
    let state = with_two_moves();
    assert_eq!(MinMax(1).compute_next_move(&state), None);
    assert_eq!(AlphaBeta(1).compute_next_move(&state), None);
}

#[test]
fn strategies_return_none_without_legal_moves() {
    let state = leaf_pos(true, 7);
    assert_eq!(MinMax(3).compute_next_move(&state), None);
    assert_eq!(AlphaBeta(3).compute_next_move(&state), None);
}

#[test]
fn strategies_pick_the_single_legal_move() {
    let state = branch_pos(true, 0, vec![(42, leaf_pos(false, 5))]);
    assert_eq!(MinMax(2).compute_next_move(&state), Some(42));
    assert_eq!(AlphaBeta(2).compute_next_move(&state), Some(42));
}

#[test]
fn strategies_agree_on_the_best_move_of_a_two_ply_game() {
    let state = branch_pos(true, 0, vec![
        (1, branch_pos(false, 0, vec![(11, leaf_pos(true, 5)), (12, leaf_pos(true, 9))])),
        (2, branch_pos(false, 0, vec![(21, leaf_pos(true, 3)), (22, leaf_pos(true, 8))])),
    ]);
    assert_eq!(MinMax(3).compute_next_move(&state), Some(1));
    assert_eq!(AlphaBeta(3).compute_next_move(&state), Some(1));
}
