use blobwar::{minmax, minmax_par, alpha_beta, alpha_beta_par, Position};

fn leaf(player: bool, score: i8) -> Position {
    Position { player, score, children: vec![] }
}

fn node(player: bool, score: i8, children: Vec<(u64, Position)>) -> Position {
    Position { player, score, children }
}

/// A two-ply tree: the maximizing root has two minimizing children, worth 5
/// and 3 to the maximizer, so the best move is 1 with value 5.
fn two_ply_tree() -> Position {
    node(true, 0, vec![
        (1, node(false, 0, vec![(11, leaf(true, 5)), (12, leaf(true, 9))])),
        (2, node(false, 0, vec![(21, leaf(true, 3)), (22, leaf(true, 8))])),
    ])
}

#[test]
fn terminal_position_as_maximizing_player() {
    let t = leaf(true, 7);
    assert_eq!(minmax(&t, 3, true), (None, 7));
    assert_eq!(minmax_par(&t, 3, true), (None, 7));
    assert_eq!(alpha_beta(&t, 3, i8::MIN, i8::MAX, true), (None, 7));
    assert_eq!(alpha_beta_par(&t, 3, i8::MIN, i8::MAX, true), (None, 7));
}

#[test]
fn terminal_position_as_non_maximizing_player() {
    let t = leaf(true, 7);
    assert_eq!(minmax(&t, 3, false), (None, -7));
    assert_eq!(minmax_par(&t, 3, false), (None, -7));
    assert_eq!(alpha_beta(&t, 3, i8::MIN, i8::MAX, false), (None, -7));
    assert_eq!(alpha_beta_par(&t, 3, i8::MIN, i8::MAX, false), (None, -7));
}

#[test]
fn depth_zero_returns_leaf_value_despite_moves() {
    let t = node(true, 2, vec![(1, leaf(false, 4)), (2, leaf(false, 6))]);
    assert_eq!(minmax(&t, 0, true), (None, 2));
    assert_eq!(minmax_par(&t, 0, true), (None, 2));
    assert_eq!(alpha_beta(&t, 0, i8::MIN, i8::MAX, true), (None, 2));
    assert_eq!(alpha_beta_par(&t, 0, i8::MIN, i8::MAX, true), (None, 2));
    assert_eq!(minmax(&t, 0, false), (None, -2));
    assert_eq!(alpha_beta(&t, 0, i8::MIN, i8::MAX, false), (None, -2));
}

#[test]
fn single_move_at_depth_one_returns_it_with_child_value() {
    let t = node(true, 0, vec![(42, leaf(false, 5))]);
    // The only child belongs to the opponent, so its value to the maximizer
    // is the negated raw score.
    assert_eq!(minmax(&t, 1, true), (Some(42), -5));
    assert_eq!(minmax_par(&t, 1, true), (Some(42), -5));
    assert_eq!(alpha_beta(&t, 1, i8::MIN, i8::MAX, true), (Some(42), -5));
    assert_eq!(alpha_beta_par(&t, 1, i8::MIN, i8::MAX, true), (Some(42), -5));
}

#[test]
fn two_ply_best_move_and_value() {
    let t = two_ply_tree();
    assert_eq!(minmax(&t, 2, true), (Some(1), 5));
    assert_eq!(alpha_beta(&t, 2, i8::MIN, i8::MAX, true), (Some(1), 5));
}

#[test]
fn sequential_and_parallel_minmax_scores_agree() {
    let t = two_ply_tree();
    let (_, seq) = minmax(&t, 2, true);
    let (_, par) = minmax_par(&t, 2, true);
    assert_eq!(seq, par);
    assert_eq!(seq, 5);
    let (_, seq_min) = minmax(&t, 2, false);
    let (_, par_min) = minmax_par(&t, 2, false);
    assert_eq!(seq_min, par_min);
}

#[test]
fn alpha_beta_score_equals_minmax_score() {
    let t = two_ply_tree();
    for depth in 0..4 {
        let (_, mm) = minmax(&t, depth, true);
        let (_, ab) = alpha_beta(&t, depth, i8::MIN, i8::MAX, true);
        let (_, abp) = alpha_beta_par(&t, depth, i8::MIN, i8::MAX, true);
        assert_eq!(ab, mm);
        assert_eq!(abp, mm);
        let (_, mm2) = minmax(&t, depth, false);
        let (_, ab2) = alpha_beta(&t, depth, i8::MIN, i8::MAX, false);
        assert_eq!(ab2, mm2);
    }
}

#[test]
fn rerunning_a_search_gives_the_same_score() {
    let t = two_ply_tree();
    let (m1, s1) = minmax(&t, 2, true);
    let (m2, s2) = minmax(&t, 2, true);
    assert_eq!(s1, s2);
    assert_eq!(m1, m2);
    let (_, p1) = minmax_par(&t, 2, true);
    let (_, p2) = minmax_par(&t, 2, true);
    assert_eq!(p1, p2);
    let (_, a1) = alpha_beta_par(&t, 2, i8::MIN, i8::MAX, true);
    let (_, a2) = alpha_beta_par(&t, 2, i8::MIN, i8::MAX, true);
    assert_eq!(a1, a2);
}

#[test]
fn sequential_tie_break_picks_first_best_move() {
    let t = node(true, 0, vec![(7, leaf(true, 5)), (8, leaf(true, 5))]);
    // Both moves are worth 5; the sequential engines keep the first.
    assert_eq!(minmax(&t, 1, true), (Some(7), 5));
    assert_eq!(alpha_beta(&t, 1, i8::MIN, i8::MAX, true), (Some(7), 5));
}

#[test]
fn narrow_window_fails_low_when_value_is_below_it() {
    let t = two_ply_tree();
    // The tree is worth 5 to the maximizer; inside the window [10, 20] every
    // child fails low, no move improves the bound, and the score stays at or
    // below the window's lower edge.
    let (m, s) = alpha_beta(&t, 2, 10, 20, true);
    assert_eq!(m, None);
    assert!(s <= 10);
}

#[test]
fn deeper_searches_of_all_engines_agree() {
    let deep = node(true, 1, vec![
        (1, node(false, 2, vec![
            (11, node(true, 3, vec![(111, leaf(false, 3)), (112, leaf(false, -2))])),
            (12, node(true, -4, vec![(121, leaf(false, 1)), (122, leaf(false, 4))])),
        ])),
        (2, node(false, -1, vec![
            (21, node(true, 0, vec![(211, leaf(false, -5)), (212, leaf(false, 6))])),
            (22, leaf(true, 2)),
        ])),
    ]);
    for depth in 0..5 {
        for maxi in [true, false] {
            let (_, mm) = minmax(&deep, depth, maxi);
            let (_, mp) = minmax_par(&deep, depth, maxi);
            let (_, ab) = alpha_beta(&deep, depth, i8::MIN, i8::MAX, maxi);
            let (_, ap) = alpha_beta_par(&deep, depth, i8::MIN, i8::MAX, maxi);
            assert_eq!(mp, mm);
            assert_eq!(ab, mm);
            assert_eq!(ap, mm);
        }
    }
}

#[test]
fn minimizing_root_picks_smallest_value() {
    // Root belongs to the player the maximizer is not: it minimizes.
    let t = node(false, 0, vec![(1, leaf(true, 4)), (2, leaf(true, -3))]);
    assert_eq!(minmax(&t, 1, true), (Some(2), -3));
    assert_eq!(alpha_beta(&t, 1, i8::MIN, i8::MAX, true), (Some(2), -3));
    let (_, par) = alpha_beta_par(&t, 1, i8::MIN, i8::MAX, true);
    assert_eq!(par, -3);
}
