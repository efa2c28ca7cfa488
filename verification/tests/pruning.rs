use blobwar::{minmax, minmax_visited, alpha_beta_visited, Position};

fn leaf_node(player: bool, score: i8) -> Position {
    Position { player, score, children: vec![] }
}

fn inner_node(player: bool, score: i8, children: Vec<(u64, Position)>) -> Position {
    Position { player, score, children }
}

/// A tree where Alpha-Beta cuts: once the first child proves 5, the second
/// child's first grandchild (worth 3) already fails low, so its sibling
/// (worth 8) is never visited.
fn pruned_tree() -> Position {
    inner_node(true, 0, vec![
        (1, inner_node(false, 0, vec![(11, leaf_node(true, 5)), (12, leaf_node(true, 9))])),
        (2, inner_node(false, 0, vec![(21, leaf_node(true, 3)), (22, leaf_node(true, 8))])),
    ])
}

/// A tree where no cutoff triggers: the second child improves on the first,
/// so every grandchild must be examined.
fn unpruned_tree() -> Position {
    inner_node(true, 0, vec![
        (1, inner_node(false, 0, vec![(11, leaf_node(true, 5)), (12, leaf_node(true, 9))])),
        (2, inner_node(false, 0, vec![(21, leaf_node(true, 6)), (22, leaf_node(true, 8))])),
    ])
}

#[test]
fn alpha_beta_visits_strictly_fewer_nodes_after_a_cutoff() {
    let t = pruned_tree();
    let mm_count = minmax_visited(&t, 2);
    let (ab_score, ab_count) = alpha_beta_visited(&t, 2, i8::MIN, i8::MAX, true);
    assert_eq!(mm_count, 7);
    assert_eq!(ab_count, 6);
    assert!(ab_count < mm_count);
    // Pruning never changes the value.
    let (_, mm_score) = minmax(&t, 2, true);
    assert_eq!(ab_score, mm_score);
    assert_eq!(ab_score, 5);
}

#[test]
fn alpha_beta_never_visits_more_nodes_than_minmax() {
    let t = unpruned_tree();
    let mm_count = minmax_visited(&t, 2);
    let (ab_score, ab_count) = alpha_beta_visited(&t, 2, i8::MIN, i8::MAX, true);
    assert_eq!(mm_count, 7);
    assert!(ab_count <= mm_count);
    assert_eq!(ab_count, 7);
    let (_, mm_score) = minmax(&t, 2, true);
    assert_eq!(ab_score, mm_score);
    assert_eq!(ab_score, 6);
}

#[test]
fn visit_counts_at_a_leaf_and_at_depth_zero() {
    let t = leaf_node(true, 7);
    assert_eq!(minmax_visited(&t, 5), 1);
    let (_, ab_count) = alpha_beta_visited(&t, 5, i8::MIN, i8::MAX, true);
    assert_eq!(ab_count, 1);
    let deep = pruned_tree();
    assert_eq!(minmax_visited(&deep, 0), 1);
    let (_, ab0) = alpha_beta_visited(&deep, 0, i8::MIN, i8::MAX, true);
    assert_eq!(ab0, 1);
}
