use hexing::layout::HexLayout;
use hexing::HexPosition;

#[test]
fn neighbors_unblocked_on_open_layer() {
    let map: HexLayout<bool> = HexLayout::new_from_range(3, HexPosition(0, 0));
    let ns = map.neighbors_unblocked(HexPosition(0, 0));
    assert_eq!(ns.len(), 6);
}

#[test]
fn neighbors_unblocked_respects_blocks_and_edges() {
    let mut map: HexLayout<bool> = HexLayout::new_from_range(3, HexPosition(0, 0));
    map.delete(HexPosition(0, 0));
    map.set(HexPosition(1, 0), true);
    let ns = map.neighbors_unblocked(HexPosition(1, 1));
    // of the six neighbors, two lie outside the layer, one was blocked,
    // and the deleted center no longer counts
    assert_eq!(ns.len(), 3);
}

#[test]
fn pathfinding_trivial_when_start_equals_goal() {
    let map: HexLayout<bool> = HexLayout::new_from_range(3, HexPosition(0, 0));
    let path = map.pathfinding(HexPosition(0, 0), HexPosition(0, 0));
    assert_eq!(path, vec![HexPosition(0, 0)]);
}

#[test]
fn pathfinding_open_layer_straight_path() {
    let map: HexLayout<bool> = HexLayout::new_from_range(3, HexPosition(0, 0));
    let from = HexPosition(0, 0);
    let to = HexPosition(0, 2);
    let path = map.pathfinding(from, to);
    assert_eq!(path.len(), (from.distance(to) + 1) as usize);
    assert_eq!(path.len(), 3);
    assert_eq!(path[0], from);
    assert_eq!(path[path.len() - 1], to);
    for w in path.windows(2) {
        assert_eq!(w[0].distance(w[1]), 1);
    }
}

#[test]
fn pathfinding_routes_around_blocks() {
    let mut map: HexLayout<bool> = HexLayout::new_from_range(3, HexPosition(0, 0));
    map.set(HexPosition(-1, 1), true);
    map.set(HexPosition(1, -1), true);
    map.set(HexPosition(1, 0), true);
    map.set(HexPosition(0, 1), true);
    let from = HexPosition(0, 0);
    let to = HexPosition(0, 2);
    let path = map.pathfinding(from, to);
    assert_eq!(path.len(), 6);
    assert_eq!(path[0], from);
    assert_eq!(path[path.len() - 1], to);
    for w in path.windows(2) {
        assert_eq!(w[0].distance(w[1]), 1);
    }
    for p in path.iter().skip(1) {
        assert_eq!(map.get(*p), Some(&false));
    }
}

#[test]
fn pathfinding_follows_the_expected_route() {
    let mut map: HexLayout<bool> = HexLayout::new_from_range(3, HexPosition(0, 0));
    map.set(HexPosition(-1, 1), true);
    map.set(HexPosition(1, -1), true);
    map.set(HexPosition(1, 0), true);
    map.set(HexPosition(0, 1), true);
    let path = map.pathfinding(HexPosition(0, 0), HexPosition(0, 2));
    assert_eq!(
        path,
        vec![
            HexPosition(0, 0),
            HexPosition(-1, 0),
            HexPosition(-2, 1),
            HexPosition(-2, 2),
            HexPosition(-1, 2),
            HexPosition(0, 2),
        ]
    );
}

#[test]
fn pathfinding_unreachable_yields_goal_alone() {
    let mut map: HexLayout<bool> = HexLayout::new_from_range(3, HexPosition(0, 0));
    // wall off the goal completely
    for n in hexing::utils::neighbors(HexPosition(0, 2)) {
        if map.get(n).is_some() {
            map.set(n, true);
        }
    }
    let path = map.pathfinding(HexPosition(0, 0), HexPosition(0, 2));
    assert_eq!(path, vec![HexPosition(0, 2)]);
    assert_ne!(path[0], HexPosition(0, 0));
}

#[test]
fn field_of_move_open_layer() {
    let map: HexLayout<bool> = HexLayout::new_from_range(3, HexPosition(0, 0));
    let reachable = map.field_of_move(HexPosition(0, 0), 2);
    assert_eq!(reachable.len(), 19);
}

#[test]
fn field_of_move_with_blocked_neighbors() {
    let mut map: HexLayout<bool> = HexLayout::new_from_range(3, HexPosition(0, 0));
    map.set(HexPosition(0, 1), true);
    map.set(HexPosition(1, 0), true);
    map.set(HexPosition(0, -2), true);
    let reachable = map.field_of_move(HexPosition(0, 0), 2);
    assert_eq!(reachable.len(), 13);
}

#[test]
fn field_of_move_zero_range_is_start_alone() {
    let map: HexLayout<bool> = HexLayout::new_from_range(3, HexPosition(0, 0));
    let reachable = map.field_of_move(HexPosition(0, 0), 0);
    assert_eq!(reachable, vec![HexPosition(0, 0)]);
}

#[test]
fn field_of_view_excludes_positions_behind_blocks() {
    let mut map: HexLayout<bool> = HexLayout::new_from_range(6, HexPosition(0, 0));
    map.set(HexPosition(0, 1), true);
    let visible = map.field_of_view(HexPosition(0, 0), None);
    // the blocked cell itself is visible; its own state is irrelevant
    assert!(visible.contains(&HexPosition(0, 1)));
    // everything straight beyond it is hidden
    assert!(!visible.contains(&HexPosition(0, 2)));
    assert!(!visible.contains(&HexPosition(0, 5)));
    // unobstructed positions stay visible
    assert!(visible.contains(&HexPosition(0, 0)));
    assert!(visible.contains(&HexPosition(1, -1)));
    assert!(visible.contains(&HexPosition(0, -3)));
}

#[test]
fn field_of_view_blocked_target_on_two_cell_layer() {
    let mut map: HexLayout<bool> = HexLayout::new();
    map.set(HexPosition(0, 0), false);
    map.set(HexPosition(0, 1), true);
    let visible = map.field_of_view(HexPosition(0, 0), None);
    assert!(visible.contains(&HexPosition(0, 0)));
    assert!(visible.contains(&HexPosition(0, 1)));
}

#[test]
fn field_of_view_respects_range_limit() {
    let map: HexLayout<bool> = HexLayout::new_from_range(6, HexPosition(0, 0));
    let visible = map.field_of_view(HexPosition(0, 0), Some(2));
    // every member within distance 2 is unobstructed on an open layer
    assert_eq!(visible.len(), 19);
    for p in visible {
        assert!(HexPosition(0, 0).distance(p) <= 2);
    }
}

#[test]
fn field_of_view_without_limit_matches_generous_limit() {
    let mut map: HexLayout<bool> = HexLayout::new_from_range(4, HexPosition(0, 0));
    map.set(HexPosition(1, 0), true);
    map.set(HexPosition(-1, 2), true);
    let mut unlimited = map.field_of_view(HexPosition(0, 0), None);
    let mut limited = map.field_of_view(HexPosition(0, 0), Some(100));
    unlimited.sort_by_key(|p| (p.0, p.1));
    limited.sort_by_key(|p| (p.0, p.1));
    assert_eq!(unlimited, limited);
}
