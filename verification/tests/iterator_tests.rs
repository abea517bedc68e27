use hexing::HexPosition;

fn collect_ring(center: HexPosition, radius: usize) -> Vec<HexPosition> {
    let mut cursor = center.ring(radius);
    let mut out = Vec::new();
    while let Some(p) = cursor.next() {
        out.push(p);
    }
    out
}

fn collect_spiral(center: HexPosition, radius: usize) -> Vec<HexPosition> {
    let mut cursor = center.spiral(radius);
    let mut out = Vec::new();
    while let Some(p) = cursor.next() {
        out.push(p);
    }
    out
}

fn collect_line(a: HexPosition, b: HexPosition) -> Vec<HexPosition> {
    let mut cursor = a.line_to(b);
    let mut out = Vec::new();
    while let Some(p) = cursor.next() {
        out.push(p);
    }
    out
}

#[test]
fn ring_of_radius_one_walks_the_fixed_order() {
    let ring = collect_ring(HexPosition(0, 0), 1);
    assert_eq!(
        ring,
        vec![
            HexPosition(-1, 1),
            HexPosition(0, 1),
            HexPosition(1, 0),
            HexPosition(1, -1),
            HexPosition(0, -1),
            HexPosition(-1, 0),
        ]
    );
}

#[test]
fn ring_yields_six_times_radius_positions_at_that_distance() {
    let center = HexPosition(2, -1);
    for radius in 1..5usize {
        let ring = collect_ring(center, radius);
        assert_eq!(ring.len(), 6 * radius);
        for p in ring {
            assert_eq!(center.distance(p), radius as i64);
        }
    }
}

#[test]
fn ring_of_radius_zero_is_the_center_alone() {
    assert_eq!(collect_ring(HexPosition(3, 4), 0), vec![HexPosition(3, 4)]);
}

#[test]
fn ring_is_restartable() {
    let first = collect_ring(HexPosition(1, 1), 2);
    let second = collect_ring(HexPosition(1, 1), 2);
    assert_eq!(first, second);
    assert_eq!(first.len(), 12);
}

#[test]
fn spiral_is_center_then_growing_rings() {
    let center = HexPosition(0, 0);
    let spiral = collect_spiral(center, 2);
    assert_eq!(spiral.len(), 1 + 3 * 2 * 3);
    assert_eq!(spiral[0], center);
    let mut expected = vec![center];
    expected.extend(collect_ring(center, 1));
    expected.extend(collect_ring(center, 2));
    assert_eq!(spiral, expected);
}

#[test]
fn spiral_length_formula() {
    let center = HexPosition(-2, 5);
    for radius in 0..5usize {
        let spiral = collect_spiral(center, radius);
        assert_eq!(spiral.len(), 1 + 3 * radius * (radius + 1));
    }
}

#[test]
fn line_to_self_is_single_position() {
    let c = HexPosition(3, -2);
    assert_eq!(collect_line(c, c), vec![c]);
}

#[test]
fn line_has_distance_plus_one_positions_with_exact_endpoints() {
    let a = HexPosition(0, 0);
    let b = HexPosition(-2, -1);
    let line = collect_line(a, b);
    assert_eq!(line.len(), (a.distance(b) + 1) as usize);
    assert_eq!(line.len(), 4);
    assert_eq!(line[0], a);
    assert_eq!(line[line.len() - 1], b);
    for w in line.windows(2) {
        assert_eq!(w[0].distance(w[1]), 1);
    }
}

#[test]
fn straight_line_along_an_axis() {
    let line = collect_line(HexPosition(0, 0), HexPosition(0, 3));
    assert_eq!(
        line,
        vec![
            HexPosition(0, 0),
            HexPosition(0, 1),
            HexPosition(0, 2),
            HexPosition(0, 3),
        ]
    );
}

#[test]
fn ring_remaining_counts_down() {
    let mut cursor = HexPosition(0, 0).ring(2);
    assert_eq!(cursor.remaining(), 12);
    cursor.next();
    assert_eq!(cursor.remaining(), 11);
    while cursor.next().is_some() {}
    assert_eq!(cursor.remaining(), 0);
}
