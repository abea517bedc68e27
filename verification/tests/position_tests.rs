use hexing::position::HexDirection;
use hexing::utils::axial_round;
use hexing::utils::clamp;
use hexing::utils::hexagonal_lerp;
use hexing::utils::lerp;
use hexing::utils::neighbors;
use hexing::utils::HexBound;
use hexing::HexPosition;

#[test]
fn new_and_origin() {
    assert_eq!(HexPosition::new(1, -2), HexPosition(1, -2));
    assert_eq!(HexPosition::origin(), HexPosition(0, 0));
}

#[test]
fn arithmetic() {
    assert_eq!(HexPosition(1, 2).plus(HexPosition(3, -5)), HexPosition(4, -3));
    assert_eq!(HexPosition(1, 2).minus(HexPosition(3, -5)), HexPosition(-2, 7));
    assert_eq!(HexPosition(1, -2).times(3), HexPosition(3, -6));
    assert_eq!(HexPosition(1, -2).plus_scalar(4), HexPosition(5, 2));
    assert_eq!(HexPosition(1, -2).minus_scalar(4), HexPosition(-3, -6));
    assert_eq!(HexPosition(2, -3).times_pos(HexPosition(4, 5)), HexPosition(8, -15));
}

#[test]
fn division_truncates_toward_zero() {
    assert_eq!(HexPosition(7, -7).div_scalar(2), HexPosition(3, -3));
    assert_eq!(HexPosition(7, -7).rem_scalar(2), HexPosition(1, -1));
    assert_eq!(HexPosition(9, -9).div_pos(HexPosition(4, -2)), HexPosition(2, 4));
    assert_eq!(HexPosition(9, -9).rem_pos(HexPosition(4, -2)), HexPosition(1, -1));
    // the quotient and remainder recompose the dividend
    let a = HexPosition(23, -41);
    let b = HexPosition(-5, 7);
    let q = a.div_pos(b);
    let r = a.rem_pos(b);
    assert_eq!(q.times_pos(b).plus(r), a);
}

#[test]
fn distance_examples() {
    let a = HexPosition(0, 0);
    let b = HexPosition(-2, -1);
    assert_eq!(a.distance(b), 3);
    let p = HexPosition(1, -2);
    let q = HexPosition(-1, 1);
    assert_eq!(p.distance(q), 3);
}

#[test]
fn distance_self_and_symmetry() {
    let samples = [
        HexPosition(0, 0),
        HexPosition(3, -7),
        HexPosition(-4, 2),
        HexPosition(11, 11),
    ];
    for &p in samples.iter() {
        assert_eq!(p.distance(p), 0);
        for &q in samples.iter() {
            assert_eq!(p.distance(q), q.distance(p));
        }
    }
}

#[test]
fn rotation_twice_example() {
    let position = HexPosition(-3, 1);
    assert_eq!(position.rotation(2), HexPosition(2, -3));
}

#[test]
fn rotation_six_times_is_identity() {
    let samples = [HexPosition(-3, 1), HexPosition(0, 0), HexPosition(5, 7)];
    for &p in samples.iter() {
        let mut r = p;
        for _ in 0..6 {
            r = r.rotation(1);
        }
        assert_eq!(r, p);
        assert_eq!(p.rotation(6), p);
    }
}

#[test]
fn rotation_zero_is_identity() {
    let p = HexPosition(4, -9);
    assert_eq!(p.rotation(0), p);
}

#[test]
fn reflect_example() {
    assert_eq!(HexPosition(1, 0).reflect(), HexPosition(-1, 0));
}

#[test]
fn reflect_is_involution() {
    let samples = [HexPosition(1, 0), HexPosition(-3, 8), HexPosition(0, 0)];
    for &p in samples.iter() {
        assert_eq!(p.reflect().reflect(), p);
    }
}

#[test]
fn direction_vectors() {
    assert_eq!(HexDirection::Right.to_vector(), HexPosition(1, 0));
    assert_eq!(HexDirection::UpRight.to_vector(), HexPosition(1, -1));
    assert_eq!(HexDirection::UpLeft.to_vector(), HexPosition(0, -1));
    assert_eq!(HexDirection::Left.to_vector(), HexPosition(-1, 0));
    assert_eq!(HexDirection::DownLeft.to_vector(), HexPosition(-1, 1));
    assert_eq!(HexDirection::DownRight.to_vector(), HexPosition(0, 1));
}

#[test]
fn neighbors_are_six_at_distance_one_in_fixed_order() {
    let p = HexPosition(2, -5);
    let ns = neighbors(p);
    assert_eq!(ns.len(), 6);
    let expected = [
        HexPosition(3, -5),
        HexPosition(3, -6),
        HexPosition(2, -6),
        HexPosition(1, -5),
        HexPosition(1, -4),
        HexPosition(2, -4),
    ];
    for i in 0..6 {
        assert_eq!(ns[i], expected[i]);
        assert_eq!(p.distance(ns[i]), 1);
    }
}

#[test]
fn axial_round_example() {
    // the point (0.75, 0.1) rounds to (1, 0)
    assert_eq!(axial_round(75, 10, 100), HexPosition(1, 0));
}

#[test]
fn axial_round_tie_break_fixes_largest_error() {
    // (0.1, 0.75): the r component carries the largest rounding error and
    // is recomputed from the other two
    assert_eq!(axial_round(10, 75, 100), HexPosition(0, 1));
    // (0.3, 0.3): the implied s = -0.6 carries the largest error; q and r
    // keep their rounded values
    assert_eq!(axial_round(30, 30, 100), HexPosition(0, 0));
}

#[test]
fn axial_round_exact_integers_unchanged() {
    assert_eq!(axial_round(3 * 7, -5 * 7, 7), HexPosition(3, -5));
    assert_eq!(axial_round(0, 0, 1), HexPosition(0, 0));
    assert_eq!(axial_round(-4, 9, 1), HexPosition(-4, 9));
}

#[test]
fn axial_round_outputs_satisfy_cube_constraint() {
    // the implied cube coordinate s = -q - r always closes the triple
    let cases = [(75i128, 10i128, 100i128), (-13, 29, 40), (5, 5, 3)];
    for &(qn, rn, d) in cases.iter() {
        let p = axial_round(qn, rn, d);
        let s = -p.0 - p.1;
        assert_eq!(p.0 + p.1 + s, 0);
    }
}

#[test]
fn lerp_midpoint() {
    // lerp between 1 and 2 at one half is 1.5, scaled by the denominator 2
    assert_eq!(lerp(1, 2, 1, 2), 3);
    let (qn, rn) = hexagonal_lerp(HexPosition(0, 0), HexPosition(-4, 2), 1, 2);
    assert_eq!((qn, rn), (-4, 2));
}

#[test]
fn clamp_examples() {
    assert_eq!(clamp(5, 0, 10), 5);
    assert_eq!(clamp(-3, 0, 10), 0);
    assert_eq!(clamp(42, 0, 10), 10);
}

#[test]
fn hex_bound_contains() {
    let center = HexPosition::new(0, 0);
    let bound = HexBound::new(center, 2);
    assert_eq!(bound.radius(), 2);
    assert_eq!(bound.center(), center);
    assert!(bound.contains(HexPosition::new(1, -1)));
    assert!(!bound.contains(HexPosition::new(3, -3)));
}
