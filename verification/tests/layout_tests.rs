use hexing::layout::HexLayout;
use hexing::HexPosition;

#[test]
fn range_one_has_single_member() {
    let map: HexLayout<i32> = HexLayout::new_from_range(1, HexPosition(0, 0));
    assert_eq!(map.len(), 1);
    assert_eq!(map.get(HexPosition(0, 0)), Some(&0));
    assert_eq!(map.get(HexPosition(0, 1)), None);
}

#[test]
fn range_two_has_seven_members() {
    let map: HexLayout<u8> = HexLayout::new_from_range(2, HexPosition(3, -2));
    assert_eq!(map.len(), 7);
    let center = HexPosition(3, -2);
    for p in map.positions() {
        assert!(center.distance(p) <= 1);
    }
}

#[test]
fn range_zero_is_empty() {
    let map: HexLayout<i32> = HexLayout::new_from_range(0, HexPosition(0, 0));
    assert!(map.is_empty());
}

#[test]
fn default_values_fill_the_range() {
    let map: HexLayout<bool> = HexLayout::new_from_range(3, HexPosition(0, 0));
    for p in map.positions() {
        assert_eq!(map.get(p), Some(&false));
    }
}

#[test]
fn set_get_delete_round_trip() {
    let mut map: HexLayout<i32> = HexLayout::new_from_range(1, HexPosition(0, 0));
    assert_eq!(map.len(), 1);
    map.get(HexPosition(0, 0));
    assert_eq!(map.set(HexPosition(0, 0), 10), Some(0));
    assert_eq!(map.get(HexPosition(0, 0)), Some(&10));
    assert_eq!(map.delete(HexPosition(0, 0)), Some(10));
    assert!(map.is_empty());
    assert_eq!(map.set(HexPosition(1, 0), 10), None);
    assert_eq!(map.get(HexPosition(1, 0)), Some(&10));
    assert_eq!(map.delete(HexPosition(5, 5)), None);
}

#[test]
fn clear_empties_the_layer() {
    let mut map: HexLayout<f64> = HexLayout::new_from_range(7, HexPosition(0, 0));
    assert!(!map.is_empty());
    map.clear();
    assert!(map.is_empty());
    assert_eq!(map.len(), 0);
}

#[test]
fn positions_data_iter_agree() {
    let mut map: HexLayout<i32> = HexLayout::new();
    map.set(HexPosition(0, 0), 1);
    map.set(HexPosition(1, 0), 2);
    map.set(HexPosition(0, 1), 3);
    assert_eq!(map.positions().len(), 3);
    assert_eq!(map.data().len(), 3);
    let entries = map.iter();
    assert_eq!(entries.len(), 3);
    let mut total = 0;
    for (p, v) in entries {
        assert_eq!(map.get(p), Some(v));
        total += *v;
    }
    assert_eq!(total, 6);
}

#[test]
fn data_mut_through_set() {
    let mut map: HexLayout<f64> = HexLayout::new_from_range(1, HexPosition(0, 0));
    let keys = map.positions();
    for p in keys {
        map.set(p, 10.0);
    }
    for v in map.data() {
        assert_eq!(*v, 10.0);
    }
}

#[test]
fn and_is_intersection() {
    let map1: HexLayout<f64> = HexLayout::new_from_range(3, HexPosition(0, 0));
    let map2: HexLayout<f64> = HexLayout::new_from_range(2, HexPosition(-2, 0));
    let and = map1.and(&map2);
    assert_eq!(and.len(), 4);
}

#[test]
fn or_is_union() {
    let map1: HexLayout<f64> = HexLayout::new_from_range(3, HexPosition(0, 0));
    let map2: HexLayout<f64> = HexLayout::new_from_range(2, HexPosition(-2, 0));
    let or = map1.or(&map2);
    assert_eq!(or.len(), 22);
}

#[test]
fn xor_is_symmetric_difference() {
    let map1: HexLayout<f64> = HexLayout::new_from_range(3, HexPosition(0, 0));
    let map2: HexLayout<f64> = HexLayout::new_from_range(2, HexPosition(-2, 0));
    let xor = map1.xor(&map2);
    assert_eq!(xor.len(), 18);
}

#[test]
fn set_algebra_identities_on_samples() {
    let layouts = [
        (1usize, HexPosition(0, 0)),
        (2, HexPosition(1, -1)),
        (3, HexPosition(-2, 0)),
    ];
    for &(r1, c1) in layouts.iter() {
        for &(r2, c2) in layouts.iter() {
            let a: HexLayout<u8> = HexLayout::new_from_range(r1, c1);
            let b: HexLayout<u8> = HexLayout::new_from_range(r2, c2);
            let and = a.and(&b).len();
            let or = a.or(&b).len();
            let xor = a.xor(&b).len();
            assert!(and <= a.len().min(b.len()));
            assert_eq!(or, a.len() + b.len() - and);
            assert_eq!(xor, or - and);
        }
    }
}

#[test]
fn xor_with_itself_is_empty() {
    let map: HexLayout<u8> = HexLayout::new_from_range(3, HexPosition(1, 1));
    assert_eq!(map.xor(&map).len(), 0);
    assert_eq!(map.and(&map).len(), map.len());
    assert_eq!(map.or(&map).len(), map.len());
}

#[test]
fn set_algebra_with_empty_layer() {
    let map: HexLayout<u8> = HexLayout::new_from_range(2, HexPosition(0, 0));
    let empty: HexLayout<u8> = HexLayout::new();
    assert_eq!(map.and(&empty).len(), 0);
    assert_eq!(map.or(&empty).len(), map.len());
    assert_eq!(map.xor(&empty).len(), map.len());
}

#[test]
fn member_count_formula() {
    for range in 1..6usize {
        let map: HexLayout<u8> = HexLayout::new_from_range(range, HexPosition(2, -3));
        assert_eq!(map.len(), 1 + 3 * (range - 1) * range);
    }
}
