use mycelium_route::Hypha;

#[test]
fn hypha_test_new() {
    let h = Hypha::new(1, 10, 20);
    assert_eq!(h.id, 1);
    assert_eq!(h.source, 10);
    assert_eq!(h.target, 20);
}

#[test]
fn test_connects() {
    let h = Hypha::new(1, 10, 20);
    assert!(h.connects(10, 20));
    assert!(h.connects(20, 10));
    assert!(!h.connects(10, 30));
}

#[test]
fn test_other_end() {
    let h = Hypha::new(1, 10, 20);
    assert_eq!(h.other_end(10), Some(20));
    assert_eq!(h.other_end(20), Some(10));
    assert_eq!(h.other_end(30), None);
}

#[test]
fn other_end_round_trip_returns_home() {
    let h = Hypha::new(7, 3, 9);
    let far = h.other_end(3).unwrap();
    assert_eq!(h.other_end(far), Some(3));
    assert!(h.connects(3, far));
}

#[test]
fn self_loop_has_itself_as_other_end() {
    let h = Hypha::new(2, 5, 5);
    assert_eq!(h.other_end(5), Some(5));
    assert!(h.connects(5, 5));
    assert!(!h.connects(5, 6));
}

#[test]
fn connects_is_symmetric_on_values() {
    let h = Hypha::new(1, 4, 8);
    for a in 0..10u64 {
        for b in 0..10u64 {
            assert_eq!(h.connects(a, b), h.connects(b, a));
        }
    }
}
