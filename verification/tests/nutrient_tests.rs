use mycelium_route::Nutrient;

#[test]
fn lib_test_new() {
    let n = Nutrient::new(1, 10, 20);
    assert_eq!(n.source, 10);
    assert_eq!(n.destination, 20);
    assert_eq!(n.ttl, 64);
}

#[test]
fn test_tick_ttl() {
    let mut n = Nutrient::new(1, 0, 1);
    assert!(n.tick_ttl());
    assert_eq!(n.ttl, 63);
}

#[test]
fn test_ttl_expires() {
    let mut n = Nutrient::new(1, 0, 1);
    n.ttl = 1;
    assert!(!n.tick_ttl());
}

#[test]
fn test_is_expired() {
    let mut n = Nutrient::new(1, 0, 1);
    assert!(!n.is_expired());
    n.ttl = 0;
    assert!(n.is_expired());
}

#[test]
fn fresh_packet_expires_on_sixty_fourth_tick() {
    let mut n = Nutrient::new(3, 1, 2);
    for _ in 0..63 {
        assert!(n.tick_ttl());
        assert!(!n.is_expired());
    }
    assert!(!n.tick_ttl());
    assert!(n.is_expired());
    assert_eq!(n.ttl, 0);
}

#[test]
fn expired_packet_stays_expired() {
    let mut n = Nutrient::new(3, 1, 2);
    n.ttl = 0;
    assert!(!n.tick_ttl());
    assert_eq!(n.ttl, 0);
    assert_eq!(n.id, 3);
    assert_eq!(n.source, 1);
    assert_eq!(n.destination, 2);
}
