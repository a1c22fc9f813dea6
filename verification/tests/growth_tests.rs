use mycelium_route::{reroute, Growth};

#[test]
fn test_add_node() {
    let mut g = Growth::new();
    let id = g.add_node();
    assert_eq!(id, 1);
    assert_eq!(g.node_count(), 1);
}

#[test]
fn test_add_hypha() {
    let mut g = Growth::new();
    let a = g.add_node();
    let b = g.add_node();
    let h = g.add_hypha(a, b);
    assert!(h.is_some());
    assert_eq!(g.hypha_count(), 1);
}

#[test]
fn test_add_hypha_invalid() {
    let mut g = Growth::new();
    let a = g.add_node();
    assert!(g.add_hypha(a, 999).is_none());
}

#[test]
fn test_neighbors() {
    let mut g = Growth::new();
    let a = g.add_node();
    let b = g.add_node();
    let c = g.add_node();
    g.add_hypha(a, b);
    g.add_hypha(a, c);
    let nb = g.neighbors(a);
    assert_eq!(nb.len(), 2);
}

#[test]
fn test_find_path_simple() {
    let mut g = Growth::new();
    let a = g.add_node();
    let b = g.add_node();
    let c = g.add_node();
    g.add_hypha(a, b);
    g.add_hypha(b, c);
    let path = g.find_path(a, c);
    assert_eq!(path, vec![a, b, c]);
}

#[test]
fn test_find_path_no_path() {
    let mut g = Growth::new();
    let a = g.add_node();
    let b = g.add_node();
    let path = g.find_path(a, b);
    assert!(path.is_empty());
}

#[test]
fn test_find_path_same_node() {
    let mut g = Growth::new();
    let a = g.add_node();
    let path = g.find_path(a, a);
    assert_eq!(path, vec![a]);
}

#[test]
fn test_grow_toward() {
    let mut g = Growth::new();
    let a = g.add_node();
    let new = g.grow_toward(a);
    assert!(new.is_some());
    assert_eq!(g.node_count(), 2);
    assert_eq!(g.hypha_count(), 1);
}

#[test]
fn test_prune_dead() {
    let mut g = Growth::new();
    let a = g.add_node();
    let b = g.add_node();
    g.add_hypha(a, b);
    let health = 0.01_f64;
    let alive = vec![health > 0.1];
    let pruned = g.prune_dead(&alive);
    assert_eq!(pruned, 1);
    assert_eq!(g.hypha_count(), 0);
}

#[test]
fn test_ids_increment() {
    let mut g = Growth::new();
    let a = g.add_node();
    let b = g.add_node();
    assert!(b > a);
}

#[test]
fn test_reroute() {
    let mut g = Growth::new();
    let a = g.add_node();
    let b = g.add_node();
    let c = g.add_node();
    let h1 = g.add_hypha(a, b).unwrap();
    g.add_hypha(a, c);
    g.add_hypha(c, b);
    let rerouted = reroute(&g, &[h1]);
    assert!(!rerouted.is_empty());
}

#[test]
fn default_is_empty() {
    let g = Growth::default();
    assert_eq!(g.node_count(), 0);
    assert_eq!(g.hypha_count(), 0);
    assert_eq!(g.next_id(), 1);
}

#[test]
fn nodes_and_links_share_one_counter() {
    let mut g = Growth::new();
    let a = g.add_node();
    let b = g.add_node();
    let h = g.add_hypha(a, b).unwrap();
    let c = g.add_node();
    assert_eq!((a, b, h, c), (1, 2, 3, 4));
    assert_eq!(g.next_id(), 5);
    let link = g.hyphae()[0];
    assert_eq!((link.id, link.source, link.target), (3, 1, 2));
}

#[test]
fn missing_endpoint_changes_nothing() {
    let mut g = Growth::new();
    let a = g.add_node();
    assert_eq!(g.add_hypha(999, a), None);
    assert_eq!(g.next_id(), 2);
    assert_eq!(g.hypha_count(), 0);
    assert_eq!(g.grow_toward(999), None);
    assert_eq!(g.node_count(), 1);
}

#[test]
fn grow_toward_links_parent_to_child() {
    let mut g = Growth::new();
    let a = g.add_node();
    let child = g.grow_toward(a).unwrap();
    assert_eq!(child, 2);
    assert!(g.contains_node(child));
    let link = g.hyphae()[0];
    assert_eq!((link.id, link.source, link.target), (3, a, child));
    assert_eq!(g.find_path(child, a), vec![child, a]);
}

#[test]
fn neighbors_list_far_ends_in_link_order() {
    let mut g = Growth::new();
    let a = g.add_node();
    let b = g.add_node();
    let c = g.add_node();
    g.add_hypha(b, a);
    g.add_hypha(a, c);
    g.add_hypha(a, a);
    g.add_hypha(b, c);
    assert_eq!(g.neighbors(a), vec![b, c, a]);
    assert_eq!(g.neighbors(b), vec![a, c]);
    assert!(g.neighbors(b).contains(&a) && g.neighbors(a).contains(&b));
}

#[test]
fn find_path_prefers_fewest_hops() {
    let mut g = Growth::new();
    let ids: Vec<u64> = (0..5).map(|_| g.add_node()).collect();
    // long way round: 0-1-2-3-4, short cut: 0-4
    for w in ids.windows(2) {
        g.add_hypha(w[0], w[1]);
    }
    g.add_hypha(ids[0], ids[4]);
    assert_eq!(g.find_path(ids[0], ids[4]), vec![ids[0], ids[4]]);
    assert_eq!(g.find_path(ids[1], ids[4]).len(), 3);
    assert_eq!(g.find_path(ids[4], ids[1]).len(), 3);
}

#[test]
fn find_path_is_empty_both_ways_when_disconnected() {
    let mut g = Growth::new();
    let a = g.add_node();
    let b = g.add_node();
    let c = g.add_node();
    g.add_hypha(a, b);
    assert!(g.find_path(a, c).is_empty());
    assert!(g.find_path(c, a).is_empty());
    assert_eq!(g.find_path(b, a), vec![b, a]);
}

#[test]
fn find_path_to_self_needs_no_node() {
    let g = Growth::new();
    assert_eq!(g.find_path(42, 42), vec![42]);
    assert!(g.find_path(42, 43).is_empty());
}

#[test]
fn prune_keeps_live_links_in_order() {
    let mut g = Growth::new();
    let a = g.add_node();
    let b = g.add_node();
    let h1 = g.add_hypha(a, b).unwrap();
    let h2 = g.add_hypha(b, a).unwrap();
    let h3 = g.add_hypha(a, a).unwrap();
    let removed = g.prune_dead(&vec![true, false, true]);
    assert_eq!(removed, 1);
    let ids: Vec<u64> = g.hyphae().iter().map(|h| h.id).collect();
    assert_eq!(ids, vec![h1, h3]);
    assert!(!ids.contains(&h2));
    assert_eq!(g.prune_dead(&vec![true, true]), 0);
    assert_eq!(g.node_count(), 2);
}

#[test]
fn reroute_skips_unknown_ids_and_keeps_order() {
    let mut g = Growth::new();
    let a = g.add_node();
    let b = g.add_node();
    let c = g.add_node();
    let h1 = g.add_hypha(a, b).unwrap();
    let h2 = g.add_hypha(b, c).unwrap();
    let rerouted = reroute(&g, &[h2, 999, a, h1]);
    assert_eq!(rerouted.len(), 2);
    assert_eq!(rerouted[0], (h2, vec![b, c]));
    assert_eq!(rerouted[1], (h1, vec![a, b]));
    assert!(reroute(&g, &[]).is_empty());
}

#[test]
fn find_path_breaks_ties_by_discovery_order() {
    let mut g = Growth::new();
    let n1 = g.add_node();
    let n2 = g.add_node();
    let n3 = g.add_node();
    let n4 = g.add_node();
    g.add_hypha(n1, n2);
    g.add_hypha(n1, n3);
    g.add_hypha(n2, n4);
    g.add_hypha(n3, n4);
    assert_eq!(g.find_path(n1, n4), vec![n1, n2, n4]);
    assert_eq!(g.find_path(n4, n1), vec![n4, n2, n1]);
}
