//! The mathematical model of a network: links as an undirected multigraph,
//! routes through it, and the facts about them that the algorithms rely on.
use vstd::prelude::*;
use crate::hypha::{Hypha, link_joins, far_end};

verus! {

/// Some link in `links` joins `a` and `b`.
pub open spec fn adjacent(links: Seq<Hypha>, a: u64, b: u64) -> bool {
    exists|i: int| 0 <= i < links.len() && #[trigger] link_joins(links[i], a, b)
}

/// The `i`-th step of `p` follows a link.
pub open spec fn hop(links: Seq<Hypha>, p: Seq<u64>, i: int) -> bool {
    adjacent(links, p[i], p[i + 1])
}

/// `p` is a route from `from` to `to`: a non-empty sequence of nodes that
/// starts at `from`, ends at `to`, and whose consecutive nodes are linked.
pub open spec fn is_route(links: Seq<Hypha>, p: Seq<u64>, from: u64, to: u64) -> bool {
    &&& p.len() > 0
    &&& p[0] == from
    &&& p.last() == to
    &&& forall|i: int| 0 <= i < p.len() - 1 ==> #[trigger] hop(links, p, i)
}

/// Some route leads from `from` to `to`.
pub open spec fn reachable(links: Seq<Hypha>, from: u64, to: u64) -> bool {
    exists|p: Seq<u64>| #[trigger] is_route(links, p, from, to)
}

/// `p` is a route from `from` to `to` and no route between them visits fewer nodes.
pub open spec fn is_shortest_route(links: Seq<Hypha>, p: Seq<u64>, from: u64, to: u64) -> bool {
    &&& is_route(links, p, from, to)
    &&& forall|q: Seq<u64>| #[trigger] is_route(links, q, from, to) ==> p.len() <= q.len()
}

/// The far ends of the links that touch `node`, in link order, one per touching link.
pub open spec fn neighbor_seq(links: Seq<Hypha>, node: u64) -> Seq<u64>
    decreases links.len(),
{
    if links.len() == 0 {
        Seq::empty()
    } else {
        let rest = neighbor_seq(links.drop_last(), node);
        match far_end(links.last(), node) {
            Some(m) => rest.push(m),
            None => rest,
        }
    }
}

/// Every node that some link touches.
pub open spec fn endpoints(links: Seq<Hypha>) -> Set<u64>
    decreases links.len(),
{
    if links.len() == 0 {
        Set::empty()
    } else {
        endpoints(links.drop_last()).insert(links.last().source).insert(links.last().target)
    }
}

/// Adjacency does not depend on the direction in which it is read.
pub proof fn lemma_adjacent_symmetric(links: Seq<Hypha>, a: u64, b: u64)
    ensures
        adjacent(links, a, b) == adjacent(links, b, a),
{
    if adjacent(links, a, b) {
        let i = choose|i: int| 0 <= i < links.len() && #[trigger] link_joins(links[i], a, b);
        assert(link_joins(links[i], b, a));
    }
    if adjacent(links, b, a) {
        let i = choose|i: int| 0 <= i < links.len() && #[trigger] link_joins(links[i], b, a);
        assert(link_joins(links[i], a, b));
    }
}

/// The neighbour sequence of `node` holds exactly the nodes adjacent to it.
pub proof fn lemma_neighbor_seq_contains(links: Seq<Hypha>, node: u64, m: u64)
    ensures
        neighbor_seq(links, node).contains(m) <==> adjacent(links, node, m),
    decreases links.len(),
{
    if links.len() > 0 {
        let init = links.drop_last();
        lemma_neighbor_seq_contains(init, node, m);
        let rest = neighbor_seq(init, node);
        let last = links.last();
        if adjacent(init, node, m) {
            let i = choose|i: int| 0 <= i < init.len() && #[trigger] link_joins(init[i], node, m);
            assert(link_joins(links[i], node, m));
        }
        if adjacent(links, node, m) {
            let i = choose|i: int| 0 <= i < links.len() && #[trigger] link_joins(links[i], node, m);
            if i < links.len() - 1 {
                assert(link_joins(init[i], node, m));
            }
        }
        if link_joins(last, node, m) {
            assert(link_joins(links[links.len() - 1], node, m));
        }
        match far_end(last, node) {
            Some(e) => {
                assert(rest.push(e)[rest.len() as int] == e);
                if rest.push(e).contains(m) {
                    let k = choose|k: int| 0 <= k < rest.push(e).len() && rest.push(e)[k] == m;
                    if k < rest.len() {
                        assert(rest[k] == m);
                    }
                }
                if rest.contains(m) {
                    let k = choose|k: int| 0 <= k < rest.len() && rest[k] == m;
                    assert(rest.push(e)[k] == m);
                }
            },
            None => {},
        }
    }
}

/// The set of endpoints is finite.
pub proof fn lemma_endpoints_finite(links: Seq<Hypha>)
    ensures
        endpoints(links).finite(),
    decreases links.len(),
{
    if links.len() > 0 {
        lemma_endpoints_finite(links.drop_last());
    }
}

/// A node adjacent to anything is an endpoint.
pub proof fn lemma_adjacent_in_endpoints(links: Seq<Hypha>, a: u64, b: u64)
    requires
        adjacent(links, a, b),
    ensures
        endpoints(links).contains(b),
    decreases links.len(),
{
    let i = choose|i: int| 0 <= i < links.len() && #[trigger] link_joins(links[i], a, b);
    if i < links.len() - 1 {
        let init = links.drop_last();
        assert(link_joins(init[i], a, b));
        lemma_adjacent_in_endpoints(init, a, b);
    }
}

/// Extending a route by a link gives a route.
pub proof fn lemma_route_extend(links: Seq<Hypha>, p: Seq<u64>, from: u64, to: u64, next: u64)
    requires
        is_route(links, p, from, to),
        adjacent(links, to, next),
    ensures
        is_route(links, p.push(next), from, next),
{
    let q = p.push(next);
    assert forall|i: int| 0 <= i < q.len() - 1 implies #[trigger] hop(links, q, i) by {
        if i < p.len() - 1 {
            assert(hop(links, p, i));
        }
    }
}

/// A route of two or more nodes is a shorter route followed by a link.
pub proof fn lemma_route_prefix(links: Seq<Hypha>, p: Seq<u64>, from: u64, to: u64)
    requires
        is_route(links, p, from, to),
        p.len() > 1,
    ensures
        is_route(links, p.drop_last(), from, p[p.len() - 2]),
        adjacent(links, p[p.len() - 2], to),
{
    let q = p.drop_last();
    assert forall|i: int| 0 <= i < q.len() - 1 implies #[trigger] hop(links, q, i) by {
        assert(hop(links, p, i));
    }
    assert(hop(links, p, p.len() - 2));
}

/// A set that holds `from` and every neighbour of each of its members holds
/// every node reachable from `from`.
pub proof fn lemma_closed_set_holds_routes(
    links: Seq<Hypha>,
    s: Set<u64>,
    p: Seq<u64>,
    from: u64,
    to: u64,
)
    requires
        s.contains(from),
        forall|u: u64, w: u64| s.contains(u) && #[trigger] adjacent(links, u, w) ==> s.contains(w),
        is_route(links, p, from, to),
    ensures
        s.contains(to),
    decreases p.len(),
{
    if p.len() > 1 {
        lemma_route_prefix(links, p, from, to);
        lemma_closed_set_holds_routes(links, s, p.drop_last(), from, p[p.len() - 2]);
    }
}

/// Reversing a route gives a route back.
pub proof fn lemma_route_reverse(links: Seq<Hypha>, p: Seq<u64>, from: u64, to: u64)
    requires
        is_route(links, p, from, to),
    ensures
        is_route(links, p.reverse(), to, from),
{
    let r = p.reverse();
    let n = p.len();
    assert forall|i: int| 0 <= i < r.len() - 1 implies #[trigger] hop(links, r, i) by {
        let j = n - 2 - i;
        assert(hop(links, p, j));
        assert(r[i] == p[j + 1]);
        assert(r[i + 1] == p[j]);
        lemma_adjacent_symmetric(links, p[j], p[j + 1]);
    }
}

/// Reachability is symmetric, and shortest routes have the same length both ways.
pub proof fn reachability_is_symmetric(links: Seq<Hypha>, a: u64, b: u64, p: Seq<u64>, q: Seq<u64>)
    ensures
        reachable(links, a, b) == reachable(links, b, a),
        is_shortest_route(links, p, a, b) && is_shortest_route(links, q, b, a) ==> p.len()
            == q.len(),
{
    if reachable(links, a, b) {
        let r = choose|r: Seq<u64>| #[trigger] is_route(links, r, a, b);
        lemma_route_reverse(links, r, a, b);
    }
    if reachable(links, b, a) {
        let r = choose|r: Seq<u64>| #[trigger] is_route(links, r, b, a);
        lemma_route_reverse(links, r, b, a);
    }
    if is_shortest_route(links, p, a, b) && is_shortest_route(links, q, b, a) {
        lemma_route_reverse(links, p, a, b);
        lemma_route_reverse(links, q, b, a);
    }
}

/// The only shortest route from a node to itself is that node alone.
pub proof fn route_to_self_is_trivial(links: Seq<Hypha>, p: Seq<u64>, a: u64)
    ensures
        is_shortest_route(links, p, a, a) <==> p == seq![a],
{
    let t = seq![a];
    assert(is_route(links, t, a, a));
    if is_shortest_route(links, p, a, a) {
        assert(p =~= t);
    }
}

/// A breadth-first queue entry: a node and the route by which it was reached.
pub type Frontier = Seq<(u64, Seq<u64>)>;

/// Discovering the nodes of `nbrs` in order from the end of `path`: each one
/// not yet in `seen` is marked seen and put at the front of the queue with
/// `path` extended by it.
pub open spec fn bfs_expand(queue: Frontier, seen: Set<u64>, path: Seq<u64>, nbrs: Seq<u64>) -> (
    Frontier,
    Set<u64>,
)
    decreases nbrs.len(),
{
    if nbrs.len() == 0 {
        (queue, seen)
    } else {
        let (q, v) = bfs_expand(queue, seen, path, nbrs.drop_last());
        let n = nbrs.last();
        if v.contains(n) {
            (q, v)
        } else {
            (q.insert(0, (n, path.push(n))), v.insert(n))
        }
    }
}

/// Breadth-first search for `dest`, taking entries from the back of `queue`
/// and expanding neighbours in link order, for at most `fuel` steps: the
/// route of the first entry taken for `dest`, or empty when the queue runs
/// out first.
pub open spec fn bfs_search(
    links: Seq<Hypha>,
    dest: u64,
    queue: Frontier,
    seen: Set<u64>,
    fuel: nat,
) -> Seq<u64>
    decreases fuel,
{
    if fuel == 0 || queue.len() == 0 {
        Seq::empty()
    } else {
        let (current, path) = queue.last();
        if current == dest {
            path
        } else {
            let (q, v) = bfs_expand(queue.drop_last(), seen, path, neighbor_seq(links, current));
            bfs_search(links, dest, q, v, (fuel - 1) as nat)
        }
    }
}

/// The route that breadth-first search from `source` finds to `dest`. Each
/// node enters the queue at most once, so one step per node that any link
/// touches, plus one, is enough fuel for the search to finish.
pub open spec fn bfs_route(links: Seq<Hypha>, source: u64, dest: u64) -> Seq<u64> {
    bfs_search(
        links,
        dest,
        seq![(source, seq![source])],
        set![source],
        endpoints(links).insert(source).len() + 1,
    )
}

/// Neighbourhood is symmetric: `b` is among the neighbours of `a` exactly
/// when `a` is among the neighbours of `b`.
pub proof fn neighbors_are_symmetric(links: Seq<Hypha>, a: u64, b: u64)
    ensures
        neighbor_seq(links, a).contains(b) == neighbor_seq(links, b).contains(a),
{
    lemma_neighbor_seq_contains(links, a, b);
    lemma_neighbor_seq_contains(links, b, a);
    lemma_adjacent_symmetric(links, a, b);
}

/// `idx` lists, in increasing order, exactly the positions of the links in
/// `links` that touch `node`, and `nbrs[k]` is the far end of the link at
/// position `idx[k]`.
pub open spec fn lists_touching_links(
    links: Seq<Hypha>,
    node: u64,
    nbrs: Seq<u64>,
    idx: Seq<int>,
) -> bool {
    &&& idx.len() == nbrs.len()
    &&& forall|k: int|
        0 <= k < idx.len() ==> 0 <= #[trigger] idx[k] < links.len() && far_end(links[idx[k]], node)
            == Some(nbrs[k])
    &&& forall|k: int, l: int| 0 <= k < l < idx.len() ==> #[trigger] idx[k] < #[trigger] idx[l]
    &&& forall|i: int|
        0 <= i < links.len() && far_end(#[trigger] links[i], node) is Some ==> exists|k: int|
            0 <= k < idx.len() && #[trigger] idx[k] == i
}

/// The neighbour sequence has one entry per link that touches the node, in
/// link order: its entries are the far ends of exactly the touching links,
/// taken by increasing position.
pub proof fn neighbors_follow_link_order(links: Seq<Hypha>, node: u64)
    ensures
        exists|idx: Seq<int>| lists_touching_links(links, node, neighbor_seq(links, node), idx),
    decreases links.len(),
{
    if links.len() == 0 {
        assert(lists_touching_links(links, node, neighbor_seq(links, node), Seq::<int>::empty()));
    } else {
        let init = links.drop_last();
        let n = links.len() - 1;
        neighbors_follow_link_order(init, node);
        let rest = neighbor_seq(init, node);
        let idx0 = choose|idx: Seq<int>| lists_touching_links(init, node, rest, idx);
        let nbrs = neighbor_seq(links, node);
        assert forall|i: int| 0 <= i < n implies #[trigger] links[i] == init[i] by {}
        match far_end(links.last(), node) {
            Some(m) => {
                let idx = idx0.push(n);
                assert(nbrs == rest.push(m));
                assert forall|k: int| 0 <= k < idx.len() implies 0 <= #[trigger] idx[k] < links.len()
                    && far_end(links[idx[k]], node) == Some(nbrs[k]) by {
                    if k < idx0.len() {
                        assert(idx[k] == idx0[k]);
                        assert(links[idx0[k]] == init[idx0[k]]);
                    }
                }
                assert forall|k: int, l: int| 0 <= k < l < idx.len() implies #[trigger] idx[k]
                    < #[trigger] idx[l] by {
                    assert(idx[k] == idx0[k]);
                    if l < idx0.len() {
                        assert(idx[l] == idx0[l]);
                    }
                }
                assert forall|i: int|
                    0 <= i < links.len() && far_end(#[trigger] links[i], node) is Some implies exists|k: int|
                    0 <= k < idx.len() && #[trigger] idx[k] == i by {
                    if i < n {
                        assert(far_end(init[i], node) is Some);
                        let k = choose|k: int| 0 <= k < idx0.len() && #[trigger] idx0[k] == i;
                        assert(idx[k] == i);
                    } else {
                        assert(idx[idx0.len() as int] == i);
                    }
                }
                assert(lists_touching_links(links, node, nbrs, idx));
            },
            None => {
                let idx = idx0;
                assert(nbrs == rest);
                assert forall|k: int| 0 <= k < idx.len() implies 0 <= #[trigger] idx[k] < links.len()
                    && far_end(links[idx[k]], node) == Some(nbrs[k]) by {
                    assert(links[idx0[k]] == init[idx0[k]]);
                }
                assert forall|i: int|
                    0 <= i < links.len() && far_end(#[trigger] links[i], node) is Some implies exists|k: int|
                    0 <= k < idx.len() && #[trigger] idx[k] == i by {
                    assert(i < n);
                    assert(far_end(init[i], node) is Some);
                }
                assert(lists_touching_links(links, node, nbrs, idx));
            },
        }
    }
}

} // verus!
