//! Rerouting around links that have decayed.
use vstd::prelude::*;
use crate::hypha::{Hypha, link_joins};
use crate::growth::Growth;
use crate::graph::{adjacent, bfs_route, hop, is_route, is_shortest_route};

verus! {

/// Some link in `links` carries identifier `id`.
pub open spec fn has_link_id(links: Seq<Hypha>, id: u64) -> bool {
    exists|i: int| 0 <= i < links.len() && #[trigger] links[i].id == id
}

/// `i` is the position of the first link in `links` that carries `id`.
pub open spec fn first_with_id(links: Seq<Hypha>, id: u64, i: int) -> bool {
    &&& 0 <= i < links.len()
    &&& links[i].id == id
    &&& forall|j: int| 0 <= j < i ==> #[trigger] links[j].id != id
}

/// The identifiers in `dead`, in order, that name some link in `links`.
pub open spec fn rerouted_ids(links: Seq<Hypha>, dead: Seq<u64>) -> Seq<u64>
    decreases dead.len(),
{
    if dead.len() == 0 {
        Seq::empty()
    } else {
        let rest = rerouted_ids(links, dead.drop_last());
        if has_link_id(links, dead.last()) {
            rest.push(dead.last())
        } else {
            rest
        }
    }
}

/// `path` is the breadth-first route, a shortest one, between the two ends
/// of the first link in `links` that carries `id`.
pub open spec fn detour_for(links: Seq<Hypha>, id: u64, path: Seq<u64>) -> bool {
    exists|i: int|
        #[trigger] first_with_id(links, id, i) && is_shortest_route(
            links,
            path,
            links[i].source,
            links[i].target,
        ) && path == bfs_route(links, links[i].source, links[i].target)
}

/// The identifiers of rerouting entries, in order.
pub open spec fn first_components(entries: Seq<(u64, Vec<u64>)>) -> Seq<u64> {
    entries.map_values(|e: (u64, Vec<u64>)| e.0)
}

/// The first link carrying `id`, if any.
fn find_link(links: &Vec<Hypha>, id: u64) -> (r: Option<Hypha>)
    ensures
        r is None <==> !has_link_id(links@, id),
        r matches Some(h) ==> exists|i: int| #[trigger] first_with_id(links@, id, i) && links@[i] == h,
{
    let n = links.len();
    for i in 0..n
        invariant
            n == links@.len(),
            forall|j: int| 0 <= j < i ==> #[trigger] links@[j].id != id,
    {
        if links[i].id == id {
            assert(first_with_id(links@, id, i as int));
            return Some(links[i]);
        }
    }
    None
}

/// For each identifier in `dead_links` that names a link of `network`, in
/// order, the identifier paired with the breadth-first (shortest) route
/// between that link's two ends. The network is not changed, so the link itself still counts.
pub fn reroute(network: &Growth, dead_links: &[u64]) -> (rerouted: Vec<(u64, Vec<u64>)>)
    ensures
        rerouted@.len() == rerouted_ids(network.links(), dead_links@).len(),
        forall|k: int|
            0 <= k < rerouted@.len() ==> {
                &&& (#[trigger] rerouted@[k]).0 == rerouted_ids(network.links(), dead_links@)[k]
                &&& detour_for(network.links(), rerouted@[k].0, rerouted@[k].1@)
            },
        exists|idx: Seq<int>|
            #[trigger] lists_named_ids(network.links(), dead_links@, first_components(rerouted@), idx),
{
    let ghost links = network.links();
    let mut rerouted: Vec<(u64, Vec<u64>)> = Vec::new();
    let n = dead_links.len();
    for idx in 0..n
        invariant
            n == dead_links@.len(),
            links == network.links(),
            rerouted@.len() == rerouted_ids(links, dead_links@.take(idx as int)).len(),
            forall|k: int|
                0 <= k < rerouted@.len() ==> {
                    &&& (#[trigger] rerouted@[k]).0 == rerouted_ids(
                        links,
                        dead_links@.take(idx as int),
                    )[k]
                    &&& detour_for(links, rerouted@[k].0, rerouted@[k].1@)
                },
    {
        let dead_id = dead_links[idx];
        let ghost prefix = dead_links@.take(idx as int);
        assert(dead_links@.take(idx + 1).drop_last() =~= prefix);
        assert(dead_links@.take(idx + 1).last() == dead_id);
        let ghost prev = rerouted@;
        let found = find_link(network.hyphae(), dead_id);
        if let Some(d) = found {
            let path = network.find_path(d.source, d.target);
            proof {
                let i = choose|i: int| #[trigger] first_with_id(links, dead_id, i) && links[i] == d;
                assert(link_joins(links[i], d.source, d.target));
                assert(adjacent(links, d.source, d.target));
                let direct = seq![d.source, d.target];
                assert(hop(links, direct, 0));
                assert(is_route(links, direct, d.source, d.target));
            }
            if !path.is_empty() {
                rerouted.push((dead_id, path));
                proof {
                    let i = choose|i: int| #[trigger] first_with_id(links, dead_id, i) && links[i] == d;
                    assert(detour_for(links, dead_id, rerouted@[prev.len() as int].1@));
                    assert forall|k: int| 0 <= k < prev.len() implies #[trigger] rerouted@[k]
                        == prev[k] by {}
                }
            }
        }
    }
    assert(dead_links@.take(n as int) =~= dead_links@);
    proof {
        rerouting_follows_dead_order(links, dead_links@);
        assert(first_components(rerouted@) =~= rerouted_ids(links, dead_links@));
    }
    rerouted
}

/// `idx` lists, in increasing order, exactly the positions of `dead` whose
/// identifier names some link in `links`, and `ids[k]` is the identifier at
/// position `idx[k]`.
pub open spec fn lists_named_ids(
    links: Seq<Hypha>,
    dead: Seq<u64>,
    ids: Seq<u64>,
    idx: Seq<int>,
) -> bool {
    &&& idx.len() == ids.len()
    &&& forall|k: int|
        0 <= k < idx.len() ==> 0 <= #[trigger] idx[k] < dead.len() && has_link_id(
            links,
            dead[idx[k]],
        ) && ids[k] == dead[idx[k]]
    &&& forall|k: int, l: int| 0 <= k < l < idx.len() ==> #[trigger] idx[k] < #[trigger] idx[l]
    &&& forall|i: int|
        0 <= i < dead.len() && has_link_id(links, #[trigger] dead[i]) ==> exists|k: int|
            0 <= k < idx.len() && #[trigger] idx[k] == i
}

/// Every dead identifier that names a link is rerouted, in the order given:
/// the rerouted identifiers are those of `dead` at exactly the positions
/// whose identifier names a link, taken by increasing position.
pub proof fn rerouting_follows_dead_order(links: Seq<Hypha>, dead: Seq<u64>)
    ensures
        exists|idx: Seq<int>| lists_named_ids(links, dead, rerouted_ids(links, dead), idx),
    decreases dead.len(),
{
    if dead.len() == 0 {
        assert(lists_named_ids(links, dead, rerouted_ids(links, dead), Seq::<int>::empty()));
    } else {
        let init = dead.drop_last();
        let n = dead.len() - 1;
        rerouting_follows_dead_order(links, init);
        let rest = rerouted_ids(links, init);
        let idx0 = choose|idx: Seq<int>| lists_named_ids(links, init, rest, idx);
        let ids = rerouted_ids(links, dead);
        assert forall|i: int| 0 <= i < n implies #[trigger] dead[i] == init[i] by {}
        if has_link_id(links, dead.last()) {
            let idx = idx0.push(n);
            assert(ids == rest.push(dead.last()));
            assert forall|k: int| 0 <= k < idx.len() implies 0 <= #[trigger] idx[k] < dead.len()
                && has_link_id(links, dead[idx[k]]) && ids[k] == dead[idx[k]] by {
                if k < idx0.len() {
                    assert(idx[k] == idx0[k]);
                    assert(dead[idx0[k]] == init[idx0[k]]);
                }
            }
            assert forall|k: int, l: int| 0 <= k < l < idx.len() implies #[trigger] idx[k]
                < #[trigger] idx[l] by {
                assert(idx[k] == idx0[k]);
                if l < idx0.len() {
                    assert(idx[l] == idx0[l]);
                }
            }
            assert forall|i: int|
                0 <= i < dead.len() && has_link_id(links, #[trigger] dead[i]) implies exists|k: int|
                0 <= k < idx.len() && #[trigger] idx[k] == i by {
                if i < n {
                    assert(has_link_id(links, init[i]));
                    let k = choose|k: int| 0 <= k < idx0.len() && #[trigger] idx0[k] == i;
                    assert(idx[k] == i);
                } else {
                    assert(idx[idx0.len() as int] == i);
                }
            }
            assert(lists_named_ids(links, dead, ids, idx));
        } else {
            let idx = idx0;
            assert(ids == rest);
            assert forall|k: int| 0 <= k < idx.len() implies 0 <= #[trigger] idx[k] < dead.len()
                && has_link_id(links, dead[idx[k]]) && ids[k] == dead[idx[k]] by {
                assert(dead[idx0[k]] == init[idx0[k]]);
            }
            assert forall|i: int|
                0 <= i < dead.len() && has_link_id(links, #[trigger] dead[i]) implies exists|k: int|
                0 <= k < idx.len() && #[trigger] idx[k] == i by {
                assert(i < n);
                assert(has_link_id(links, init[i]));
            }
            assert(lists_named_ids(links, dead, ids, idx));
        }
    }
}

} // verus!
