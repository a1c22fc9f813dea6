//! Network expansion: nodes, the links between them, and route finding.
use vstd::prelude::*;
use std::collections::HashSet;
use crate::hypha::Hypha;
use crate::graph::{
    adjacent, endpoints, is_route, is_shortest_route, lemma_adjacent_in_endpoints,
    lemma_closed_set_holds_routes, lemma_endpoints_finite, lemma_neighbor_seq_contains,
    lemma_route_extend, lemma_route_prefix, neighbor_seq, reachable, bfs_expand, bfs_search,
    bfs_route, Frontier, lists_touching_links, neighbors_follow_link_order,
};

verus! {

broadcast use vstd::std_specs::hash::group_hash_axioms;

/// The links of `links[..n]` whose flag in `alive` is true, in order.
pub open spec fn surviving(links: Seq<Hypha>, alive: Seq<bool>, n: nat) -> Seq<Hypha>
    decreases n,
{
    if n == 0 {
        Seq::empty()
    } else {
        let rest = surviving(links, alive, (n - 1) as nat);
        if alive[n - 1] {
            rest.push(links[n - 1])
        } else {
            rest
        }
    }
}

/// A search queue as nodes paired with the routes that reached them.
pub open spec fn queue_view(queue: Seq<(u64, Vec<u64>)>) -> Frontier {
    queue.map_values(|e: (u64, Vec<u64>)| (e.0, e.1@))
}

/// The topology of a growing network: its nodes, the links between them,
/// and the next identifier to hand out.
///
/// Nodes and links draw their identifiers from one counter, so no two of
/// them ever share an identifier.
pub struct Growth {
    nodes: HashSet<u64>,
    hyphae: Vec<Hypha>,
    next_id: u64,
}

impl Growth {
    /// The identifiers of the nodes.
    pub closed spec fn node_ids(&self) -> Set<u64> {
        self.nodes@
    }

    /// The links, in the order in which they were added.
    pub closed spec fn links(&self) -> Seq<Hypha> {
        self.hyphae@
    }

    /// The identifier that the next node or link will receive.
    pub closed spec fn next_free_id(&self) -> u64 {
        self.next_id
    }

    /// The node set is finite, identifiers are positive and below the counter, no link shares an
    /// identifier with a node or another link, and every link joins two nodes.
    pub open spec fn wf(&self) -> bool {
        &&& 1 <= self.next_free_id()
        &&& self.node_ids().finite()
        &&& forall|n: u64| #[trigger] self.node_ids().contains(n) ==> 1 <= n < self.next_free_id()
        &&& forall|i: int|
            0 <= i < self.links().len() ==> {
                let h = #[trigger] self.links()[i];
                &&& 1 <= h.id < self.next_free_id()
                &&& !self.node_ids().contains(h.id)
                &&& self.node_ids().contains(h.source)
                &&& self.node_ids().contains(h.target)
            }
        &&& forall|i: int, j: int|
            0 <= i < j < self.links().len() ==> #[trigger] self.links()[i].id
                != #[trigger] self.links()[j].id
    }

    /// An empty network whose first identifier will be 1.
    pub fn new() -> (g: Self)
        ensures
            g.wf(),
            g.node_ids() == Set::<u64>::empty(),
            g.links() == Seq::<Hypha>::empty(),
            g.next_free_id() == 1,
    {
        Growth { nodes: HashSet::new(), hyphae: Vec::new(), next_id: 1 }
    }

    /// The identifier that the next node or link will receive.
    pub fn next_id(&self) -> (r: u64)
        ensures
            r == self.next_free_id(),
    {
        self.next_id
    }

    /// The links, in the order in which they were added.
    pub fn hyphae(&self) -> (r: &Vec<Hypha>)
        ensures
            r@ == self.links(),
    {
        &self.hyphae
    }

    /// Whether a node with this identifier exists.
    pub fn contains_node(&self, node_id: u64) -> (r: bool)
        ensures
            r == self.node_ids().contains(node_id),
    {
        self.nodes.contains(&node_id)
    }

    /// The number of nodes.
    pub fn node_count(&self) -> (r: usize)
        ensures
            r == self.node_ids().len(),
    {
        self.nodes.len()
    }

    /// The number of links.
    pub fn hypha_count(&self) -> (r: usize)
        ensures
            r == self.links().len(),
    {
        self.hyphae.len()
    }

    /// Adds a node under the next identifier and returns that identifier.
    pub fn add_node(&mut self) -> (id: u64)
        requires
            old(self).wf(),
            old(self).next_free_id() < u64::MAX,
        ensures
            final(self).wf(),
            id == old(self).next_free_id(),
            !old(self).node_ids().contains(id),
            forall|n: u64| #[trigger] old(self).node_ids().contains(n) ==> n < id,
            final(self).node_ids() == old(self).node_ids().insert(id),
            final(self).node_ids().len() == old(self).node_ids().len() + 1,
            final(self).links() == old(self).links(),
            final(self).next_free_id() == id + 1,
    {
        let id = self.next_id;
        self.next_id = self.next_id + 1;
        self.nodes.insert(id);
        proof {
            assert forall|n: u64| #[trigger] self.nodes@.contains(n) implies 1 <= n < self.next_id by {
                if n != id {
                    assert(old(self).node_ids().contains(n));
                }
            }
            assert forall|i: int| 0 <= i < self.hyphae@.len() implies {
                let h = #[trigger] self.hyphae@[i];
                &&& 1 <= h.id < self.next_id
                &&& !self.nodes@.contains(h.id)
                &&& self.nodes@.contains(h.source)
                &&& self.nodes@.contains(h.target)
            } by {
                assert(old(self).links()[i] == self.hyphae@[i]);
            }
            assert forall|i: int, j: int|
                0 <= i < j < self.hyphae@.len() implies #[trigger] self.hyphae@[i].id
                != #[trigger] self.hyphae@[j].id by {
                assert(old(self).links()[i].id != old(self).links()[j].id);
            }
        }
        id
    }

    /// Links `source` to `target` under the next identifier and returns it,
    /// or returns `None` and changes nothing when either node is missing.
    pub fn add_hypha(&mut self, source: u64, target: u64) -> (r: Option<u64>)
        requires
            old(self).wf(),
            old(self).node_ids().contains(source) && old(self).node_ids().contains(target)
                ==> old(self).next_free_id() < u64::MAX,
        ensures
            final(self).wf(),
            r is None <==> !(old(self).node_ids().contains(source) && old(self).node_ids().contains(
                target,
            )),
            r is None ==> *final(self) == *old(self),
            r matches Some(id) ==> {
                &&& id == old(self).next_free_id()
                &&& final(self).links() == old(self).links().push(Hypha { id, source, target })
                &&& final(self).node_ids() == old(self).node_ids()
                &&& final(self).next_free_id() == id + 1
            },
    {
        if !self.nodes.contains(&source) || !self.nodes.contains(&target) {
            return None;
        }
        let id = self.next_id;
        self.next_id = self.next_id + 1;
        self.hyphae.push(Hypha::new(id, source, target));
        proof {
            let old_links = old(self).links();
            assert forall|i: int| 0 <= i < old_links.len() implies #[trigger] self.hyphae@[i]
                == old_links[i] by {}
            assert forall|i: int, j: int|
                0 <= i < j < self.hyphae@.len() implies #[trigger] self.hyphae@[i].id
                != #[trigger] self.hyphae@[j].id by {
                if j < old_links.len() {
                    assert(old_links[i].id != old_links[j].id);
                } else {
                    assert(old_links[i].id < id);
                }
            }
        }
        Some(id)
    }

    /// Grows a new node out of `from_id`, linked to it, and returns the new
    /// node's identifier; the link takes the identifier after it. Returns
    /// `None` and changes nothing when `from_id` is not a node.
    pub fn grow_toward(&mut self, from_id: u64) -> (r: Option<u64>)
        requires
            old(self).wf(),
            old(self).node_ids().contains(from_id) ==> old(self).next_free_id() < u64::MAX - 1,
        ensures
            final(self).wf(),
            r is None <==> !old(self).node_ids().contains(from_id),
            r is None ==> *final(self) == *old(self),
            r matches Some(id) ==> {
                &&& id == old(self).next_free_id()
                &&& final(self).node_ids() == old(self).node_ids().insert(id)
                &&& final(self).node_ids().len() == old(self).node_ids().len() + 1
                &&& final(self).links() == old(self).links().push(
                    Hypha { id: (id + 1) as u64, source: from_id, target: id },
                )
                &&& final(self).next_free_id() == id + 2
            },
    {
        if !self.nodes.contains(&from_id) {
            return None;
        }
        let new_id = self.add_node();
        let linked = self.add_hypha(from_id, new_id);
        assert(linked is Some);
        Some(new_id)
    }

    /// Removes the links whose flag in `alive` is false, keeping the order of
    /// the rest, and returns how many were removed. `alive[i]` belongs to the
    /// `i`-th link.
    pub fn prune_dead(&mut self, alive: &Vec<bool>) -> (removed: usize)
        requires
            old(self).wf(),
            alive@.len() == old(self).links().len(),
        ensures
            final(self).wf(),
            final(self).links() == surviving(old(self).links(), alive@, old(self).links().len()),
            final(self).node_ids() == old(self).node_ids(),
            final(self).next_free_id() == old(self).next_free_id(),
            removed == old(self).links().len() - final(self).links().len(),
            exists|idx: Seq<int>|
                lists_live_links(
                    old(self).links(),
                    alive@,
                    old(self).links().len() as int,
                    final(self).links(),
                    idx,
                ),
    {
        let before = self.hyphae.len();
        let ghost old_links = self.hyphae@;
        let mut kept: Vec<Hypha> = Vec::new();
        let ghost mut origin: Seq<int> = Seq::empty();
        for i in 0..before
            invariant
                before == old_links.len(),
                old_links == self.hyphae@,
                alive@.len() == before,
                kept@ == surviving(old_links, alive@, i as nat),
                origin.len() == kept@.len(),
                kept@.len() <= i,
                forall|k: int|
                    0 <= k < origin.len() ==> 0 <= #[trigger] origin[k] < i && kept@[k]
                        == old_links[origin[k]],
                forall|k: int, l: int|
                    0 <= k < l < origin.len() ==> #[trigger] origin[k] < #[trigger] origin[l],
        {
            if alive[i] {
                kept.push(self.hyphae[i]);
                proof {
                    origin = origin.push(i as int);
                }
            }
        }
        self.hyphae = kept;
        proof {
            pruning_keeps_live_links_in_order(old_links, alive@, before as nat);
            let old_self = old(self);
            assert forall|n: u64| #[trigger] self.nodes@.contains(n) implies 1 <= n < self.next_id by {
                assert(old_self.node_ids().contains(n));
            }
            assert forall|k: int| 0 <= k < self.hyphae@.len() implies {
                let h = #[trigger] self.hyphae@[k];
                &&& 1 <= h.id < self.next_id
                &&& !self.nodes@.contains(h.id)
                &&& self.nodes@.contains(h.source)
                &&& self.nodes@.contains(h.target)
            } by {
                assert(old_self.links()[origin[k]] == self.hyphae@[k]);
            }
            assert forall|k: int, l: int|
                0 <= k < l < self.hyphae@.len() implies #[trigger] self.hyphae@[k].id
                != #[trigger] self.hyphae@[l].id by {
                assert(origin[k] < origin[l]);
                assert(old_self.links()[origin[k]].id != old_self.links()[origin[l]].id);
            }
        }
        before - self.hyphae.len()
    }

    /// The far ends of the links touching `node_id`, one per link, in link order.
    pub fn neighbors(&self, node_id: u64) -> (r: Vec<u64>)
        ensures
            r@ == neighbor_seq(self.links(), node_id),
            exists|idx: Seq<int>| lists_touching_links(self.links(), node_id, r@, idx),
    {
        let mut r: Vec<u64> = Vec::new();
        let n = self.hyphae.len();
        for i in 0..n
            invariant
                n == self.hyphae@.len(),
                r@ == neighbor_seq(self.hyphae@.take(i as int), node_id),
        {
            let ghost pre = self.hyphae@.take(i as int);
            assert(self.hyphae@.take(i + 1).drop_last() =~= pre);
            match self.hyphae[i].other_end(node_id) {
                Some(m) => r.push(m),
                None => {},
            }
        }
        assert(self.hyphae@.take(n as int) =~= self.hyphae@);
        proof {
            neighbors_follow_link_order(self.hyphae@, node_id);
        }
        r
    }

    /// A shortest route from `source` to `dest` by breadth-first search, or an
    /// empty vector when `dest` cannot be reached. A node is a route to itself.
    /// Among equally short routes it returns the one the search discovers
    /// first: entries are taken from the back of the queue, new ones go to the
    /// front, and neighbours are visited in link order.
    pub fn find_path(&self, source: u64, dest: u64) -> (path: Vec<u64>)
        ensures
            path@.len() == 0 <==> !reachable(self.links(), source, dest),
            path@.len() > 0 ==> is_shortest_route(self.links(), path@, source, dest),
            path@ == bfs_route(self.links(), source, dest),
    {
        let ghost links = self.links();
        let ghost universe = endpoints(links).insert(source);
        proof {
            lemma_endpoints_finite(links);
        }
        let mut visited: HashSet<u64> = HashSet::new();
        let mut start: Vec<u64> = Vec::new();
        start.push(source);
        let mut queue: Vec<(u64, Vec<u64>)> = Vec::new();
        queue.push((source, start));
        visited.insert(source);
        let ghost mut done: Set<u64> = Set::empty();
        let ghost mut fuel: nat = universe.len() + 1;
        proof {
            assert(queue_view(queue@) =~= seq![(source, seq![source])]);
            assert(visited@ =~= set![source]);
            assert(queue@[0].0 == source);
            assert(is_route(links, queue@[0].1@, source, source));
            assert forall|i: int, q: Seq<u64>|
                0 <= i < queue@.len() && #[trigger] is_route(links, q, source, queue@[i].0)
                implies queue@[i].1@.len() <= q.len() by {}
            vstd::set_lib::lemma_len_subset(visited@, universe);
        }
        loop
            invariant
                links == self.links(),
                universe == endpoints(links).insert(source),
                universe.finite(),
                visited@.finite(),
                visited@.subset_of(universe),
                visited@.len() <= universe.len(),
                visited@.contains(source),
                forall|v: u64|
                    #[trigger] visited@.contains(v) ==> done.contains(v) || exists|i: int|
                        0 <= i < queue@.len() && queue@[i].0 == v,
                forall|i: int|
                    0 <= i < queue@.len() ==> is_route(
                        links,
                        (#[trigger] queue@[i]).1@,
                        source,
                        queue@[i].0,
                    ),
                forall|i: int, q: Seq<u64>|
                    0 <= i < queue@.len() && #[trigger] is_route(links, q, source, queue@[i].0)
                        ==> queue@[i].1@.len() <= q.len(),
                forall|i: int, j: int|
                    0 <= i <= j < queue@.len() ==> #[trigger] queue@[j].1@.len()
                        <= #[trigger] queue@[i].1@.len(),
                queue@.len() > 0 ==> queue@[0].1@.len() <= queue@.last().1@.len() + 1,
                forall|u: u64, w: u64|
                    done.contains(u) && #[trigger] adjacent(links, u, w) ==> visited@.contains(w),
                queue@.len() > 0 ==> forall|w: u64, q: Seq<u64>|
                    #[trigger] is_route(links, q, source, w) && q.len() < queue@.last().1@.len()
                        ==> done.contains(w),
                !done.contains(dest),
                fuel == queue@.len() + universe.len() - visited@.len() + 1,
                bfs_search(links, dest, queue_view(queue@), visited@, fuel) == bfs_route(
                    links,
                    source,
                    dest,
                ),
            decreases universe.len() - visited@.len(), queue@.len(),
        {
            let ghost old_queue = queue@;
            let popped = queue.pop();
            match popped {
                None => {
                    proof {
                        assert forall|u: u64, w: u64|
                            done.contains(u) && #[trigger] adjacent(links, u, w) implies done.contains(
                            w,
                        ) by {
                            assert(visited@.contains(w));
                        }
                        assert(visited@.contains(source));
                        if reachable(links, source, dest) {
                            let q = choose|q: Seq<u64>| #[trigger] is_route(links, q, source, dest);
                            lemma_closed_set_holds_routes(links, done, q, source, dest);
                        }
                    }
                    return Vec::new();
                },
                Some(entry) => {
                    let (current, path) = entry;
                    let ghost level = path@.len();
                    let ghost last = old_queue.len() - 1;
                    assert(old_queue[last].0 == current);
                    assert(is_route(links, path@, source, current));
                    assert(queue_view(old_queue).last() == (current, path@));
                    assert(queue_view(queue@) =~= queue_view(old_queue).drop_last());
                    if current == dest {
                        proof {
                            assert forall|q: Seq<u64>|
                                #[trigger] is_route(links, q, source, dest) implies path@.len()
                                <= q.len() by {
                                assert(is_route(links, q, source, old_queue[last].0));
                            }
                        }
                        return path;
                    }
                    let ghost prev_done = done;
                    let ghost base_visited = visited@;
                    let ghost base_len = queue@.len();
                    let ghost base_view = queue_view(queue@);
                    proof {
                        done = done.insert(current);
                        assert forall|v: u64|
                            #[trigger] visited@.contains(v) implies done.contains(v) || exists|i: int|
                                0 <= i < queue@.len() && queue@[i].0 == v by {
                            if !done.contains(v) {
                                let i = choose|i: int| 0 <= i < old_queue.len() && old_queue[i].0 == v;
                                assert(i != last);
                                assert(queue@[i] == old_queue[i]);
                            }
                        }
                    }
                    let nbrs = self.neighbors(current);
                    let count = nbrs.len();
                    for j in 0..count
                        invariant
                            links == self.links(),
                            universe == endpoints(links).insert(source),
                            universe.finite(),
                            visited@.finite(),
                            visited@.subset_of(universe),
                            visited@.contains(source),
                            count == nbrs@.len(),
                            nbrs@ == neighbor_seq(links, current),
                            is_route(links, path@, source, current),
                            path@.len() == level,
                            level >= 1,
                            done == prev_done.insert(current),
                            current != dest,
                            !prev_done.contains(dest),
                            base_visited.subset_of(visited@),
                            visited@.len() - base_visited.len() == queue@.len() - base_len,
                            queue@.len() >= base_len,
                            forall|v: u64|
                                #[trigger] visited@.contains(v) ==> done.contains(v) || exists|i: int|
                                    0 <= i < queue@.len() && queue@[i].0 == v,
                            forall|i: int|
                                0 <= i < queue@.len() ==> is_route(
                                    links,
                                    (#[trigger] queue@[i]).1@,
                                    source,
                                    queue@[i].0,
                                ),
                            forall|i: int, q: Seq<u64>|
                                0 <= i < queue@.len() && #[trigger] is_route(
                                    links,
                                    q,
                                    source,
                                    queue@[i].0,
                                ) ==> queue@[i].1@.len() <= q.len(),
                            forall|i: int, j2: int|
                                0 <= i <= j2 < queue@.len() ==> #[trigger] queue@[j2].1@.len()
                                    <= #[trigger] queue@[i].1@.len(),
                            forall|i: int|
                                0 <= i < queue@.len() ==> level <= (#[trigger] queue@[i]).1@.len()
                                    <= level + 1,
                            forall|u: u64, w: u64|
                                prev_done.contains(u) && #[trigger] adjacent(links, u, w)
                                    ==> visited@.contains(w),
                            forall|k: int| 0 <= k < j ==> visited@.contains(#[trigger] nbrs@[k]),
                            (queue_view(queue@), visited@) == bfs_expand(
                                base_view,
                                base_visited,
                                path@,
                                nbrs@.take(j as int),
                            ),
                            forall|w: u64, q: Seq<u64>|
                                #[trigger] is_route(links, q, source, w) && q.len() < level
                                    ==> prev_done.contains(w),
                    {
                        let neighbor = nbrs[j];
                        proof {
                            lemma_neighbor_seq_contains(links, current, neighbor);
                            assert(nbrs@.contains(neighbor));
                            lemma_adjacent_in_endpoints(links, current, neighbor);
                        }
                        let ghost before = queue@;
                        let ghost before_visited = visited@;
                        assert(nbrs@.take(j + 1).drop_last() =~= nbrs@.take(j as int));
                        assert(nbrs@.take(j + 1).last() == neighbor);
                        if visited.insert(neighbor) {
                            let mut new_path = path.clone();
                            assert(new_path@ =~= path@);
                            new_path.push(neighbor);
                            proof {
                                lemma_route_extend(links, path@, source, current, neighbor);
                                assert forall|q: Seq<u64>|
                                    #[trigger] is_route(links, q, source, neighbor) implies level + 1
                                    <= q.len() by {
                                    if q.len() <= level {
                                        if q.len() == 1 {
                                            assert(before_visited.contains(source));
                                        } else {
                                            lemma_route_prefix(links, q, source, neighbor);
                                            let m = q[q.len() - 2];
                                            assert(is_route(links, q.drop_last(), source, m));
                                            assert(prev_done.contains(m));
                                        }
                                    }
                                }
                            }
                            queue.insert(0, (neighbor, new_path));
                            proof {
                                assert(queue_view(queue@) =~= queue_view(before).insert(
                                    0,
                                    (neighbor, path@.push(neighbor)),
                                ));
                                assert(queue@[0].0 == neighbor);
                                assert forall|i: int| 1 <= i < queue@.len() implies #[trigger] queue@[i]
                                    == before[i - 1] by {}
                                assert forall|v: u64|
                                    #[trigger] visited@.contains(v) implies done.contains(v)
                                    || exists|i: int| 0 <= i < queue@.len() && queue@[i].0 == v by {
                                    if v != neighbor {
                                        assert(before_visited.contains(v));
                                        if !done.contains(v) {
                                            let i = choose|i: int| 0 <= i < before.len() && before[i].0 == v;
                                            assert(queue@[i + 1].0 == v);
                                        }
                                    }
                                }
                                assert forall|i: int, q: Seq<u64>|
                                    0 <= i < queue@.len() && #[trigger] is_route(links, q, source, queue@[i].0)
                                    implies queue@[i].1@.len() <= q.len() by {
                                    if i > 0 {
                                        assert(is_route(links, q, source, before[i - 1].0));
                                    }
                                }
                                assert forall|i: int, j2: int|
                                    0 <= i <= j2 < queue@.len() implies #[trigger] queue@[j2].1@.len()
                                    <= #[trigger] queue@[i].1@.len() by {
                                    if i > 0 {
                                        assert(before[j2 - 1].1@.len() <= before[i - 1].1@.len());
                                    } else if j2 > 0 {
                                        assert(level <= before[j2 - 1].1@.len() <= level + 1);
                                    }
                                }
                            }
                        }
                    }
                    proof {
                        assert forall|u: u64, w: u64|
                            done.contains(u) && #[trigger] adjacent(links, u, w) implies visited@.contains(
                            w,
                        ) by {
                            if u == current {
                                lemma_neighbor_seq_contains(links, current, w);
                                let k = choose|k: int| 0 <= k < nbrs@.len() && nbrs@[k] == w;
                                assert(visited@.contains(nbrs@[k]));
                            }
                        }
                        if queue@.len() > 0 {
                            let top = queue@.last().1@.len();
                            assert forall|w: u64, q: Seq<u64>|
                                #[trigger] is_route(links, q, source, w) && q.len() < top
                                implies done.contains(w) by {
                                if q.len() >= level {
                                    if q.len() == 1 {
                                        assert(w == source);
                                    } else {
                                        lemma_route_prefix(links, q, source, w);
                                        let m = q[q.len() - 2];
                                        assert(is_route(links, q.drop_last(), source, m));
                                        assert(prev_done.contains(m));
                                    }
                                    assert(visited@.contains(w));
                                    if !done.contains(w) {
                                        let i = choose|i: int| 0 <= i < queue@.len() && queue@[i].0 == w;
                                        assert(is_route(links, q, source, queue@[i].0));
                                        assert(queue@[queue@.len() - 1].1@.len() <= queue@[i].1@.len());
                                    }
                                }
                            }
                            assert(queue@[0].1@.len() <= level + 1);
                        }
                        vstd::set_lib::lemma_len_subset(visited@, universe);
                        assert(nbrs@.take(count as int) =~= nbrs@);
                        fuel = (fuel - 1) as nat;
                    }
                }
            }
        }
    }
}

impl Default for Growth {
    fn default() -> (g: Self)
        ensures
            g.wf(),
            g.node_ids() == Set::<u64>::empty(),
            g.links() == Seq::<Hypha>::empty(),
            g.next_free_id() == 1,
    {
        Growth::new()
    }
}

/// Every identifier names one thing: no link shares its identifier with a
/// node or with another link, and all of them lie below the counter.
pub proof fn ids_are_unique(g: Growth)
    requires
        g.wf(),
    ensures
        forall|i: int, n: u64|
            0 <= i < g.links().len() && #[trigger] g.node_ids().contains(n) ==> #[trigger] g.links()[i].id
                != n,
        forall|i: int, j: int|
            0 <= i < g.links().len() && 0 <= j < g.links().len() && i != j ==> #[trigger] g.links()[i].id
                != #[trigger] g.links()[j].id,
        forall|n: u64| #[trigger] g.node_ids().contains(n) ==> n < g.next_free_id(),
        forall|i: int| 0 <= i < g.links().len() ==> #[trigger] g.links()[i].id < g.next_free_id(),
{
    assert forall|i: int, j: int|
        0 <= i < g.links().len() && 0 <= j < g.links().len() && i != j implies #[trigger] g.links()[i].id
        != #[trigger] g.links()[j].id by {
        if i < j {
            assert(g.links()[i].id != g.links()[j].id);
        } else {
            assert(g.links()[j].id != g.links()[i].id);
        }
    }
}

/// `h` is one of `links[..n]` whose flag in `alive` is true.
pub open spec fn is_live_link(links: Seq<Hypha>, alive: Seq<bool>, n: nat, h: Hypha) -> bool {
    exists|j: int| 0 <= j < n && alive[j] && #[trigger] links[j] == h
}

/// Pruning keeps exactly the live links: every link flagged alive survives,
/// and every survivor is a link flagged alive.
pub proof fn pruning_keeps_exactly_live_links(links: Seq<Hypha>, alive: Seq<bool>, n: nat)
    requires
        n <= links.len(),
        n <= alive.len(),
    ensures
        surviving(links, alive, n).len() <= n,
        forall|j: int| 0 <= j < n && alive[j] ==> surviving(links, alive, n).contains(#[trigger] links[j]),
        forall|k: int|
            0 <= k < surviving(links, alive, n).len() ==> is_live_link(
                links,
                alive,
                n,
                #[trigger] surviving(links, alive, n)[k],
            ),
    decreases n,
{
    if n > 0 {
        let m = (n - 1) as nat;
        pruning_keeps_exactly_live_links(links, alive, m);
        let rest = surviving(links, alive, m);
        let all = surviving(links, alive, n);
        assert forall|j: int| 0 <= j < n && alive[j] implies all.contains(#[trigger] links[j]) by {
            if j < m {
                assert(rest.contains(links[j]));
                let k = choose|k: int| 0 <= k < rest.len() && rest[k] == links[j];
                assert(all[k] == links[j]);
            } else {
                assert(all[all.len() - 1] == links[j]);
            }
        }
        assert forall|k: int| 0 <= k < all.len() implies is_live_link(
            links,
            alive,
            n,
            #[trigger] all[k],
        ) by {
            if k < rest.len() {
                assert(all[k] == rest[k]);
                assert(is_live_link(links, alive, m, rest[k]));
                let j = choose|j: int| 0 <= j < m && alive[j] && #[trigger] links[j] == rest[k];
                assert(all[k] == links[j]);
            } else {
                assert(alive[m as int]);
                assert(all[k] == links[m as int]);
            }
        }
    }
}

/// Pruning with every link flagged alive removes nothing; in particular a
/// second pruning that flags the survivors alive keeps them all.
pub proof fn pruning_all_live_keeps_all(links: Seq<Hypha>, alive: Seq<bool>, n: nat)
    requires
        n <= links.len(),
        n <= alive.len(),
        forall|j: int| 0 <= j < n ==> #[trigger] alive[j],
    ensures
        surviving(links, alive, n) == links.take(n as int),
    decreases n,
{
    if n > 0 {
        pruning_all_live_keeps_all(links, alive, (n - 1) as nat);
        assert(alive[n - 1]);
        assert(links.take(n as int) =~= links.take(n - 1).push(links[n - 1]));
    }
}

/// `idx` lists, in increasing order, exactly the positions below `n` whose
/// flag in `alive` is true, and `kept[k]` is the link at position `idx[k]`.
pub open spec fn lists_live_links(
    links: Seq<Hypha>,
    alive: Seq<bool>,
    n: int,
    kept: Seq<Hypha>,
    idx: Seq<int>,
) -> bool {
    &&& idx.len() == kept.len()
    &&& forall|k: int|
        0 <= k < idx.len() ==> 0 <= #[trigger] idx[k] < n && alive[idx[k]] && kept[k]
            == links[idx[k]]
    &&& forall|k: int, l: int| 0 <= k < l < idx.len() ==> #[trigger] idx[k] < #[trigger] idx[l]
    &&& forall|i: int|
        0 <= i < n && #[trigger] alive[i] ==> exists|k: int| 0 <= k < idx.len() && #[trigger] idx[k] == i
}

/// Pruning keeps the live links in their original relative order: the
/// survivors are the links at exactly the positions flagged alive, taken by
/// increasing position.
pub proof fn pruning_keeps_live_links_in_order(links: Seq<Hypha>, alive: Seq<bool>, n: nat)
    requires
        n <= links.len(),
        n <= alive.len(),
    ensures
        exists|idx: Seq<int>| lists_live_links(links, alive, n as int, surviving(links, alive, n), idx),
    decreases n,
{
    if n == 0 {
        assert(lists_live_links(links, alive, 0, surviving(links, alive, 0), Seq::<int>::empty()));
    } else {
        let m = (n - 1) as nat;
        pruning_keeps_live_links_in_order(links, alive, m);
        let rest = surviving(links, alive, m);
        let idx0 = choose|idx: Seq<int>| lists_live_links(links, alive, m as int, rest, idx);
        let kept = surviving(links, alive, n);
        if alive[m as int] {
            let idx = idx0.push(m as int);
            assert(kept == rest.push(links[m as int]));
            assert forall|k: int| 0 <= k < idx.len() implies 0 <= #[trigger] idx[k] < n
                && alive[idx[k]] && kept[k] == links[idx[k]] by {
                if k < idx0.len() {
                    assert(idx[k] == idx0[k]);
                }
            }
            assert forall|k: int, l: int| 0 <= k < l < idx.len() implies #[trigger] idx[k]
                < #[trigger] idx[l] by {
                assert(idx[k] == idx0[k]);
                if l < idx0.len() {
                    assert(idx[l] == idx0[l]);
                }
            }
            assert forall|i: int| 0 <= i < n && #[trigger] alive[i] implies exists|k: int|
                0 <= k < idx.len() && #[trigger] idx[k] == i by {
                if i < m {
                    let k = choose|k: int| 0 <= k < idx0.len() && #[trigger] idx0[k] == i;
                    assert(idx[k] == i);
                } else {
                    assert(idx[idx0.len() as int] == i);
                }
            }
            assert(lists_live_links(links, alive, n as int, kept, idx));
        } else {
            assert(kept == rest);
            assert forall|i: int| 0 <= i < n && #[trigger] alive[i] implies exists|k: int|
                0 <= k < idx0.len() && #[trigger] idx0[k] == i by {
                assert(i < m);
            }
            assert(lists_live_links(links, alive, n as int, kept, idx0));
        }
    }
}

} // verus!
