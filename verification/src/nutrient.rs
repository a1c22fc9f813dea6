//! A data packet travelling through the network, and its time to live.
use vstd::prelude::*;

verus! {

/// The number of hops a fresh packet may make.
pub const INITIAL_TTL: u32 = 64;

/// A packet from `source` to `destination` with a hop budget `ttl`.
#[derive(Clone, Copy, Debug, PartialEq, Eq, Structural)]
pub struct Nutrient {
    pub id: u64,
    pub source: u64,
    pub destination: u64,
    pub ttl: u32,
}

impl Nutrient {
    /// A fresh packet with the full hop budget.
    pub fn new(id: u64, source: u64, destination: u64) -> (n: Self)
        ensures
            n.id == id,
            n.source == source,
            n.destination == destination,
            n.ttl == INITIAL_TTL,
    {
        Nutrient { id, source, destination, ttl: INITIAL_TTL }
    }

    /// Spends one hop. Returns whether any budget is left afterwards; an
    /// exhausted packet stays exhausted and reports `false`.
    pub fn tick_ttl(&mut self) -> (alive: bool)
        ensures
            *final(self) == ticked(*old(self)),
            alive == (final(self).ttl > 0),
    {
        if self.ttl == 0 {
            return false;
        }
        self.ttl = self.ttl - 1;
        self.ttl > 0
    }

    /// Whether the hop budget is spent.
    pub fn is_expired(&self) -> (r: bool)
        ensures
            r == (self.ttl == 0),
    {
        self.ttl == 0
    }
}

/// The packet after one tick: one hop less, never below zero.
pub open spec fn ticked(n: Nutrient) -> Nutrient {
    if n.ttl == 0 {
        n
    } else {
        Nutrient { ttl: (n.ttl - 1) as u32, ..n }
    }
}

/// The packet after `k` ticks.
pub open spec fn ticked_times(n: Nutrient, k: nat) -> Nutrient
    decreases k,
{
    if k == 0 {
        n
    } else {
        ticked(ticked_times(n, (k - 1) as nat))
    }
}

/// Ticks count the budget down one at a time and stop at zero: after `k`
/// ticks a packet with budget `t` has `t - k` hops left, or none once
/// `k >= t`. So a fresh packet is still alive after 63 ticks and expired
/// after 64.
pub proof fn ticks_count_down(n: Nutrient, k: nat)
    ensures
        ticked_times(n, k).ttl == (if k <= n.ttl { n.ttl - k } else { 0 }),
        ticked_times(n, k).id == n.id,
        ticked_times(n, k).source == n.source,
        ticked_times(n, k).destination == n.destination,
    decreases k,
{
    if k > 0 {
        ticks_count_down(n, (k - 1) as nat);
    }
}

} // verus!
