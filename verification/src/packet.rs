//! Hop-by-hop growth of a packet flood through a triangular mesh that
//! expands into hexagonal routing.

use vstd::prelude::*;

verus! {

/// Each node connects to this many others when a packet arrives.
pub const CONNECTIONS_PER_NODE: u64 = 3;

/// Each triangle node expands to this many neighbours in hex routing.
pub const HEX_CONNECTIONS: u64 = 6;

/// Simulated time one hop takes, in milliseconds.
pub const HEX_HOP_TIME_MS: u64 = 50;

/// How many times the set of newly reached nodes grows on each hop.
pub open spec fn growth_factor() -> int {
    CONNECTIONS_PER_NODE * HEX_CONNECTIONS
}

/// Nodes reached on hop `hops` alone: `growth_factor()^hops`.
pub open spec fn hop_fanout(hops: nat) -> int
    decreases hops,
{
    if hops == 0 {
        1
    } else {
        growth_factor() * hop_fanout((hops - 1) as nat)
    }
}

/// Nodes reached in total after `hops` hops from one node: the origin plus
/// `growth_factor()^k` new nodes on each hop `k`.
pub open spec fn total_after(hops: nat) -> int
    decreases hops,
{
    if hops == 0 {
        1
    } else {
        total_after((hops - 1) as nat) + hop_fanout(hops)
    }
}

/// Progress of a packet flood: the nodes reached on the latest hop, the
/// nodes reached so far, the hops counted so far, and the number of the
/// current hop.
pub struct TraversalState {
    pub local_nodes: u64,
    pub total_nodes: u64,
    pub hops: u64,
    pub hop_count: u64,
}

impl TraversalState {
    /// After `hops` hops from a single node, the latest hop reached
    /// `hop_fanout(hops)` nodes and `total_after(hops)` were reached in
    /// all.
    pub open spec fn grown_from_origin(&self) -> bool {
        &&& self.local_nodes == hop_fanout(self.hops as nat)
        &&& self.total_nodes == total_after(self.hops as nat)
    }

    /// A flood that starts from one node at hop number `current_hop`.
    pub fn new(current_hop: u64) -> (state: Self)
        ensures
            state.local_nodes == 1,
            state.total_nodes == 1,
            state.hops == 0,
            state.hop_count == current_hop,
            state.grown_from_origin(),
    {
        let state = TraversalState { local_nodes: 1, total_nodes: 1, hops: 0, hop_count: current_hop };
        state
    }

    /// Whether the flood still has to grow to reach `target_nodes`.
    pub fn needs_hop(&self, target_nodes: u64) -> (needed: bool)
        ensures
            needed == (self.local_nodes < target_nodes),
    {
        self.local_nodes < target_nodes
    }

    /// Performs one hop: the nodes reached on this hop are the previous
    /// hop's times the growth factor, and they add to the total. Returns
    /// whether the flood goes on, which it does while neither the latest
    /// hop nor the total has reached `target_nodes`.
    pub fn next_hop(&mut self, target_nodes: u64) -> (go_on: bool)
        requires
            old(self).local_nodes * growth_factor() + old(self).total_nodes <= u64::MAX,
            old(self).hops < u64::MAX,
            old(self).hop_count < u64::MAX,
        ensures
            final(self).local_nodes == old(self).local_nodes * growth_factor(),
            final(self).total_nodes == old(self).total_nodes + final(self).local_nodes,
            final(self).hops == old(self).hops + 1,
            final(self).hop_count == old(self).hop_count + 1,
            go_on == (final(self).local_nodes < target_nodes && final(self).total_nodes < target_nodes),
            old(self).grown_from_origin() ==> final(self).grown_from_origin(),
    {
        let ghost h = self.hops as nat;
        assert(hop_fanout(h + 1) == growth_factor() * hop_fanout(h));
        assert(total_after(h + 1) == total_after(h) + hop_fanout(h + 1));
        let factor: u64 = CONNECTIONS_PER_NODE * HEX_CONNECTIONS;
        assert(factor == 18);
        self.local_nodes = self.local_nodes * factor;
        self.total_nodes = self.total_nodes + self.local_nodes;
        self.hops = self.hops + 1;
        self.hop_count = self.hop_count + 1;
        assert(self.local_nodes == old(self).local_nodes * 18);
        assert(old(self).local_nodes == hop_fanout(h) ==> self.local_nodes == 18 * hop_fanout(h));
        assert(old(self).grown_from_origin() ==> old(self).local_nodes == hop_fanout(h));
        self.local_nodes < target_nodes && self.total_nodes < target_nodes
    }

    /// Simulated time elapsed up to the current hop, in milliseconds.
    pub fn elapsed_ms(&self) -> (ms: u64)
        requires
            self.hop_count * HEX_HOP_TIME_MS <= u64::MAX,
        ensures
            ms == self.hop_count * HEX_HOP_TIME_MS,
    {
        self.hop_count * HEX_HOP_TIME_MS
    }
}

/// Simulated time that `hops` hops take, in milliseconds.
pub fn hops_to_ms(hops: u64) -> (ms: u64)
    requires
        hops * HEX_HOP_TIME_MS <= u64::MAX,
    ensures
        ms == hops * HEX_HOP_TIME_MS,
{
    hops * HEX_HOP_TIME_MS
}

} // verus!
