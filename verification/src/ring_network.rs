//! A flat network laid out as concentric hexagonal rings around one origin
//! node, and breadth-first signal propagation through it.

use std::collections::VecDeque;
use vstd::prelude::*;

verus! {

/// Number of nodes in a hexagonal grid of `layers` rings around one origin:
/// ring `k` (for `k >= 1`) holds `6 * k` nodes.
pub open spec fn hex_total(layers: nat) -> nat {
    1 + 3 * layers * (layers + 1)
}

/// Adding ring `l + 1` adds exactly `6 * (l + 1)` nodes.
pub proof fn lemma_hex_total_step(l: nat)
    ensures
        hex_total(l + 1) == hex_total(l) + 6 * (l + 1),
        hex_total(l) >= l + 1,
        hex_total(0) == 1,
{
    assert(3 * 0 * (0 + 1) == 0int) by (nonlinear_arith);
    assert(3 * (l + 1) * (l + 2) == 3 * l * (l + 1) + 6 * (l + 1)) by (nonlinear_arith);
    assert(3 * l * (l + 1) >= l) by (nonlinear_arith);
}

/// The grid size grows with the number of rings.
pub proof fn lemma_hex_total_monotonic(a: nat, b: nat)
    requires
        a <= b,
    ensures
        hex_total(a) <= hex_total(b),
    decreases b - a,
{
    if a < b {
        lemma_hex_total_step((b - 1) as nat);
        lemma_hex_total_monotonic(a, (b - 1) as nat);
    }
}

/// No arithmetic overflow happens while rings are added until the grid
/// covers `target` nodes.
pub open spec fn layers_fit(target: nat) -> bool {
    forall|l: nat| hex_total(l) < target ==> #[trigger] hex_total(l + 1) <= usize::MAX
}

/// `layers` is the smallest number of rings whose grid holds at least
/// `target` nodes.
pub open spec fn is_covering_layers(target: nat, layers: nat) -> bool {
    &&& hex_total(layers) >= target
    &&& forall|l: nat| l < layers ==> #[trigger] hex_total(l) < target
}

/// The smallest number of rings whose grid holds at least `target` nodes.
pub fn calculate_layers(target: usize) -> (layers: usize)
    requires
        layers_fit(target as nat),
    ensures
        is_covering_layers(target as nat, layers as nat),
{
    let mut nodes: usize = 1;
    let mut layer: usize = 0;
    proof {
        lemma_hex_total_step(0);
    }
    while nodes < target
        invariant
            layers_fit(target as nat),
            nodes as nat == hex_total(layer as nat),
            forall|l: nat| l < layer ==> #[trigger] hex_total(l) < target,
        decreases target - layer,
    {
        proof {
            lemma_hex_total_step(layer as nat);
            assert(hex_total(layer as nat + 1) <= usize::MAX);
        }
        layer = layer + 1;
        nodes = nodes + 6 * layer;
    }
    layer
}

/// Total number of nodes in a grid of `layers` rings: the origin plus
/// `6 * k` nodes in each ring `k`.
pub fn calculate_total_nodes(layers: usize) -> (total: usize)
    requires
        hex_total(layers as nat) <= usize::MAX,
    ensures
        total as nat == hex_total(layers as nat),
{
    let mut sum: usize = 0;
    let mut layer: usize = 0;
    proof {
        lemma_hex_total_step(0);
    }
    while layer < layers
        invariant
            layer <= layers,
            hex_total(layers as nat) <= usize::MAX,
            sum + 1 == hex_total(layer as nat),
        decreases layers - layer,
    {
        proof {
            lemma_hex_total_step(layer as nat);
            lemma_hex_total_monotonic(layer as nat + 1, layers as nat);
        }
        layer = layer + 1;
        sum = sum + 6 * layer;
    }
    sum + 1
}


/// Latencies of the three kinds of link, in milliseconds.
pub struct LatencyTable {
    pub local_ms: u64,
    pub regional_ms: u64,
    pub global_ms: u64,
}

/// A network of `node_count` nodes numbered from the origin outwards; node
/// `i` links to its immediate successor and predecessor (local links) and to
/// the nodes a thousand places away (regional links).
pub struct GlobalHexNetwork {
    pub node_count: usize,
    pub layers: usize,
    pub latencies: LatencyTable,
}

/// `a - b`, or 0 where that would be negative.
pub open spec fn saturating_diff(a: int, b: int) -> int {
    if a >= b {
        a - b
    } else {
        0
    }
}

/// A one-element list holding the link to `target`, or the empty list where
/// `target` is not a node of a network of `node_count` nodes.
pub open spec fn link_if_present(target: int, latency: u64, node_count: int) -> Seq<(usize, u64)> {
    if 0 <= target < node_count {
        seq![(target as usize, latency)]
    } else {
        seq![]
    }
}

impl GlobalHexNetwork {
    /// The links of `node`, in order: successor and predecessor (local),
    /// then a thousand places up and down (regional); the predecessor of a
    /// node below the offset is node 0, and links to nodes outside the
    /// network are left out.
    pub open spec fn links(&self, node: int) -> Seq<(usize, u64)> {
        let n = self.node_count as int;
        let local = self.latencies.local_ms;
        let regional = self.latencies.regional_ms;
        link_if_present(node + 1, local, n) + link_if_present(saturating_diff(node, 1), local, n)
            + link_if_present(node + 1000, regional, n) + link_if_present(
            saturating_diff(node, 1000),
            regional,
            n,
        )
    }

    /// A network that covers at least `target_nodes` nodes with whole rings:
    /// the fewest rings that do, and every node of those rings; local links
    /// take 5 ms, regional ones 25 ms and global ones 100 ms.
    pub fn new(target_nodes: usize) -> (network: Self)
        requires
            layers_fit(target_nodes as nat),
        ensures
            is_covering_layers(target_nodes as nat, network.layers as nat),
            network.node_count as nat == hex_total(network.layers as nat),
            network.latencies.local_ms == 5,
            network.latencies.regional_ms == 25,
            network.latencies.global_ms == 100,
    {
        let layers = calculate_layers(target_nodes);
        proof {
            if layers > 0 {
                assert(hex_total((layers - 1) as nat) < target_nodes);
                assert(hex_total((layers - 1) as nat + 1) <= usize::MAX);
            } else {
                lemma_hex_total_step(0);
            }
        }
        let node_count = calculate_total_nodes(layers);
        GlobalHexNetwork {
            node_count,
            layers,
            latencies: LatencyTable { local_ms: 5, regional_ms: 25, global_ms: 100 },
        }
    }

    /// The links of `node` with their latencies, as `links` lists them.
    pub fn get_neighbors(&self, node: usize) -> (neighbors: Vec<(usize, u64)>)
        requires
            node + 1000 <= usize::MAX,
        ensures
            neighbors@ == self.links(node as int),
    {
        let local_neighbors = [node + 1, node.saturating_sub(1)];
        let regional_neighbors = [node + 1000, node.saturating_sub(1000)];
        let mut neighbors: Vec<(usize, u64)> = Vec::new();
        let n = self.node_count;
        let local = self.latencies.local_ms;
        let regional = self.latencies.regional_ms;
        if local_neighbors[0] < n {
            neighbors.push((local_neighbors[0], local));
        }
        if local_neighbors[1] < n {
            neighbors.push((local_neighbors[1], local));
        }
        if regional_neighbors[0] < n {
            neighbors.push((regional_neighbors[0], regional));
        }
        if regional_neighbors[1] < n {
            neighbors.push((regional_neighbors[1], regional));
        }
        assert(neighbors@ =~= self.links(node as int));
        neighbors
    }
}


/// `v` is one of the failed nodes.
pub open spec fn blocked(failed: Seq<usize>, v: int) -> bool {
    exists|i: int| 0 <= i < failed.len() && failed[i] as int == v
}

/// How many entries of `s` are `true`.
pub open spec fn count_true(s: Seq<bool>) -> nat
    decreases s.len(),
{
    if s.len() == 0 {
        0
    } else {
        count_true(s.drop_last()) + (if s.last() {
            1nat
        } else {
            0nat
        })
    }
}

/// The largest `times[i]` over the positions `i` that `flags` marks, or 0
/// where none is marked.
pub open spec fn max_flagged(times: Seq<u64>, flags: Seq<bool>) -> u64
    decreases flags.len(),
{
    if flags.len() == 0 {
        0
    } else {
        let rest = max_flagged(times, flags.drop_last());
        let i = flags.len() - 1;
        if flags[i] && times[i] > rest {
            times[i]
        } else {
            rest
        }
    }
}

/// Marking one more entry adds one to the count.
pub proof fn lemma_count_true_set(s: Seq<bool>, v: int)
    requires
        0 <= v < s.len(),
        !s[v],
    ensures
        count_true(s.update(v, true)) == count_true(s) + 1,
    decreases s.len(),
{
    if v == s.len() - 1 {
        assert(s.update(v, true).drop_last() =~= s.drop_last());
    } else {
        assert(s.update(v, true).drop_last() =~= s.drop_last().update(v, true));
        lemma_count_true_set(s.drop_last(), v);
    }
}

/// No more entries are marked than there are.
pub proof fn lemma_count_true_bound(s: Seq<bool>)
    ensures
        count_true(s) <= s.len(),
    decreases s.len(),
{
    if s.len() > 0 {
        lemma_count_true_bound(s.drop_last());
    }
}

proof fn lemma_max_flagged_agree(a: Seq<u64>, b: Seq<u64>, flags: Seq<bool>)
    requires
        forall|i: int| 0 <= i < flags.len() && flags[i] ==> a[i] == b[i],
    ensures
        max_flagged(a, flags) == max_flagged(b, flags),
    decreases flags.len(),
{
    if flags.len() > 0 {
        lemma_max_flagged_agree(a, b, flags.drop_last());
    }
}

proof fn lemma_max_flagged_set(times: Seq<u64>, flags: Seq<bool>, v: int, t: u64)
    requires
        0 <= v < flags.len(),
        flags.len() <= times.len(),
        !flags[v],
    ensures
        max_flagged(times.update(v, t), flags.update(v, true)) == (if t > max_flagged(
            times,
            flags,
        ) {
            t
        } else {
            max_flagged(times, flags)
        }),
    decreases flags.len(),
{
    let t2 = times.update(v, t);
    let f2 = flags.update(v, true);
    if v == flags.len() - 1 {
        assert(f2.drop_last() =~= flags.drop_last());
        lemma_max_flagged_agree(t2, times, flags.drop_last());
    } else {
        assert(f2.drop_last() =~= flags.drop_last().update(v, true));
        lemma_max_flagged_set(times, flags.drop_last(), v, t);
    }
}

/// Whether `node` is one of `failed`.
fn contains_node(failed: &[usize], node: usize) -> (found: bool)
    ensures
        found == blocked(failed@, node as int),
{
    let mut i: usize = 0;
    while i < failed.len()
        invariant
            i <= failed@.len(),
            forall|k: int| 0 <= k < i ==> failed@[k] != node,
        decreases failed.len() - i,
    {
        if failed[i] == node {
            return true;
        }
        i = i + 1;
    }
    false
}

/// `queue` holds an entry for `node`.
pub open spec fn queued(queue: Seq<(usize, u64)>, node: int) -> bool {
    exists|i: int| 0 <= i < queue.len() && queue[i].0 as int == node
}

impl GlobalHexNetwork {
    /// `links(u)` holds a link to `v`.
    pub open spec fn linked(&self, u: int, v: int) -> bool {
        exists|j: int| 0 <= j < self.links(u).len() && self.links(u)[j].0 as int == v
    }

    /// `v` can be reached from `start` in at most `steps` hops that avoid
    /// every failed node (a failed start reaches nothing).
    pub open spec fn reach_within(&self, start: int, failed: Seq<usize>, steps: nat, v: int) -> bool
        decreases steps,
    {
        if steps == 0 {
            v == start && !blocked(failed, start)
        } else {
            self.reach_within(start, failed, (steps - 1) as nat, v) || (!blocked(failed, v)
                && exists|u: int|
                #![trigger self.linked(u, v)]
                self.reach_within(start, failed, (steps - 1) as nat, u) && self.linked(u, v))
        }
    }

    /// `v` can be reached from `start` through nodes that have not failed.
    pub open spec fn reachable(&self, start: int, failed: Seq<usize>, v: int) -> bool {
        exists|steps: nat| self.reach_within(start, failed, steps, v)
    }

    /// For each node, whether a signal from `start` can reach it.
    pub open spec fn reach_flags(&self, start: int, failed: Seq<usize>) -> Seq<bool> {
        Seq::new(self.node_count as nat, |v: int| self.reachable(start, failed, v))
    }

    /// The `j`-th link of `u` leads to `v`, and `v`'s arrival time is `u`'s
    /// plus that link's latency; `u` is reached and ranks below `v`.
    pub open spec fn feeds(
        &self,
        flags: Seq<bool>,
        times: Seq<u64>,
        rank: Seq<nat>,
        u: int,
        j: int,
        v: int,
    ) -> bool {
        &&& 0 <= u < self.node_count
        &&& flags[u]
        &&& rank[u] < rank[v]
        &&& 0 <= j < self.links(u).len()
        &&& self.links(u)[j].0 as int == v
        &&& times[v] == times[u] + self.links(u)[j].1
    }

    /// `times` gives each node marked in `flags` an arrival time: 0 at
    /// `start`, and for every other marked node the time of a marked node
    /// of lower rank plus the latency of a link from it. Following such
    /// links backwards always ends at `start`, so every arrival time is the
    /// total latency of a path from `start`.
    pub open spec fn is_arrival_tree(
        &self,
        start: int,
        flags: Seq<bool>,
        times: Seq<u64>,
        rank: Seq<nat>,
    ) -> bool {
        &&& flags.len() == self.node_count
        &&& times.len() == self.node_count
        &&& rank.len() == self.node_count
        &&& (forall|v: int| 0 <= v < self.node_count && #[trigger] flags[v] ==> flags[start])
        &&& (0 <= start < self.node_count && flags[start] ==> times[start] == 0)
        &&& forall|v: int|
            0 <= v < self.node_count && v != start && #[trigger] flags[v] ==> exists|u: int, j: int|
                self.feeds(flags, times, rank, u, j, v)
    }

    /// What a propagation from `start` that avoids `failed` yields: the
    /// breadth-first run visits exactly the nodes that can be reached,
    /// `reached` counts them, and `max_time` is the latest of their visit
    /// times, each of which is the total latency of a path from `start`.
    pub open spec fn is_propagation(&self, start: int, failed: Seq<usize>, max_time: u64, reached: usize) -> bool {
        let run = self.bfs_result(start, failed);
        &&& run.0 == self.reach_flags(start, failed)
        &&& reached == count_true(run.0)
        &&& max_time == max_flagged(run.1, run.0)
        &&& exists|rank: Seq<nat>| self.is_arrival_tree(start, run.0, run.1, rank)
    }
}


impl GlobalHexNetwork {
    /// The larger of the local and regional latencies: no link is slower.
    pub open spec fn max_link_latency(&self) -> u64 {
        if self.latencies.local_ms >= self.latencies.regional_ms {
            self.latencies.local_ms
        } else {
            self.latencies.regional_ms
        }
    }

    /// `e` is the queue entry for the `j`-th link of `node`, reached at
    /// `time`.
    pub open spec fn link_entry(&self, node: int, time: u64, j: int, e: (usize, u64)) -> bool {
        &&& 0 <= j < self.links(node).len()
        &&& e.0 == self.links(node)[j].0
        &&& e.1 == time + self.links(node)[j].1
    }

    /// A node has at most four links, each to a node of the network and
    /// no slower than the slowest latency.
    pub proof fn lemma_links_in_range(&self, node: int)
        ensures
            self.links(node).len() <= 4,
            forall|j: int|
                0 <= j < self.links(node).len() ==> {
                    &&& (#[trigger] self.links(node)[j]).0 < self.node_count
                    &&& self.links(node)[j].1 <= self.max_link_latency()
                },
    {
        let n = self.node_count as int;
        let local = self.latencies.local_ms;
        let regional = self.latencies.regional_ms;
        let a = link_if_present(node + 1, local, n);
        let b = link_if_present(saturating_diff(node, 1), local, n);
        let c = link_if_present(node + 1000, regional, n);
        let d = link_if_present(saturating_diff(node, 1000), regional, n);
        assert(self.links(node) == a + b + c + d);
        assert forall|j: int| 0 <= j < self.links(node).len() implies {
            &&& (#[trigger] self.links(node)[j]).0 < self.node_count
            &&& self.links(node)[j].1 <= self.max_link_latency()
        } by {
            let l = self.links(node);
            if j < a.len() {
                assert(l[j] == a[j]);
            } else if j < a.len() + b.len() {
                assert(l[j] == b[j - a.len()]);
            } else if j < a.len() + b.len() + c.len() {
                assert(l[j] == c[j - a.len() - b.len()]);
            } else {
                assert(l[j] == d[j - a.len() - b.len() - c.len()]);
            }
        }
    }

    /// The queue entries that visiting `node` at `time` adds, from its first
    /// `m` links: one per link to a node that is neither visited nor
    /// failed, reached at `time` plus the link's latency, in link order.
    pub open spec fn entries_upto(
        &self,
        failed: Seq<usize>,
        visited: Seq<bool>,
        node: int,
        time: u64,
        m: int,
    ) -> Seq<(usize, u64)>
        decreases m,
    {
        if m <= 0 {
            Seq::empty()
        } else {
            let before = self.entries_upto(failed, visited, node, time, m - 1);
            let link = self.links(node)[m - 1];
            if !visited[link.0 as int] && !blocked(failed, link.0 as int) {
                before.push((link.0, (time + link.1) as u64))
            } else {
                before
            }
        }
    }

    /// The queue entries that visiting `node` at `time` adds.
    pub open spec fn new_entries(&self, failed: Seq<usize>, visited: Seq<bool>, node: int, time: u64) -> Seq<(usize, u64)> {
        self.entries_upto(failed, visited, node, time, self.links(node).len() as int)
    }

    /// At most one entry is added per link.
    pub proof fn lemma_entries_len(&self, failed: Seq<usize>, visited: Seq<bool>, node: int, time: u64, m: int)
        ensures
            self.entries_upto(failed, visited, node, time, m).len() <= (if m <= 0 {
                0
            } else {
                m
            }),
        decreases m,
    {
        if m > 0 {
            self.lemma_entries_len(failed, visited, node, time, m - 1);
        }
    }

    /// Breadth-first propagation as it unfolds from a queue of pending
    /// entries: the front entry is dropped if its node is visited or has
    /// failed; otherwise its node is visited at the entry's time and the
    /// entries for its links are appended. Yields which nodes end up
    /// visited and their visit times.
    pub open spec fn bfs_from(
        &self,
        failed: Seq<usize>,
        queue: Seq<(usize, u64)>,
        visited: Seq<bool>,
        times: Seq<u64>,
    ) -> (Seq<bool>, Seq<u64>)
        decreases 5 * (visited.len() - count_true(visited)) + queue.len(),
    {
        proof {
            lemma_count_true_bound(visited);
        }
        if queue.len() == 0 {
            (visited, times)
        } else {
            let entry = queue[0];
            let v = entry.0 as int;
            let rest = queue.drop_first();
            if !(0 <= v < visited.len()) || visited[v] || blocked(failed, v) {
                self.bfs_from(failed, rest, visited, times)
            } else {
                let marked = visited.update(v, true);
                proof {
                    lemma_count_true_set(visited, v);
                    lemma_count_true_bound(marked);
                    self.lemma_links_in_range(v);
                    self.lemma_entries_len(failed, marked, v, entry.1, self.links(v).len() as int);
                }
                self.bfs_from(
                    failed,
                    rest + self.new_entries(failed, marked, v, entry.1),
                    marked,
                    times.update(v, entry.1),
                )
            }
        }
    }

    /// Breadth-first propagation from `start` avoiding `failed`: which
    /// nodes are visited, and when each is first visited.
    pub open spec fn bfs_result(&self, start: int, failed: Seq<usize>) -> (Seq<bool>, Seq<u64>) {
        self.bfs_from(
            failed,
            seq![(start as usize, 0u64)],
            Seq::new(self.node_count as nat, |i: int| false),
            Seq::new(self.node_count as nat, |i: int| 0u64),
        )
    }

    /// Appends to `queue`, in the order of `links(node)`, an entry for every
    /// linked node that is neither visited nor failed, reached at `time`
    /// plus the link's latency.
    fn enqueue_links(
        &self,
        queue: &mut VecDeque<(usize, u64)>,
        visited: &Vec<bool>,
        failed: &[usize],
        node: usize,
        time: u64,
    )
        requires
            node < self.node_count,
            self.node_count + 1000 <= usize::MAX,
            visited@.len() == self.node_count,
            time + self.max_link_latency() <= u64::MAX,
        ensures
            final(queue)@ == old(queue)@ + self.new_entries(failed@, visited@, node as int, time),
            old(queue)@.len() <= final(queue)@.len() <= old(queue)@.len() + self.links(node as int).len(),
            final(queue)@.subrange(0, old(queue)@.len() as int) == old(queue)@,
            forall|k: int|
                old(queue)@.len() <= k < final(queue)@.len() ==> {
                    &&& !visited@[final(queue)@[k].0 as int]
                    &&& !blocked(failed@, final(queue)@[k].0 as int)
                    &&& exists|j: int| self.link_entry(node as int, time, j, #[trigger] final(queue)@[k])
                },
            forall|j: int|
                0 <= j < self.links(node as int).len() && !visited@[(#[trigger] self.links(
                    node as int,
                )[j]).0 as int] && !blocked(failed@, self.links(node as int)[j].0 as int)
                    ==> queued(final(queue)@.subrange(old(queue)@.len() as int, final(queue)@.len() as int), self.links(node as int)[j].0 as int),
    {
        let neighbors = self.get_neighbors(node);
        proof {
            self.lemma_links_in_range(node as int);
        }
        let ghost q0 = queue@;
        let mut k: usize = 0;
        while k < neighbors.len()
            invariant
                neighbors@ == self.links(node as int),
                neighbors@.len() <= 4,
                k <= neighbors@.len(),
                visited@.len() == self.node_count,
                time + self.max_link_latency() <= u64::MAX,
                forall|j: int|
                    0 <= j < self.links(node as int).len() ==> {
                        &&& (#[trigger] self.links(node as int)[j]).0 < self.node_count
                        &&& self.links(node as int)[j].1 <= self.max_link_latency()
                    },
                q0.len() <= queue@.len() <= q0.len() + k,
                queue@.subrange(0, q0.len() as int) == q0,
                queue@ == q0 + self.entries_upto(failed@, visited@, node as int, time, k as int),
                forall|i: int|
                    q0.len() <= i < queue@.len() ==> {
                        &&& !visited@[queue@[i].0 as int]
                        &&& !blocked(failed@, queue@[i].0 as int)
                        &&& exists|j: int| self.link_entry(node as int, time, j, #[trigger] queue@[i])
                    },
                forall|j: int|
                    0 <= j < k && !visited@[(#[trigger] self.links(node as int)[j]).0 as int]
                        && !blocked(failed@, self.links(node as int)[j].0 as int) ==> queued(
                        queue@.subrange(q0.len() as int, queue@.len() as int),
                        self.links(node as int)[j].0 as int,
                    ),
            decreases neighbors.len() - k,
        {
            let (neighbor, latency) = neighbors[k];
            assert(self.links(node as int)[k as int] == (neighbor, latency));
            let ghost before = queue@;
            assert(self.entries_upto(failed@, visited@, node as int, time, k as int + 1)
                == (if !visited@[neighbor as int] && !blocked(failed@, neighbor as int) {
                self.entries_upto(failed@, visited@, node as int, time, k as int).push(
                    (neighbor, (time + latency) as u64),
                )
            } else {
                self.entries_upto(failed@, visited@, node as int, time, k as int)
            }));
            if !visited[neighbor] && !contains_node(failed, neighbor) {
                queue.push_back((neighbor, time + latency));
                assert(self.link_entry(node as int, time, k as int, queue@[queue@.len() - 1]));
                assert forall|j: int|
                    0 <= j < k + 1 && !visited@[(#[trigger] self.links(node as int)[j]).0 as int]
                        && !blocked(failed@, self.links(node as int)[j].0 as int) implies queued(
                        queue@.subrange(q0.len() as int, queue@.len() as int),
                        self.links(node as int)[j].0 as int,
                    ) by {
                    let sub = queue@.subrange(q0.len() as int, queue@.len() as int);
                    assert(queue@ == before.push((neighbor, (time + latency) as u64)));
                    if j == k {
                        assert(sub[sub.len() - 1] == queue@[queue@.len() - 1]);
                        assert(sub[sub.len() - 1].0 == neighbor);
                    } else {
                        let old_sub = before.subrange(q0.len() as int, before.len() as int);
                        let i = choose|i: int|
                            0 <= i < old_sub.len() && old_sub[i].0 as int == self.links(
                                node as int,
                            )[j].0 as int;
                        assert(sub[i] == old_sub[i]);
                    }
                }
            }
            k = k + 1;
        }
    }
}


/// Where nothing is marked the count is zero.
pub proof fn lemma_count_zero(s: Seq<bool>)
    requires
        forall|i: int| 0 <= i < s.len() ==> !s[i],
    ensures
        count_true(s) == 0,
    decreases s.len(),
{
    if s.len() > 0 {
        lemma_count_zero(s.drop_last());
    }
}

proof fn lemma_max_flagged_none(times: Seq<u64>, flags: Seq<bool>)
    requires
        forall|i: int| 0 <= i < flags.len() ==> !flags[i],
    ensures
        max_flagged(times, flags) == 0,
    decreases flags.len(),
{
    if flags.len() > 0 {
        lemma_max_flagged_none(times, flags.drop_last());
    }
}

proof fn lemma_mul_step(m: int, r: int, n: int)
    requires
        0 <= m,
        0 <= r < n,
    ensures
        m * (r + 1) == m * r + m,
        m * r <= m * (r + 1),
        m * (r + 1) <= m * n,
        m * (r + 1) <= n * m,
{
    assert(m * (r + 1) == m * r + m) by (nonlinear_arith);
    assert(m * (r + 1) <= m * n && m * n == n * m) by (nonlinear_arith)
        requires
            0 <= m,
            r + 1 <= n,
    ;
}

/// Removing the front entry of a queue keeps every other node queued.
proof fn lemma_pop_queued(q: Seq<(usize, u64)>, w: int)
    requires
        q.len() > 0,
        queued(q, w),
    ensures
        w == q[0].0 as int || queued(q.subrange(1, q.len() as int), w),
{
    let i = choose|i: int| 0 <= i < q.len() && q[i].0 as int == w;
    if i > 0 {
        assert(q.subrange(1, q.len() as int)[i - 1] == q[i]);
    }
}

impl GlobalHexNetwork {
    /// Every queue entry names a node, is no later than `bound`, and is
    /// either the start entry or the link entry of a visited node.
    pub open spec fn queue_sound(
        &self,
        start: int,
        failed: Seq<usize>,
        visited: Seq<bool>,
        times: Seq<u64>,
        queue: Seq<(usize, u64)>,
        bound: int,
    ) -> bool {
        forall|i: int|
            0 <= i < queue.len() ==> {
                &&& (#[trigger] queue[i]).0 < self.node_count
                &&& queue[i].1 <= bound
                &&& ((queue[i].0 as int == start && queue[i].1 == 0) || (!blocked(
                    failed,
                    queue[i].0 as int,
                ) && exists|u: int, j: int|
                    0 <= u < self.node_count && visited[u] && self.link_entry(u, times[u], j, queue[i])))
            }
    }

    /// Every linked, non-failed neighbour of a visited node is visited or
    /// queued, and so is `start` unless it failed.
    pub open spec fn queue_complete(
        &self,
        start: int,
        failed: Seq<usize>,
        visited: Seq<bool>,
        queue: Seq<(usize, u64)>,
    ) -> bool {
        &&& (!blocked(failed, start) ==> visited[start] || queued(queue, start))
        &&& forall|u: int, j: int|
            0 <= u < self.node_count && 0 <= j < self.links(u).len() && visited[u] && !blocked(
                failed,
                (#[trigger] self.links(u)[j]).0 as int,
            ) ==> visited[self.links(u)[j].0 as int] || queued(queue, self.links(u)[j].0 as int)
    }

    /// Every linked, non-failed neighbour of a visited node is visited, and
    /// so is `start` unless it failed.
    pub open spec fn closed_under_links(&self, start: int, failed: Seq<usize>, visited: Seq<bool>) -> bool {
        self.queue_complete(start, failed, visited, Seq::empty())
    }

    proof fn lemma_reach_within_closed(
        &self,
        start: int,
        failed: Seq<usize>,
        visited: Seq<bool>,
        steps: nat,
        v: int,
    )
        requires
            0 <= start < self.node_count,
            visited.len() == self.node_count,
            self.closed_under_links(start, failed, visited),
            self.reach_within(start, failed, steps, v),
        ensures
            0 <= v < self.node_count,
            visited[v],
        decreases steps,
    {
        if steps > 0 {
            if !self.reach_within(start, failed, (steps - 1) as nat, v) {
                let u = choose|u: int|
                    #![trigger self.linked(u, v)]
                    self.reach_within(start, failed, (steps - 1) as nat, u) && self.linked(u, v);
                self.lemma_reach_within_closed(start, failed, visited, (steps - 1) as nat, u);
                let j = choose|j: int| 0 <= j < self.links(u).len() && self.links(u)[j].0 as int == v;
                self.lemma_links_in_range(u);
                assert(self.links(u)[j].0 < self.node_count);
                assert(!queued(Seq::<(usize, u64)>::empty(), v));
            } else {
                self.lemma_reach_within_closed(start, failed, visited, (steps - 1) as nat, v);
            }
        } else {
            assert(!queued(Seq::<(usize, u64)>::empty(), v));
        }
    }

    proof fn lemma_skip_keeps_queue(
        &self,
        start: int,
        failed: Seq<usize>,
        visited: Seq<bool>,
        times: Seq<u64>,
        q: Seq<(usize, u64)>,
        bound: int,
    )
        requires
            q.len() > 0,
            visited.len() == self.node_count,
            visited[q[0].0 as int] || blocked(failed, q[0].0 as int),
            self.queue_sound(start, failed, visited, times, q, bound),
            self.queue_complete(start, failed, visited, q),
        ensures
            self.queue_sound(start, failed, visited, times, q.subrange(1, q.len() as int), bound),
            self.queue_complete(start, failed, visited, q.subrange(1, q.len() as int)),
    {
        let rest = q.subrange(1, q.len() as int);
        assert forall|i: int| 0 <= i < rest.len() implies rest[i] == q[i + 1] by {}
        assert(q[0].0 < self.node_count);
        if !blocked(failed, start) && !visited[start] {
            lemma_pop_queued(q, start);
        }
        assert forall|u: int, j: int|
            0 <= u < self.node_count && 0 <= j < self.links(u).len() && visited[u] && !blocked(
                failed,
                (#[trigger] self.links(u)[j]).0 as int,
            ) implies visited[self.links(u)[j].0 as int] || queued(rest, self.links(u)[j].0 as int) by {
            if !visited[self.links(u)[j].0 as int] {
                lemma_pop_queued(q, self.links(u)[j].0 as int);
            }
        }
    }

    proof fn lemma_visit_keeps_tree(
        &self,
        start: int,
        vis0: Seq<bool>,
        t0: Seq<u64>,
        r0: Seq<nat>,
        v: int,
        t: u64,
        r: nat,
    )
        requires
            0 <= start < self.node_count,
            0 <= v < self.node_count,
            !vis0[v],
            self.is_arrival_tree(start, vis0, t0, r0),
            v == start ==> t == 0,
            v != start ==> vis0[start] && exists|u: int, j: int|
                self.feeds(vis0.update(v, true), t0.update(v, t), r0.update(v, r), u, j, v),
        ensures
            self.is_arrival_tree(start, vis0.update(v, true), t0.update(v, t), r0.update(v, r)),
    {
        let vis1 = vis0.update(v, true);
        let t1 = t0.update(v, t);
        let r1 = r0.update(v, r);
        assert forall|w: int|
            0 <= w < self.node_count && w != start && #[trigger] vis1[w] implies exists|u: int, j: int|
            self.feeds(vis1, t1, r1, u, j, w) by {
            if w != v {
                let (u, j) = choose|u: int, j: int| self.feeds(vis0, t0, r0, u, j, w);
                assert(u != v);
                assert(self.feeds(vis1, t1, r1, u, j, w));
            }
        }
    }

    proof fn lemma_visit_keeps_queue(
        &self,
        start: int,
        failed: Seq<usize>,
        bound0: int,
        bound1: int,
        q_before: Seq<(usize, u64)>,
        q_mid: Seq<(usize, u64)>,
        q_after: Seq<(usize, u64)>,
        vis0: Seq<bool>,
        t0: Seq<u64>,
        node: int,
        time: u64,
    )
        requires
            0 <= start < self.node_count,
            q_before.len() > 0,
            q_before[0].0 as int == node,
            q_before[0].1 == time,
            q_mid == q_before.subrange(1, q_before.len() as int),
            0 <= node < self.node_count,
            vis0.len() == self.node_count,
            t0.len() == self.node_count,
            !vis0[node],
            !blocked(failed, node),
            time <= bound0,
            bound0 <= bound1,
            bound0 + self.max_link_latency() <= bound1,
            self.queue_sound(start, failed, vis0, t0, q_before, bound0),
            self.queue_complete(start, failed, vis0, q_before),
            q_after.subrange(0, q_mid.len() as int) == q_mid,
            q_mid.len() <= q_after.len(),
            forall|k: int|
                q_mid.len() <= k < q_after.len() ==> {
                    &&& !vis0.update(node, true)[q_after[k].0 as int]
                    &&& !blocked(failed, q_after[k].0 as int)
                    &&& exists|j: int| self.link_entry(node, time, j, #[trigger] q_after[k])
                },
            forall|j: int|
                0 <= j < self.links(node).len() && !vis0.update(node, true)[(#[trigger] self.links(
                    node,
                )[j]).0 as int] && !blocked(failed, self.links(node)[j].0 as int) ==> queued(
                    q_after.subrange(q_mid.len() as int, q_after.len() as int),
                    self.links(node)[j].0 as int,
                ),
        ensures
            self.queue_sound(start, failed, vis0.update(node, true), t0.update(node, time), q_after, bound1),
            self.queue_complete(start, failed, vis0.update(node, true), q_after),
    {
        let vis1 = vis0.update(node, true);
        let t1 = t0.update(node, time);
        self.lemma_links_in_range(node);
        assert forall|i: int| 0 <= i < q_mid.len() implies q_mid[i] == q_before[i + 1] && q_after[i]
            == q_mid[i] by {
            assert(q_after.subrange(0, q_mid.len() as int)[i] == q_after[i]);
        }
        assert forall|i: int| 0 <= i < q_after.len() implies {
            &&& (#[trigger] q_after[i]).0 < self.node_count
            &&& q_after[i].1 <= bound1
            &&& ((q_after[i].0 as int == start && q_after[i].1 == 0) || (!blocked(
                failed,
                q_after[i].0 as int,
            ) && exists|u: int, j: int|
                0 <= u < self.node_count && vis1[u] && self.link_entry(u, t1[u], j, q_after[i])))
        } by {
            if i < q_mid.len() {
                let e = q_before[i + 1];
                assert(q_after[i] == e);
                if !(e.0 as int == start && e.1 == 0) {
                    let (u, j) = choose|u: int, j: int|
                        0 <= u < self.node_count && vis0[u] && self.link_entry(u, t0[u], j, e);
                    assert(u != node);
                    assert(vis1[u] && self.link_entry(u, t1[u], j, e));
                }
            } else {
                let j = choose|j: int| self.link_entry(node, time, j, q_after[i]);
                assert(self.links(node)[j].0 < self.node_count);
                assert(vis1[node] && self.link_entry(node, t1[node], j, q_after[i]));
            }
        }
        assert forall|w: int| #[trigger] queued(q_mid, w) implies queued(q_after, w) by {
            let i = choose|i: int| 0 <= i < q_mid.len() && q_mid[i].0 as int == w;
            assert(q_after[i] == q_mid[i]);
        }
        assert forall|w: int|
            #[trigger] queued(q_after.subrange(q_mid.len() as int, q_after.len() as int), w) implies queued(
            q_after,
            w,
        ) by {
            let sub = q_after.subrange(q_mid.len() as int, q_after.len() as int);
            let i = choose|i: int| 0 <= i < sub.len() && sub[i].0 as int == w;
            assert(q_after[q_mid.len() + i] == sub[i]);
        }
        if !blocked(failed, start) && !vis1[start] {
            lemma_pop_queued(q_before, start);
        }
        assert forall|u: int, j: int|
            0 <= u < self.node_count && 0 <= j < self.links(u).len() && vis1[u] && !blocked(
                failed,
                (#[trigger] self.links(u)[j]).0 as int,
            ) implies vis1[self.links(u)[j].0 as int] || queued(q_after, self.links(u)[j].0 as int) by {
            let w = self.links(u)[j].0 as int;
            if !vis1[w] {
                if u == node {
                    assert(queued(q_after.subrange(q_mid.len() as int, q_after.len() as int), w));
                } else {
                    lemma_pop_queued(q_before, w);
                }
            }
        }
    }

    proof fn lemma_visit(
        &self,
        start: int,
        failed: Seq<usize>,
        vis0: Seq<bool>,
        t0: Seq<u64>,
        r0: Seq<nat>,
        q: Seq<(usize, u64)>,
        reached: int,
    ) -> (tr: (Seq<u64>, Seq<nat>))
        requires
            0 <= start < self.node_count,
            q.len() > 0,
            0 <= q[0].0 < self.node_count,
            !vis0[q[0].0 as int],
            !blocked(failed, q[0].0 as int),
            reached == count_true(vis0),
            forall|v: int| 0 <= v < self.node_count && #[trigger] vis0[v] ==> self.reachable(start, failed, v),
            self.is_arrival_tree(start, vis0, t0, r0),
            self.queue_sound(start, failed, vis0, t0, q, self.max_link_latency() * reached),
            self.node_count * self.max_link_latency() <= u64::MAX,
        ensures
            tr.0 == t0.update(q[0].0 as int, q[0].1),
            tr.1.len() == self.node_count,
            self.is_arrival_tree(start, vis0.update(q[0].0 as int, true), tr.0, tr.1),
            forall|v: int|
                0 <= v < self.node_count && #[trigger] vis0.update(q[0].0 as int, true)[v] ==> self.reachable(start, failed, v),
            count_true(vis0.update(q[0].0 as int, true)) == reached + 1,
            reached + 1 <= self.node_count,
            max_flagged(tr.0, vis0.update(q[0].0 as int, true)) == (if q[0].1 > max_flagged(t0, vis0) {
                q[0].1
            } else {
                max_flagged(t0, vis0)
            }),
            self.max_link_latency() * (reached + 1) == self.max_link_latency() * reached + self.max_link_latency(),
            self.max_link_latency() * reached <= self.max_link_latency() * (reached + 1),
            self.max_link_latency() * (reached + 1) <= u64::MAX,
    {
        let n = self.node_count as int;
        let entry = q[0];
        let v = entry.0 as int;
        let time = entry.1;
        let big_m = self.max_link_latency();
        lemma_count_true_set(vis0, v);
        lemma_count_true_bound(vis0.update(v, true));
        lemma_max_flagged_set(t0, vis0, v, time);
        lemma_mul_step(big_m as int, reached, n);
        let vis1 = vis0.update(v, true);
        let t1 = t0.update(v, time);
        if v == start {
            if !(time == 0) {
                let (u, j) = choose|u: int, j: int|
                    0 <= u < n && vis0[u] && self.link_entry(u, t0[u], j, entry);
                assert(vis0[start]);
            }
            assert(self.reach_within(start, failed, 0, v));
            let r1 = r0.update(v, 0);
            self.lemma_visit_keeps_tree(start, vis0, t0, r0, v, time, 0);
            (t1, r1)
        } else {
            let (u, j) = choose|u: int, j: int|
                0 <= u < n && vis0[u] && self.link_entry(u, t0[u], j, entry);
            assert(self.reachable(start, failed, u));
            let k = choose|k: nat| self.reach_within(start, failed, k, u);
            assert(self.linked(u, v));
            assert(self.reach_within(start, failed, k + 1, v));
            let r1 = r0.update(v, r0[u] + 1);
            assert(self.feeds(vis1, t1, r1, u, j, v));
            self.lemma_visit_keeps_tree(start, vis0, t0, r0, v, time, r0[u] + 1);
            (t1, r1)
        }
    }

    /// Propagates a signal from `start_node` breadth first through every
    /// node that has not failed, recording for each node the time of its
    /// first visit. Returns the latest such time and the number of nodes
    /// reached.
    #[verifier::spinoff_prover]
    #[verifier::rlimit(40)]
    pub fn propagate_signal_under_attack(&self, start_node: usize, failed_nodes: &[usize]) -> (result: (u64, usize))
        requires
            start_node < self.node_count,
            self.node_count + 1000 <= usize::MAX,
            self.node_count * self.max_link_latency() <= u64::MAX,
        ensures
            self.is_propagation(start_node as int, failed_nodes@, result.0, result.1),
    {
        let n = self.node_count;
        let ghost start = start_node as int;
        let ghost failed = failed_nodes@;
        let ghost big_m = self.max_link_latency();
        let mut visited: Vec<bool> = vec![false; n];
        assert(forall|i: int| 0 <= i < n ==> !visited@[i]);
        let mut queue: VecDeque<(usize, u64)> = VecDeque::new();
        queue.push_back((start_node, 0));
        let mut max_time: u64 = 0;
        let mut nodes_reached: usize = 0;
        let ghost mut times: Seq<u64> = Seq::new(n as nat, |i: int| 0u64);
        let ghost mut rank: Seq<nat> = Seq::new(n as nat, |i: int| 0nat);
        proof {
            lemma_count_zero(visited@);
            lemma_max_flagged_none(times, visited@);
            assert(queue@[0] == (start_node, 0u64));
            assert(queued(queue@, start));
            assert(big_m * 0 == 0);
            assert(visited@ =~= Seq::new(n as nat, |i: int| false));
            assert(queue@ =~= seq![(start_node, 0u64)]);
        }
        loop
            invariant
                n == self.node_count,
                start == start_node as int,
                failed == failed_nodes@,
                big_m == self.max_link_latency(),
                start_node < n,
                n + 1000 <= usize::MAX,
                n * big_m <= u64::MAX,
                visited@.len() == n,
                nodes_reached == count_true(visited@),
                forall|v: int| 0 <= v < n && #[trigger] visited@[v] ==> self.reachable(start, failed, v),
                self.is_arrival_tree(start, visited@, times, rank),
                max_time == max_flagged(times, visited@),
                self.queue_sound(start, failed, visited@, times, queue@, big_m * nodes_reached),
                self.queue_complete(start, failed, visited@, queue@),
                self.bfs_from(failed, queue@, visited@, times) == self.bfs_result(start, failed),
            ensures
                queue@.len() == 0,
            decreases 5 * (n - nodes_reached) + queue@.len(),
        {
            proof {
                lemma_count_true_bound(visited@);
            }
            let ghost q_before = queue@;
            match queue.pop_front() {
                None => {
                    break ;
                },
                Some(entry) => {
                    let (node, time) = entry;
                    assert(entry == q_before[0]);
                    assert(queue@ =~= q_before.drop_first());
                    if visited[node] || contains_node(failed_nodes, node) {
                        proof {
                            self.lemma_skip_keeps_queue(
                                start,
                                failed,
                                visited@,
                                times,
                                q_before,
                                big_m * nodes_reached,
                            );
                        }
                        continue ;
                    }
                    let ghost vis_before = visited@;
                    let ghost times_before = times;
                    let ghost rank_before = rank;
                    let ghost reached_before = nodes_reached as int;
                    proof {
                        let (t1, r1) = self.lemma_visit(
                            start,
                            failed,
                            vis_before,
                            times_before,
                            rank_before,
                            q_before,
                            reached_before,
                        );
                        times = t1;
                        rank = r1;
                    }
                    visited.set(node, true);
                    nodes_reached = nodes_reached + 1;
                    if time > max_time {
                        max_time = time;
                    }
                    let ghost q_mid = queue@;
                    self.enqueue_links(&mut queue, &visited, failed_nodes, node, time);
                    proof {
                        self.lemma_visit_keeps_queue(
                            start,
                            failed,
                            big_m * reached_before,
                            big_m * nodes_reached,
                            q_before,
                            q_mid,
                            queue@,
                            vis_before,
                            times_before,
                            node as int,
                            time,
                        );
                    }
                },
            }
        }
        proof {
            assert(self.closed_under_links(start, failed, visited@));
            assert forall|v: int| 0 <= v < n implies visited@[v] == self.reachable(start, failed, v) by {
                if self.reachable(start, failed, v) {
                    let k = choose|k: nat| self.reach_within(start, failed, k, v);
                    self.lemma_reach_within_closed(start, failed, visited@, k, v);
                }
            }
            assert(visited@ =~= self.reach_flags(start, failed));
            assert(self.bfs_from(failed, queue@, visited@, times) == (visited@, times));
            let run = self.bfs_result(start, failed);
            assert(run.0 == visited@ && run.1 == times);
            assert(self.is_arrival_tree(start, run.0, run.1, rank));
        }
        (max_time, nodes_reached)
    }
}


/// The nodes `0 .. count` in order.
pub open spec fn first_nodes(count: nat) -> Seq<usize> {
    Seq::new(count, |i: int| i as usize)
}

/// Exactly the nodes below `count` are among `first_nodes(count)`.
pub proof fn lemma_first_nodes_blocked(count: nat)
    requires
        count <= usize::MAX,
    ensures
        forall|v: int| #[trigger] blocked(first_nodes(count), v) <==> 0 <= v < count,
{
    assert forall|v: int| #[trigger] blocked(first_nodes(count), v) <==> 0 <= v < count by {
        if 0 <= v < count {
            assert(first_nodes(count)[v] as int == v);
        }
        if blocked(first_nodes(count), v) {
            let i = choose|i: int| 0 <= i < count && first_nodes(count)[i] as int == v;
            assert(first_nodes(count)[i] as int == i);
        }
    }
}

/// Marking every position from `k` on counts `n - k`.
pub proof fn lemma_count_suffix(n: nat, k: nat)
    requires
        k <= n,
    ensures
        count_true(Seq::new(n, |i: int| i >= k)) == n - k,
    decreases n,
{
    let s = Seq::new(n, |i: int| i >= k);
    if n > 0 {
        assert(s.drop_last() =~= Seq::new((n - 1) as nat, |i: int| i >= k));
        if k < n {
            lemma_count_suffix((n - 1) as nat, k);
        } else {
            assert forall|i: int| 0 <= i < s.len() implies !s[i] by {}
            lemma_count_zero(s);
        }
    }
}

impl GlobalHexNetwork {
    proof fn lemma_reach_within_not_blocked(&self, start: int, failed: Seq<usize>, steps: nat, v: int)
        requires
            self.reach_within(start, failed, steps, v),
        ensures
            !blocked(failed, v),
        decreases steps,
    {
        if steps > 0 && self.reach_within(start, failed, (steps - 1) as nat, v) {
            self.lemma_reach_within_not_blocked(start, failed, (steps - 1) as nat, v);
        }
    }

    /// With the first `k` nodes failed, a signal from node `k` reaches
    /// exactly the nodes from `k` on: each is one local hop past the one
    /// before it.
    pub proof fn lemma_suffix_reachable(&self, k: nat)
        requires
            k < self.node_count,
        ensures
            self.reach_flags(k as int, first_nodes(k)) =~= Seq::new(
                self.node_count as nat,
                |i: int| i >= k,
            ),
            count_true(self.reach_flags(k as int, first_nodes(k))) == self.node_count - k,
    {
        let n = self.node_count as int;
        let failed = first_nodes(k);
        assert forall|v: int| 0 <= v < n implies #[trigger] self.reachable(k as int, failed, v) == (v >= k) by {
            if v >= k {
                self.lemma_reach_chain(k, v);
            } else if self.reachable(k as int, failed, v) {
                let steps = choose|steps: nat| self.reach_within(k as int, failed, steps, v);
                self.lemma_reach_within_not_blocked(k as int, failed, steps, v);
                assert(failed[v] as int == v);
            }
        }
        assert(self.reach_flags(k as int, failed) =~= Seq::new(self.node_count as nat, |i: int| i >= k));
        lemma_count_suffix(self.node_count as nat, k);
    }

    proof fn lemma_reach_chain(&self, k: nat, v: int)
        requires
            k <= v < self.node_count,
        ensures
            self.reach_within(k as int, first_nodes(k), (v - k) as nat, v),
        decreases v - k,
    {
        let failed = first_nodes(k);
        if v > k {
            self.lemma_reach_chain(k, v - 1);
            let n = self.node_count as int;
            let a = link_if_present(v, self.latencies.local_ms, n);
            assert(self.links(v - 1)[0] == a[0]);
            assert(self.linked(v - 1, v));
        }
        assert(!blocked(failed, v)) by {
            if blocked(failed, v) {
                let i = choose|i: int| 0 <= i < failed.len() && failed[i] as int == v;
                assert(failed[i] as int == i);
            }
        }
    }

    /// Without failures a signal from any node reaches every node: the
    /// local links chain each node to its successor and its predecessor.
    pub proof fn lemma_all_reachable(&self, start: int)
        requires
            0 <= start < self.node_count,
        ensures
            self.reach_flags(start, Seq::empty()) =~= Seq::new(self.node_count as nat, |i: int| true),
            count_true(self.reach_flags(start, Seq::empty())) == self.node_count,
    {
        let n = self.node_count as int;
        assert forall|v: int| 0 <= v < n implies #[trigger] self.reachable(start, Seq::empty(), v) by {
            if v >= start {
                self.lemma_reach_up(start, v);
            } else {
                self.lemma_reach_down(start, v);
            }
        }
        assert(self.reach_flags(start, Seq::empty()) =~= Seq::new(self.node_count as nat, |i: int| i >= 0));
        lemma_count_suffix(self.node_count as nat, 0);
    }

    proof fn lemma_reach_up(&self, start: int, v: int)
        requires
            0 <= start <= v < self.node_count,
        ensures
            self.reach_within(start, Seq::empty(), (v - start) as nat, v),
        decreases v - start,
    {
        if v > start {
            self.lemma_reach_up(start, v - 1);
            let a = link_if_present(v, self.latencies.local_ms, self.node_count as int);
            assert(self.links(v - 1)[0] == a[0]);
            assert(self.linked(v - 1, v));
        }
    }

    proof fn lemma_reach_down(&self, start: int, v: int)
        requires
            0 <= v <= start < self.node_count,
        ensures
            self.reach_within(start, Seq::empty(), (start - v) as nat, v),
        decreases start - v,
    {
        if v < start {
            self.lemma_reach_down(start, v + 1);
            let n = self.node_count as int;
            let u = v + 1;
            let a = link_if_present(u + 1, self.latencies.local_ms, n);
            let b = link_if_present(saturating_diff(u, 1), self.latencies.local_ms, n);
            assert(self.links(u)[a.len() as int] == b[0]);
            assert(self.linked(u, v));
        }
    }

    /// Propagates a signal from `start_node` through the whole network; it
    /// reaches every node.
    pub fn propagate_signal(&self, start_node: usize) -> (result: (u64, usize))
        requires
            start_node < self.node_count,
            self.node_count + 1000 <= usize::MAX,
            self.node_count * self.max_link_latency() <= u64::MAX,
        ensures
            self.is_propagation(start_node as int, Seq::empty(), result.0, result.1),
            result.1 == self.node_count,
    {
        let no_failures: Vec<usize> = Vec::new();
        assert(no_failures@ =~= Seq::<usize>::empty());
        proof {
            self.lemma_all_reachable(start_node as int);
        }
        self.propagate_signal_under_attack(start_node, no_failures.as_slice())
    }

    /// Fails the first `total_failures` nodes and runs three propagation
    /// rounds from the first node still alive. Each round reaches every
    /// surviving node, and all three give the same result.
    pub fn simulate_attack(&self, total_failures: usize) -> (results: Vec<(u64, usize)>)
        requires
            total_failures < self.node_count,
            self.node_count + 1000 <= usize::MAX,
            self.node_count * self.max_link_latency() <= u64::MAX,
        ensures
            results@.len() == 3,
            forall|r: int|
                0 <= r < 3 ==> {
                    &&& self.is_propagation(
                        total_failures as int,
                        first_nodes(total_failures as nat),
                        (#[trigger] results@[r]).0,
                        results@[r].1,
                    )
                    &&& results@[r].1 == self.node_count - total_failures
                    &&& results@[r] == results@[0]
                },
    {
        let n = self.node_count;
        let mut failed_nodes: Vec<usize> = Vec::new();
        let mut i: usize = 0;
        while i < n && i < total_failures
            invariant
                i <= total_failures,
                failed_nodes@ =~= first_nodes(i as nat),
            decreases total_failures - i,
        {
            failed_nodes.push(i);
            i = i + 1;
        }
        let mut results: Vec<(u64, usize)> = Vec::new();
        let mut round: usize = 0;
        proof {
            self.lemma_suffix_reachable(total_failures as nat);
        }
        while round < 3
            invariant
                round <= 3,
                results@.len() == round,
                total_failures < n,
                n == self.node_count,
                n + 1000 <= usize::MAX,
                n * self.max_link_latency() <= u64::MAX,
                failed_nodes@ == first_nodes(total_failures as nat),
                count_true(self.reach_flags(total_failures as int, first_nodes(total_failures as nat)))
                    == n - total_failures,
                forall|r: int|
                    0 <= r < round ==> {
                        &&& self.is_propagation(
                            total_failures as int,
                            first_nodes(total_failures as nat),
                            (#[trigger] results@[r]).0,
                            results@[r].1,
                        )
                        &&& results@[r].1 == n - total_failures
                        &&& results@[r] == results@[0]
                    },
            decreases 3 - round,
        {
            proof {
                lemma_first_nodes_blocked(total_failures as nat);
                assert(!blocked(failed_nodes@, total_failures as int));
            }
            let start_node = self.first_alive(failed_nodes.as_slice());
            assert(start_node == total_failures);
            let result = self.propagate_signal_under_attack(start_node, failed_nodes.as_slice());
            results.push(result);
            round = round + 1;
        }
        results
    }

    /// The lowest-numbered node that is not among `failed`.
    fn first_alive(&self, failed: &[usize]) -> (node: usize)
        requires
            exists|v: int| 0 <= v < self.node_count && !blocked(failed@, v),
        ensures
            node < self.node_count,
            !blocked(failed@, node as int),
            forall|v: int| 0 <= v < node ==> blocked(failed@, v),
    {
        let mut candidate: usize = 0;
        while candidate < self.node_count
            invariant
                exists|v: int| 0 <= v < self.node_count && !blocked(failed@, v),
                forall|v: int| 0 <= v < candidate ==> blocked(failed@, v),
            decreases self.node_count - candidate,
        {
            if !contains_node(failed, candidate) {
                return candidate;
            }
            candidate = candidate + 1;
        }
        candidate
    }
}


proof fn lemma_count_pointwise(a: Seq<bool>, b: Seq<bool>)
    requires
        a.len() == b.len(),
        forall|i: int| 0 <= i < a.len() && a[i] ==> b[i],
    ensures
        count_true(a) <= count_true(b),
    decreases a.len(),
{
    if a.len() > 0 {
        lemma_count_pointwise(a.drop_last(), b.drop_last());
    }
}

proof fn lemma_count_disjoint(a: Seq<bool>, b: Seq<bool>)
    requires
        a.len() == b.len(),
        forall|i: int| 0 <= i < a.len() ==> !(a[i] && b[i]),
    ensures
        count_true(a) + count_true(b) <= a.len(),
    decreases a.len(),
{
    if a.len() > 0 {
        lemma_count_disjoint(a.drop_last(), b.drop_last());
    }
}

impl GlobalHexNetwork {
    /// For each node, whether it is among `failed`.
    pub open spec fn failed_flags(&self, failed: Seq<usize>) -> Seq<bool> {
        Seq::new(self.node_count as nat, |v: int| blocked(failed, v))
    }

    /// Two failure lists that name the same nodes of the network.
    pub open spec fn same_failures_inside(&self, f1: Seq<usize>, f2: Seq<usize>) -> bool {
        forall|v: int|
            #![trigger blocked(f1, v)]
            #![trigger blocked(f2, v)]
            0 <= v < self.node_count ==> (blocked(f1, v) <==> blocked(f2, v))
    }

    proof fn lemma_linked_in_range(&self, u: int, v: int)
        requires
            self.linked(u, v),
        ensures
            0 <= v < self.node_count,
    {
        let j = choose|j: int| 0 <= j < self.links(u).len() && self.links(u)[j].0 as int == v;
        self.lemma_links_in_range(u);
        assert(self.links(u)[j].0 < self.node_count);
    }

    proof fn lemma_reach_agree(&self, start: int, f1: Seq<usize>, f2: Seq<usize>, steps: nat)
        requires
            0 <= start < self.node_count,
            self.same_failures_inside(f1, f2),
        ensures
            forall|v: int| #[trigger] self.reach_within(start, f1, steps, v) == self.reach_within(start, f2, steps, v),
        decreases steps,
    {
        if steps > 0 {
            self.lemma_reach_agree(start, f1, f2, (steps - 1) as nat);
            assert forall|v: int| #[trigger] self.reach_within(start, f1, steps, v) == self.reach_within(start, f2, steps, v) by {
                let k = (steps - 1) as nat;
                assert(self.reach_within(start, f1, k, v) == self.reach_within(start, f2, k, v));
                if exists|u: int| #![trigger self.linked(u, v)] self.reach_within(start, f1, k, u) && self.linked(u, v) {
                    let u = choose|u: int| #![trigger self.linked(u, v)] self.reach_within(start, f1, k, u) && self.linked(u, v);
                    self.lemma_linked_in_range(u, v);
                    assert(blocked(f1, v) == blocked(f2, v));
                    assert(self.reach_within(start, f1, k, u) == self.reach_within(start, f2, k, u));
                    assert(self.reach_within(start, f2, k, u) && self.linked(u, v));
                }
                if exists|u: int| #![trigger self.linked(u, v)] self.reach_within(start, f2, k, u) && self.linked(u, v) {
                    let u = choose|u: int| #![trigger self.linked(u, v)] self.reach_within(start, f2, k, u) && self.linked(u, v);
                    self.lemma_linked_in_range(u, v);
                    assert(blocked(f1, v) == blocked(f2, v));
                    assert(self.reach_within(start, f1, k, u) == self.reach_within(start, f2, k, u));
                    assert(self.reach_within(start, f1, k, u) && self.linked(u, v));
                }
            }
        }
    }

    proof fn lemma_entries_agree(
        &self,
        f1: Seq<usize>,
        f2: Seq<usize>,
        visited: Seq<bool>,
        node: int,
        time: u64,
        m: int,
    )
        requires
            self.same_failures_inside(f1, f2),
            m <= self.links(node).len(),
        ensures
            self.entries_upto(f1, visited, node, time, m) == self.entries_upto(f2, visited, node, time, m),
        decreases m,
    {
        if m > 0 {
            self.lemma_entries_agree(f1, f2, visited, node, time, m - 1);
            self.lemma_links_in_range(node);
            assert(self.links(node)[m - 1].0 < self.node_count);
        }
    }

    proof fn lemma_bfs_agree(
        &self,
        f1: Seq<usize>,
        f2: Seq<usize>,
        queue: Seq<(usize, u64)>,
        visited: Seq<bool>,
        times: Seq<u64>,
    )
        requires
            self.same_failures_inside(f1, f2),
            visited.len() == self.node_count,
        ensures
            self.bfs_from(f1, queue, visited, times) == self.bfs_from(f2, queue, visited, times),
        decreases 5 * (visited.len() - count_true(visited)) + queue.len(),
    {
        lemma_count_true_bound(visited);
        if queue.len() > 0 {
            let entry = queue[0];
            let v = entry.0 as int;
            let rest = queue.drop_first();
            if !(0 <= v < visited.len()) || visited[v] || blocked(f1, v) {
                self.lemma_bfs_agree(f1, f2, rest, visited, times);
            } else {
                let marked = visited.update(v, true);
                lemma_count_true_set(visited, v);
                lemma_count_true_bound(marked);
                self.lemma_links_in_range(v);
                self.lemma_entries_len(f1, marked, v, entry.1, self.links(v).len() as int);
                self.lemma_entries_agree(f1, f2, marked, v, entry.1, self.links(v).len() as int);
                self.lemma_bfs_agree(
                    f1,
                    f2,
                    rest + self.new_entries(f1, marked, v, entry.1),
                    marked,
                    times.update(v, entry.1),
                );
            }
        }
    }

    /// Failed entries that name no node of the network change nothing: two
    /// failure lists that agree on the nodes of the network give the same
    /// breadth-first run, reach the same nodes, and so propagate alike.
    pub proof fn lemma_outside_failures_ignored(&self, start: int, f1: Seq<usize>, f2: Seq<usize>)
        requires
            0 <= start < self.node_count,
            self.same_failures_inside(f1, f2),
        ensures
            self.bfs_result(start, f1) == self.bfs_result(start, f2),
            self.reach_flags(start, f1) == self.reach_flags(start, f2),
            forall|max_time: u64, reached: usize|
                #[trigger] self.is_propagation(start, f1, max_time, reached) == self.is_propagation(
                    start,
                    f2,
                    max_time,
                    reached,
                ),
    {
        self.lemma_bfs_agree(
            f1,
            f2,
            seq![(start as usize, 0u64)],
            Seq::new(self.node_count as nat, |i: int| false),
            Seq::new(self.node_count as nat, |i: int| 0u64),
        );
        assert forall|v: int| 0 <= v < self.node_count implies self.reachable(start, f1, v)
            == self.reachable(start, f2, v) by {
            if self.reachable(start, f1, v) {
                let k = choose|k: nat| self.reach_within(start, f1, k, v);
                self.lemma_reach_agree(start, f1, f2, k);
                assert(self.reach_within(start, f1, k, v) == self.reach_within(start, f2, k, v));
                assert(self.reach_within(start, f2, k, v));
            }
            if self.reachable(start, f2, v) {
                let k = choose|k: nat| self.reach_within(start, f2, k, v);
                self.lemma_reach_agree(start, f1, f2, k);
                assert(self.reach_within(start, f1, k, v) == self.reach_within(start, f2, k, v));
                assert(self.reach_within(start, f1, k, v));
            }
        }
        assert(self.reach_flags(start, f1) =~= self.reach_flags(start, f2));
    }

    /// A propagation has exactly one result for a start and a failure list:
    /// so `propagate_signal_under_attack` with no failed nodes returns what
    /// `propagate_signal` returns.
    pub proof fn lemma_propagation_unique(
        &self,
        start: int,
        failed: Seq<usize>,
        max_time1: u64,
        reached1: usize,
        max_time2: u64,
        reached2: usize,
    )
        requires
            self.is_propagation(start, failed, max_time1, reached1),
            self.is_propagation(start, failed, max_time2, reached2),
        ensures
            max_time1 == max_time2,
            reached1 == reached2,
    {
    }

    /// Adding failed entries that name no node of the network never changes
    /// what a propagation returns.
    pub proof fn lemma_outside_failures_same_result(
        &self,
        start: int,
        f1: Seq<usize>,
        f2: Seq<usize>,
        max_time1: u64,
        reached1: usize,
        max_time2: u64,
        reached2: usize,
    )
        requires
            0 <= start < self.node_count,
            self.same_failures_inside(f1, f2),
            self.is_propagation(start, f1, max_time1, reached1),
            self.is_propagation(start, f2, max_time2, reached2),
        ensures
            max_time1 == max_time2,
            reached1 == reached2,
    {
        self.lemma_outside_failures_ignored(start, f1, f2);
    }

    proof fn lemma_reach_monotonic(&self, start: int, f1: Seq<usize>, f2: Seq<usize>, steps: nat, v: int)
        requires
            forall|w: int| blocked(f1, w) ==> blocked(f2, w),
            self.reach_within(start, f2, steps, v),
        ensures
            self.reach_within(start, f1, steps, v),
        decreases steps,
    {
        if steps > 0 {
            let k = (steps - 1) as nat;
            if self.reach_within(start, f2, k, v) {
                self.lemma_reach_monotonic(start, f1, f2, k, v);
            } else {
                let u = choose|u: int| #![trigger self.linked(u, v)] self.reach_within(start, f2, k, u) && self.linked(u, v);
                self.lemma_reach_monotonic(start, f1, f2, k, u);
            }
        }
    }

    /// More failures never reach more nodes: every node a propagation
    /// reaches with the failures `f2` it also reaches with fewer failures
    /// `f1`, so it reaches no more nodes.
    pub proof fn lemma_more_failures_reach_fewer(
        &self,
        start: int,
        f1: Seq<usize>,
        f2: Seq<usize>,
        max_time1: u64,
        reached1: usize,
        max_time2: u64,
        reached2: usize,
    )
        requires
            0 <= start < self.node_count,
            forall|w: int| blocked(f1, w) ==> blocked(f2, w),
            self.is_propagation(start, f1, max_time1, reached1),
            self.is_propagation(start, f2, max_time2, reached2),
        ensures
            forall|v: int|
                0 <= v < self.node_count && #[trigger] self.reach_flags(start, f2)[v] ==> self.reach_flags(
                    start,
                    f1,
                )[v],
            reached2 <= reached1,
    {
        assert forall|v: int|
            0 <= v < self.node_count && #[trigger] self.reach_flags(start, f2)[v] implies self.reach_flags(
            start,
            f1,
        )[v] by {
            let k = choose|k: nat| self.reach_within(start, f2, k, v);
            self.lemma_reach_monotonic(start, f1, f2, k, v);
        }
        lemma_count_pointwise(self.reach_flags(start, f2), self.reach_flags(start, f1));
    }

    /// A failed node is never reached, so a propagation reaches at most the
    /// nodes of the network that did not fail.
    pub proof fn lemma_failed_never_reached(&self, start: int, failed: Seq<usize>, max_time: u64, reached: usize)
        requires
            0 <= start < self.node_count,
            self.is_propagation(start, failed, max_time, reached),
        ensures
            forall|v: int|
                0 <= v < self.node_count && blocked(failed, v) ==> !(#[trigger] self.reach_flags(start, failed)[v]),
            reached + count_true(self.failed_flags(failed)) <= self.node_count,
    {
        assert forall|v: int|
            0 <= v < self.node_count && blocked(failed, v) implies !(#[trigger] self.reach_flags(start, failed)[v]) by {
            if self.reach_flags(start, failed)[v] {
                let k = choose|k: nat| self.reach_within(start, failed, k, v);
                self.lemma_reach_within_not_blocked(start, failed, k, v);
            }
        }
        lemma_count_disjoint(self.reach_flags(start, failed), self.failed_flags(failed));
    }
}

} // verus!
