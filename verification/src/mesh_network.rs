//! Link structure of a three-dimensional hex mesh: a flat mode with ring
//! and inter-plane links, and a fractal mode whose links follow nested
//! triangles.

use crate::ring_network::{count_true, lemma_count_suffix, lemma_count_true_bound, lemma_count_true_set, lemma_count_zero};
use vstd::arithmetic::div_mod::{lemma_add_mod_noop_right, lemma_mod_add_multiples_vanish, lemma_small_mod};
use vstd::prelude::*;

verus! {

/// The kind of a link, which decides its latency.
#[derive(PartialEq, Eq, Structural, Clone, Copy, Debug)]
pub enum ConnectionKind {
    Local,
    Regional,
    Global,
}

impl ConnectionKind {
    /// The name the simulator gives this kind of link.
    pub fn as_str(&self) -> (name: &'static str)
        ensures
            *self == ConnectionKind::Local ==> name@ == "local"@,
            *self == ConnectionKind::Regional ==> name@ == "regional"@,
            *self == ConnectionKind::Global ==> name@ == "global"@,
    {
        match self {
            ConnectionKind::Local => "local",
            ConnectionKind::Regional => "regional",
            ConnectionKind::Global => "global",
        }
    }
}

/// `3^depth`: the number of nodes in one layer of the fractal at `depth`.
pub open spec fn fractal_layer_size(depth: nat) -> nat
    decreases depth,
{
    if depth == 0 {
        1
    } else {
        3 * fractal_layer_size((depth - 1) as nat)
    }
}

/// The three offsets at which a node of fractal depth `depth` links to
/// other nodes: the orientation of its triangle turns with `depth % 3`.
pub open spec fn triangle_offsets_spec(depth: nat) -> Seq<nat> {
    let l = fractal_layer_size(depth);
    if depth % 3 == 0 {
        seq![1, l / 3, 2 * l / 3]
    } else if depth % 3 == 1 {
        seq![l / 6, l / 2, 5 * l / 6]
    } else {
        seq![l / 4, l / 2, 3 * l / 4]
    }
}

/// The node `offset` places after `index`, wrapping around a network of
/// `node_count` nodes, unless that is `index` itself.
pub open spec fn fractal_link(index: nat, offset: nat, node_count: nat) -> Seq<usize> {
    let target = (index + offset) % node_count;
    if target != index {
        seq![target as usize]
    } else {
        seq![]
    }
}

/// The fractal links of `index`, one per triangle offset, in order.
pub open spec fn fractal_links(index: nat, depth: nat, node_count: nat) -> Seq<usize> {
    let offsets = triangle_offsets_spec(depth);
    fractal_link(index, offsets[0], node_count) + fractal_link(index, offsets[1], node_count)
        + fractal_link(index, offsets[2], node_count)
}

/// The layer at `depth` and its triangle offsets are computed without
/// overflow: the largest product taken is `2`, `5` or `3` times the layer
/// size as `depth % 3` is 0, 1 or 2.
pub open spec fn offsets_fit(depth: nat) -> bool {
    let l = fractal_layer_size(depth);
    &&& l <= usize::MAX
    &&& (if depth % 3 == 0 {
        2 * l
    } else if depth % 3 == 1 {
        5 * l
    } else {
        3 * l
    }) <= usize::MAX
}

/// `index` plus each triangle offset of `depth` is computed without
/// overflow.
pub open spec fn links_fit(index: nat, depth: nat) -> bool {
    forall|i: int| 0 <= i < 3 ==> index + #[trigger] triangle_offsets_spec(depth)[i] <= usize::MAX
}

/// `3^depth`, computed.
pub fn layer_size_of(depth: usize) -> (size: usize)
    requires
        fractal_layer_size(depth as nat) <= usize::MAX,
    ensures
        size == fractal_layer_size(depth as nat),
{
    let mut size: usize = 1;
    let mut d: usize = 0;
    while d < depth
        invariant
            d <= depth,
            size == fractal_layer_size(d as nat),
            fractal_layer_size(depth as nat) <= usize::MAX,
        decreases depth - d,
    {
        proof {
            lemma_layer_size_monotonic((d + 1) as nat, depth as nat);
        }
        size = size * 3;
        d = d + 1;
    }
    size
}

/// Layers only grow deeper into the fractal.
pub proof fn lemma_layer_size_monotonic(a: nat, b: nat)
    requires
        a <= b,
    ensures
        fractal_layer_size(a) <= fractal_layer_size(b),
    decreases b - a,
{
    if a < b {
        lemma_layer_size_monotonic(a, (b - 1) as nat);
    }
}

/// The three offsets of `triangle_offsets_spec(depth)`.
pub fn triangle_offsets(depth: usize) -> (offsets: Vec<usize>)
    requires
        offsets_fit(depth as nat),
    ensures
        offsets@.len() == 3,
        forall|i: int| 0 <= i < 3 ==> offsets@[i] == #[trigger] triangle_offsets_spec(depth as nat)[i],
{
    let l = layer_size_of(depth);
    let offsets = if depth % 3 == 0 {
        vec![1, l / 3, 2 * l / 3]
    } else if depth % 3 == 1 {
        vec![l / 6, l / 2, 5 * l / 6]
    } else {
        vec![l / 4, l / 2, 3 * l / 4]
    };
    offsets
}

/// The fractal links of the node at `index`, whose fractal depth is
/// `depth`, in a network of `node_count` nodes.
pub fn fractal_neighbors(index: usize, depth: usize, node_count: usize) -> (neighbors: Vec<usize>)
    requires
        node_count > 0,
        offsets_fit(depth as nat),
        links_fit(index as nat, depth as nat),
    ensures
        neighbors@ == fractal_links(index as nat, depth as nat, node_count as nat),
        neighbors@.len() <= 3,
        forall|i: int|
            0 <= i < neighbors@.len() ==> #[trigger] neighbors@[i] < node_count && neighbors@[i] != index,
{
    let offsets = triangle_offsets(depth);
    let mut neighbors: Vec<usize> = Vec::new();
    let mut k: usize = 0;
    let ghost offsets_spec = triangle_offsets_spec(depth as nat);
    while k < 3
        invariant
            k <= 3,
            node_count > 0,
            offsets@.len() == 3,
            forall|i: int| 0 <= i < 3 ==> offsets@[i] == #[trigger] offsets_spec[i],
            offsets_spec == triangle_offsets_spec(depth as nat),
            forall|i: int| 0 <= i < 3 ==> index + #[trigger] offsets_spec[i] <= usize::MAX,
            neighbors@ == (if k == 0 {
                Seq::<usize>::empty()
            } else if k == 1 {
                fractal_link(index as nat, offsets_spec[0], node_count as nat)
            } else if k == 2 {
                fractal_link(index as nat, offsets_spec[0], node_count as nat) + fractal_link(
                    index as nat,
                    offsets_spec[1],
                    node_count as nat,
                )
            } else {
                fractal_links(index as nat, depth as nat, node_count as nat)
            }),
            neighbors@.len() <= k,
            forall|i: int|
                0 <= i < neighbors@.len() ==> #[trigger] neighbors@[i] < node_count && neighbors@[i] != index,
        decreases 3 - k,
    {
        let neighbor_index = (index + offsets[k]) % node_count;
        if neighbor_index != index && neighbor_index < node_count {
            neighbors.push(neighbor_index);
        }
        k = k + 1;
    }
    neighbors
}


/// How many of the four consecutive nodes from `base` on lie inside a
/// network of `node_count` nodes.
pub open spec fn plane_link_count(base: int, node_count: int) -> nat {
    if base >= node_count {
        0
    } else if node_count - base >= 4 {
        4
    } else {
        (node_count - base) as nat
    }
}

/// Regional links to the four consecutive nodes from `base` on, as far as
/// they exist.
pub open spec fn plane_links(base: int, node_count: int) -> Seq<(usize, ConnectionKind)> {
    Seq::new(
        plane_link_count(base, node_count),
        |k: int| ((base + k) as usize, ConnectionKind::Regional),
    )
}

/// The links of `index` in flat mode, in order: the twelve following nodes
/// of its plane (wrapping around), then up to four nodes of the plane above
/// (`plane_side * plane_side` places back) where there is one, then up to
/// four of the plane below where there is one.
pub open spec fn flat_links(index: int, node_count: int, plane_side: int) -> Seq<(usize, ConnectionKind)> {
    let offset = plane_side * plane_side;
    let ring = Seq::new(
        12,
        |k: int| (((index + k + 1) % node_count) as usize, ConnectionKind::Local),
    );
    let upper = if index >= offset {
        plane_links(index - offset, node_count)
    } else {
        Seq::empty()
    };
    let lower = if index + offset < node_count {
        plane_links(index + offset, node_count)
    } else {
        Seq::empty()
    };
    ring + upper + lower
}

/// Appends regional links to those of the four consecutive nodes from
/// `base` on that lie inside the network.
fn push_plane_links(neighbors: &mut Vec<(usize, ConnectionKind)>, base: usize, node_count: usize)
    requires
        base + 3 <= usize::MAX,
    ensures
        final(neighbors)@ == old(neighbors)@ + plane_links(base as int, node_count as int),
{
    let ghost start = old(neighbors)@;
    let mut i: usize = 0;
    while i < 4
        invariant
            i <= 4,
            base + 3 <= usize::MAX,
            neighbors@ == start + Seq::new(
                plane_link_count(base as int, if base + i <= node_count { (base + i) as int } else { node_count as int }),
                |k: int| ((base + k) as usize, ConnectionKind::Regional),
            ),
        decreases 4 - i,
    {
        let neighbor_index = base + i;
        if neighbor_index < node_count {
            neighbors.push((neighbor_index, ConnectionKind::Regional));
        }
        i = i + 1;
        assert(neighbors@ =~= start + Seq::new(
            plane_link_count(base as int, if base + i <= node_count { (base + i) as int } else { node_count as int }),
            |k: int| ((base + k) as usize, ConnectionKind::Regional),
        ));
    }
    assert(neighbors@ =~= start + plane_links(base as int, node_count as int));
}

/// A hex mesh of `node_count` nodes, linked either as flat planes or as a
/// fractal of nested triangles.
#[derive(Clone, Copy, Debug)]
pub struct GlobalHexNetwork {
    pub node_count: usize,
    pub fractal_mode: bool,
}

impl GlobalHexNetwork {
    /// A mesh of `node_count` nodes in the given mode.
    pub fn new(node_count: usize, fractal_mode: bool) -> (network: Self)
        ensures
            network.node_count == node_count,
            network.fractal_mode == fractal_mode,
    {
        GlobalHexNetwork { node_count, fractal_mode }
    }

    /// The links of `index`. In fractal mode, given the node's fractal
    /// `depth`, they are its fractal links, all local, or none where
    /// `index` lies outside the network; in flat mode, given the side
    /// `plane_side` of a plane, they are `flat_links`.
    pub fn get_neighbors(&self, index: usize, depth: usize, plane_side: usize) -> (neighbors: Vec<(usize, ConnectionKind)>)
        requires
            self.fractal_mode && index < self.node_count ==> offsets_fit(depth as nat) && links_fit(
                index as nat,
                depth as nat,
            ),
            !self.fractal_mode ==> {
                &&& self.node_count > 0
                &&& index + 12 <= usize::MAX
                &&& plane_side * plane_side <= usize::MAX
                &&& index + plane_side * plane_side <= usize::MAX
                &&& index + plane_side * plane_side < self.node_count ==> index + plane_side * plane_side
                    + 3 <= usize::MAX
            },
        ensures
            self.fractal_mode && index >= self.node_count ==> neighbors@.len() == 0,
            self.fractal_mode && index < self.node_count ==> neighbors@ == fractal_links(
                index as nat,
                depth as nat,
                self.node_count as nat,
            ).map_values(|i: usize| (i, ConnectionKind::Local)),
            !self.fractal_mode ==> neighbors@ == flat_links(
                index as int,
                self.node_count as int,
                plane_side as int,
            ),
    {
        let n = self.node_count;
        if self.fractal_mode {
            if index >= n {
                return Vec::new();
            }
            let targets = fractal_neighbors(index, depth, n);
            let mut neighbors: Vec<(usize, ConnectionKind)> = Vec::new();
            let mut k: usize = 0;
            while k < targets.len()
                invariant
                    k <= targets@.len(),
                    neighbors@ == targets@.subrange(0, k as int).map_values(
                        |i: usize| (i, ConnectionKind::Local),
                    ),
                decreases targets.len() - k,
            {
                neighbors.push((targets[k], ConnectionKind::Local));
                k = k + 1;
                assert(neighbors@ =~= targets@.subrange(0, k as int).map_values(
                    |i: usize| (i, ConnectionKind::Local),
                ));
            }
            assert(targets@.subrange(0, targets@.len() as int) =~= targets@);
            neighbors
        } else {
            let mut neighbors: Vec<(usize, ConnectionKind)> = Vec::new();
            let mut i: usize = 1;
            while i <= 12
                invariant
                    1 <= i <= 13,
                    n > 0,
                    index + 12 <= usize::MAX,
                    neighbors@ == Seq::new(
                        (i - 1) as nat,
                        |k: int| (((index + k + 1) % n as int) as usize, ConnectionKind::Local),
                    ),
                decreases 13 - i,
            {
                neighbors.push(((index + i) % n, ConnectionKind::Local));
                i = i + 1;
                assert(neighbors@ =~= Seq::new(
                    (i - 1) as nat,
                    |k: int| (((index + k + 1) % n as int) as usize, ConnectionKind::Local),
                ));
            }
            let layer_offset = plane_side * plane_side;
            if index >= layer_offset {
                push_plane_links(&mut neighbors, index - layer_offset, n);
            }
            if index + layer_offset < n {
                push_plane_links(&mut neighbors, index + layer_offset, n);
            }
            assert(neighbors@ =~= flat_links(index as int, n as int, plane_side as int));
            neighbors
        }
    }
}


impl GlobalHexNetwork {
    /// The nodes that `u` links to, given the fractal depth of each node in
    /// `depths` and the side `plane_side` of a flat plane.
    pub open spec fn link_targets(&self, depths: Seq<usize>, plane_side: int, u: int) -> Seq<usize> {
        if self.fractal_mode {
            if 0 <= u < self.node_count {
                fractal_links(u as nat, depths[u] as nat, self.node_count as nat)
            } else {
                Seq::empty()
            }
        } else {
            flat_links(u, self.node_count as int, plane_side).map_values(|e: (usize, ConnectionKind)| e.0)
        }
    }

    /// `get_neighbors` computes the links of `u` without overflow.
    pub open spec fn links_computable(&self, depths: Seq<usize>, plane_side: int, u: int) -> bool {
        if self.fractal_mode {
            0 <= u < self.node_count ==> offsets_fit(depths[u] as nat) && links_fit(u as nat, depths[u] as nat)
        } else {
            &&& self.node_count > 0
            &&& u + 12 <= usize::MAX
            &&& plane_side * plane_side <= usize::MAX
            &&& u + plane_side * plane_side <= usize::MAX
            &&& u + plane_side * plane_side < self.node_count ==> u + plane_side * plane_side + 3 <= usize::MAX
        }
    }

    /// `u` has a link to `v`.
    pub open spec fn mesh_linked(&self, depths: Seq<usize>, plane_side: int, u: int, v: int) -> bool {
        exists|j: int|
            0 <= j < self.link_targets(depths, plane_side, u).len() && self.link_targets(depths, plane_side, u)[j]
                as int == v
    }

    /// `v` can be reached from `start` in at most `steps` hops.
    pub open spec fn mesh_reach_within(&self, start: int, depths: Seq<usize>, plane_side: int, steps: nat, v: int) -> bool
        decreases steps,
    {
        if steps == 0 {
            v == start
        } else {
            self.mesh_reach_within(start, depths, plane_side, (steps - 1) as nat, v) || exists|u: int|
                #![trigger self.mesh_linked(depths, plane_side, u, v)]
                self.mesh_reach_within(start, depths, plane_side, (steps - 1) as nat, u) && self.mesh_linked(
                    depths,
                    plane_side,
                    u,
                    v,
                )
        }
    }

    /// `v` can be reached from `start` by following links.
    pub open spec fn mesh_reachable(&self, start: int, depths: Seq<usize>, plane_side: int, v: int) -> bool {
        exists|steps: nat| self.mesh_reach_within(start, depths, plane_side, steps, v)
    }

    /// How many nodes a signal from `start` reaches: the nodes of the
    /// network that can be reached, and `start` itself where it lies
    /// outside the network.
    pub open spec fn reach_count(&self, start: int, depths: Seq<usize>, plane_side: int) -> nat {
        count_true(Seq::new(self.node_count as nat, |v: int| self.mesh_reachable(start, depths, plane_side, v)))
            + (if start >= self.node_count {
            1nat
        } else {
            0nat
        })
    }

    /// Every link of `w` leads outside the network or to a node marked in
    /// `visited`.
    pub open spec fn targets_marked(&self, depths: Seq<usize>, plane_side: int, visited: Seq<bool>, w: int) -> bool {
        forall|j: int|
            0 <= j < self.link_targets(depths, plane_side, w).len() ==> {
                let t = #[trigger] self.link_targets(depths, plane_side, w)[j];
                t >= self.node_count || visited[t as int]
            }
    }

    /// Every link leads to a node of the network.
    proof fn lemma_targets_in_range(&self, depths: Seq<usize>, plane_side: int, u: int)
        requires
            0 <= u,
            !self.fractal_mode ==> self.node_count > 0,
        ensures
            forall|j: int|
                0 <= j < self.link_targets(depths, plane_side, u).len() ==> #[trigger] self.link_targets(
                    depths,
                    plane_side,
                    u,
                )[j] < self.node_count,
    {
        let n = self.node_count as int;
        let targets = self.link_targets(depths, plane_side, u);
        if self.fractal_mode {
            if 0 <= u < n {
                let offsets = triangle_offsets_spec(depths[u] as nat);
                let a = fractal_link(u as nat, offsets[0], n as nat);
                let b = fractal_link(u as nat, offsets[1], n as nat);
                let c = fractal_link(u as nat, offsets[2], n as nat);
                assert((u + offsets[0]) % n < n);
                assert((u + offsets[1]) % n < n);
                assert((u + offsets[2]) % n < n);
                assert(a.len() == 0 || a[0] < n);
                assert(b.len() == 0 || b[0] < n);
                assert(c.len() == 0 || c[0] < n);
                assert(a.len() <= 1 && b.len() <= 1 && c.len() <= 1);
                assert forall|j: int| 0 <= j < targets.len() implies #[trigger] targets[j] < n by {
                    assert(targets == a + b + c);
                    assert(fractal_link(u as nat, offsets[0], n as nat).len() == a.len());
                    if j < a.len() {
                        assert(targets[j] == a[j]);
                    } else if j < a.len() + b.len() {
                        assert(targets[j] == b[j - a.len()]);
                    } else {
                        assert(targets[j] == c[j - a.len() - b.len()]);
                    }
                }
            }
        } else {
            let links = flat_links(u, n, plane_side);
            let offset = plane_side * plane_side;
            assert(plane_side * plane_side >= 0) by (nonlinear_arith);
            assert forall|j: int| 0 <= j < targets.len() implies #[trigger] targets[j] < n by {
                assert(targets[j] == links[j].0);
                let ring = Seq::new(12, |k: int| (((u + k + 1) % n) as usize, ConnectionKind::Local));
                let upper = if u >= offset {
                    plane_links(u - offset, n)
                } else {
                    Seq::empty()
                };
                let lower = if u + offset < n {
                    plane_links(u + offset, n)
                } else {
                    Seq::empty()
                };
                assert(links == ring + upper + lower);
                if j < 12 {
                    assert(links[j] == ring[j]);
                    assert((u + j + 1) % n < n);
                } else if j < 12 + upper.len() {
                    assert(links[j] == upper[j - 12]);
                    assert(upper[j - 12].0 == (u - offset + j - 12) as usize);
                } else {
                    assert(links[j] == lower[j - 12 - upper.len()]);
                    assert(lower[j - 12 - upper.len()].0 == (u + offset + j - 12 - upper.len()) as usize);
                }
            }
        }
    }

    /// Where every marked node, and `start`, has all its links marked, every
    /// node that can be reached from `start` is `start` or marked.
    proof fn lemma_closed_covers_reach(
        &self,
        start: int,
        depths: Seq<usize>,
        plane_side: int,
        visited: Seq<bool>,
        steps: nat,
        v: int,
    )
        requires
            0 <= start,
            !self.fractal_mode ==> self.node_count > 0,
            visited.len() == self.node_count,
            forall|w: int|
                (w == start || (0 <= w < self.node_count && visited[w])) ==> #[trigger] self.targets_marked(
                    depths,
                    plane_side,
                    visited,
                    w,
                ),
            self.mesh_reach_within(start, depths, plane_side, steps, v),
        ensures
            0 <= v,
            v == start || (v < self.node_count && visited[v]),
        decreases steps,
    {
        if steps > 0 {
            let k = (steps - 1) as nat;
            if self.mesh_reach_within(start, depths, plane_side, k, v) {
                self.lemma_closed_covers_reach(start, depths, plane_side, visited, k, v);
            } else {
                let u = choose|u: int|
                    #![trigger self.mesh_linked(depths, plane_side, u, v)]
                    self.mesh_reach_within(start, depths, plane_side, k, u) && self.mesh_linked(
                        depths,
                        plane_side,
                        u,
                        v,
                    );
                self.lemma_closed_covers_reach(start, depths, plane_side, visited, k, u);
                let j = choose|j: int|
                    0 <= j < self.link_targets(depths, plane_side, u).len() && self.link_targets(
                        depths,
                        plane_side,
                        u,
                    )[j] as int == v;
                self.lemma_targets_in_range(depths, plane_side, u);
                assert(self.link_targets(depths, plane_side, u)[j] < self.node_count);
                assert(self.targets_marked(depths, plane_side, visited, u));
            }
        }
    }
}


impl GlobalHexNetwork {
    /// A node marked in `visited` stays marked in `grown`, so its links stay
    /// marked too.
    proof fn lemma_marked_grows(&self, depths: Seq<usize>, plane_side: int, visited: Seq<bool>, grown: Seq<bool>, w: int)
        requires
            visited.len() == grown.len(),
            forall|i: int| 0 <= i < visited.len() && visited[i] ==> grown[i],
            visited.len() == self.node_count,
            self.targets_marked(depths, plane_side, visited, w),
        ensures
            self.targets_marked(depths, plane_side, grown, w),
    {
        assert forall|j: int| 0 <= j < self.link_targets(depths, plane_side, w).len() implies {
            let t = #[trigger] self.link_targets(depths, plane_side, w)[j];
            t >= self.node_count || grown[t as int]
        } by {
            let t = self.link_targets(depths, plane_side, w)[j];
            if t < self.node_count {
                assert(visited[t as int]);
            }
        }
    }

    /// How many nodes a signal sent from `start` reaches, each counted once,
    /// following the links that `get_neighbors` gives every node with its
    /// fractal depth from `depths` and the plane side `plane_side`.
    pub fn reached_count(&self, start: usize, depths: &Vec<usize>, plane_side: usize) -> (count: usize)
        requires
            self.node_count < usize::MAX,
            self.fractal_mode ==> depths@.len() == self.node_count,
            forall|u: int| 0 <= u < self.node_count ==> #[trigger] self.links_computable(depths@, plane_side as int, u),
            self.links_computable(depths@, plane_side as int, start as int),
        ensures
            count == self.reach_count(start as int, depths@, plane_side as int),
    {
        let n = self.node_count;
        let ghost ds = depths@;
        let ghost ps = plane_side as int;
        let ghost st = start as int;
        let mut visited: Vec<bool> = vec![false; n];
        proof {
            lemma_count_zero(visited@);
        }
        let mut stack: Vec<usize> = Vec::new();
        stack.push(start);
        let mut count: usize = 1;
        if start < n {
            proof {
                lemma_count_true_set(visited@, st);
                assert(self.mesh_reach_within(st, ds, ps, 0, st));
            }
            visited.set(start, true);
        }
        proof {
            assert forall|w: int|
                (w == st || (0 <= w < n && visited@[w])) && !stack@.contains(w as usize) implies #[trigger] self.targets_marked(
                ds,
                ps,
                visited@,
                w,
            ) by {
                assert(stack@[0] == start);
            }
        }
        while stack.len() > 0
            invariant
                n == self.node_count,
                n < usize::MAX,
                ds == depths@,
                ps == plane_side as int,
                st == start as int,
                self.fractal_mode ==> ds.len() == n,
                forall|u: int| 0 <= u < n ==> #[trigger] self.links_computable(ds, ps, u),
                self.links_computable(ds, ps, st),
                visited@.len() == n,
                count_true(visited@) <= n,
                count == count_true(visited@) + (if st >= n {
                    1nat
                } else {
                    0nat
                }),
                st < n ==> visited@[st],
                forall|v: int| 0 <= v < n && visited@[v] ==> #[trigger] self.mesh_reachable(st, ds, ps, v),
                forall|i: int|
                    0 <= i < stack@.len() ==> (#[trigger] stack@[i] == start || (stack@[i] < n && visited@[stack@[i] as int])),
                forall|w: int|
                    (w == st || (0 <= w < n && visited@[w])) && !stack@.contains(w as usize) ==> #[trigger] self.targets_marked(
                        ds,
                        ps,
                        visited@,
                        w,
                    ),
            decreases n - count_true(visited@), stack.len(),
        {
            let ghost c0 = count_true(visited@);
            let ghost s0 = stack@.len();
            let ghost before = stack@;
            let u = stack.pop().unwrap();
            let ghost ui = u as int;
            proof {
                assert(before == stack@.push(u));
                assert(before[before.len() - 1] == u);
                assert(u == start || (u < n && visited@[ui]));
                if u == start {
                    assert(self.mesh_reach_within(st, ds, ps, 0, st));
                }
                assert(self.mesh_reachable(st, ds, ps, ui));
                assert(self.links_computable(ds, ps, ui));
            }
            let depth = if self.fractal_mode && u < n {
                depths[u]
            } else {
                0
            };
            let neighbors = self.get_neighbors(u, depth, plane_side);
            proof {
                let targets = self.link_targets(ds, ps, ui);
                if self.fractal_mode && u < n {
                    assert(neighbors@.len() == targets.len());
                    assert(forall|m: int| 0 <= m < neighbors@.len() ==> neighbors@[m].0 == targets[m]);
                } else if self.fractal_mode {
                    assert(targets.len() == 0);
                } else {
                    assert(neighbors@.len() == targets.len());
                    assert(forall|m: int| 0 <= m < neighbors@.len() ==> neighbors@[m].0 == targets[m]);
                }
            }
            let mut j: usize = 0;
            while j < neighbors.len()
                invariant
                    n == self.node_count,
                    n < usize::MAX,
                    st == start as int,
                    0 <= ui,
                    j <= neighbors@.len(),
                    neighbors@.len() == self.link_targets(ds, ps, ui).len(),
                    forall|m: int|
                        0 <= m < neighbors@.len() ==> #[trigger] neighbors@[m].0 == self.link_targets(ds, ps, ui)[m],
                    self.mesh_reachable(st, ds, ps, ui),
                    visited@.len() == n,
                    count_true(visited@) <= n,
                    count_true(visited@) >= c0,
                    count_true(visited@) > c0 || stack@.len() == s0 - 1,
                    count == count_true(visited@) + (if st >= n {
                        1nat
                    } else {
                        0nat
                    }),
                    st < n ==> visited@[st],
                    forall|v: int| 0 <= v < n && visited@[v] ==> #[trigger] self.mesh_reachable(st, ds, ps, v),
                    forall|i: int|
                        0 <= i < stack@.len() ==> (#[trigger] stack@[i] == start || (stack@[i] < n
                            && visited@[stack@[i] as int])),
                    forall|m: int|
                        0 <= m < j ==> {
                            let t = #[trigger] self.link_targets(ds, ps, ui)[m];
                            t >= n || visited@[t as int]
                        },
                    forall|w: int|
                        w != ui && (w == st || (0 <= w < n && visited@[w])) && !stack@.contains(w as usize)
                            ==> #[trigger] self.targets_marked(ds, ps, visited@, w),
                decreases neighbors.len() - j,
            {
                let t = neighbors[j].0;
                proof {
                    assert(neighbors@[j as int].0 == self.link_targets(ds, ps, ui)[j as int]);
                }
                if t < n && !visited[t] {
                    let ghost old_visited = visited@;
                    let ghost old_stack = stack@;
                    proof {
                        let k = choose|k: nat| self.mesh_reach_within(st, ds, ps, k, ui);
                        assert(self.mesh_linked(ds, ps, ui, t as int));
                        assert(self.mesh_reach_within(st, ds, ps, k + 1, t as int));
                        assert(self.mesh_reachable(st, ds, ps, t as int));
                        lemma_count_true_set(visited@, t as int);
                        lemma_count_true_bound(visited@.update(t as int, true));
                    }
                    visited.set(t, true);
                    stack.push(t);
                    count = count + 1;
                    proof {
                        lemma_count_true_bound(visited@);
                        assert forall|w: int|
                            w != ui && (w == st || (0 <= w < n && visited@[w])) && !stack@.contains(w as usize)
                                implies #[trigger] self.targets_marked(ds, ps, visited@, w) by {
                            assert(stack@[stack@.len() - 1] == t);
                            assert(w != t as int);
                            assert forall|i: int| 0 <= i < old_stack.len() implies old_stack[i] == stack@[i] by {}
                            assert(!old_stack.contains(w as usize));
                            self.lemma_marked_grows(ds, ps, old_visited, visited@, w);
                        }
                        assert forall|i: int| 0 <= i < stack@.len() implies (#[trigger] stack@[i] == start || (
                        stack@[i] < n && visited@[stack@[i] as int])) by {
                            if i < old_stack.len() {
                                assert(stack@[i] == old_stack[i]);
                            }
                        }
                    }
                }
                j = j + 1;
            }
            proof {
                assert(self.targets_marked(ds, ps, visited@, ui));
                lemma_count_true_bound(visited@);
                assert forall|w: int|
                    (w == st || (0 <= w < n && visited@[w])) && !stack@.contains(w as usize) implies #[trigger] self.targets_marked(
                    ds,
                    ps,
                    visited@,
                    w,
                ) by {}
            }
        }
        proof {
            assert forall|v: int| 0 <= v < n implies #[trigger] self.mesh_reachable(st, ds, ps, v) == visited@[v] by {
                if self.mesh_reachable(st, ds, ps, v) {
                    let k = choose|k: nat| self.mesh_reach_within(st, ds, ps, k, v);
                    assert forall|w: int| (w == st || (0 <= w < n && visited@[w])) implies #[trigger] self.targets_marked(
                        ds,
                        ps,
                        visited@,
                        w,
                    ) by {
                        assert(!stack@.contains(w as usize));
                    }
                    self.lemma_closed_covers_reach(st, ds, ps, visited@, k, v);
                }
            }
            assert(Seq::new(n as nat, |v: int| self.mesh_reachable(st, ds, ps, v)) =~= visited@);
        }
        count
    }
}


impl GlobalHexNetwork {
    /// In flat mode, following each node's first link (to the next node of
    /// its ring) `k` times from `start` leads to `(start + k) % node_count`.
    proof fn lemma_flat_walk(&self, depths: Seq<usize>, plane_side: int, start: int, k: nat)
        requires
            !self.fractal_mode,
            0 <= start < self.node_count,
        ensures
            self.mesh_reach_within(start, depths, plane_side, k, (start + k) % (self.node_count as int)),
        decreases k,
    {
        let n = self.node_count as int;
        if k == 0 {
            lemma_small_mod(start as nat, n as nat);
        } else {
            let k1 = (k - 1) as nat;
            self.lemma_flat_walk(depths, plane_side, start, k1);
            let u = (start + k1) % n;
            let v = (start + k) % n;
            lemma_add_mod_noop_right(1, start + k1, n);
            let links = flat_links(u, n, plane_side);
            let ring = Seq::new(12, |m: int| (((u + m + 1) % n) as usize, ConnectionKind::Local));
            let upper = if u >= plane_side * plane_side {
                plane_links(u - plane_side * plane_side, n)
            } else {
                Seq::empty()
            };
            let lower = if u + plane_side * plane_side < n {
                plane_links(u + plane_side * plane_side, n)
            } else {
                Seq::empty()
            };
            assert(links == ring + upper + lower);
            assert(links[0] == ring[0]);
            assert(self.link_targets(depths, plane_side, u)[0] as int == v);
            assert(self.mesh_linked(depths, plane_side, u, v));
        }
    }

    /// In flat mode a signal sent from any node of the network reaches every
    /// node, so it reaches as many nodes as the network has.
    pub proof fn lemma_flat_reaches_every_node(&self, start: int, depths: Seq<usize>, plane_side: int)
        requires
            !self.fractal_mode,
            0 <= start < self.node_count,
        ensures
            forall|v: int| 0 <= v < self.node_count ==> #[trigger] self.mesh_reachable(start, depths, plane_side, v),
            self.reach_count(start, depths, plane_side) == self.node_count,
    {
        let n = self.node_count as int;
        assert forall|v: int| 0 <= v < n implies #[trigger] self.mesh_reachable(start, depths, plane_side, v) by {
            if v >= start {
                let k = (v - start) as nat;
                self.lemma_flat_walk(depths, plane_side, start, k);
                lemma_small_mod(v as nat, n as nat);
                assert(self.mesh_reach_within(start, depths, plane_side, k, v));
            } else {
                let k = (v + n - start) as nat;
                self.lemma_flat_walk(depths, plane_side, start, k);
                lemma_mod_add_multiples_vanish(v, n);
                lemma_small_mod(v as nat, n as nat);
                assert(self.mesh_reach_within(start, depths, plane_side, k, v));
            }
        }
        assert(Seq::new(n as nat, |v: int| self.mesh_reachable(start, depths, plane_side, v)) =~= Seq::new(
            n as nat,
            |i: int| i >= 0,
        ));
        lemma_count_suffix(n as nat, 0);
    }
}


/// In flat mode the links of `index` are, in order: the twelve nodes that
/// follow it on its ring (wrapping around), all local; then, where `index`
/// is at least `plane_side * plane_side`, the four nodes from
/// `index - plane_side * plane_side` on (the plane above); then the four
/// nodes from `index + plane_side * plane_side` on (the plane below); the
/// links to other planes are regional and reach only nodes of the network.
pub proof fn lemma_flat_links_shape(index: int, node_count: int, plane_side: int)
    requires
        0 <= index,
        0 < node_count <= usize::MAX,
    ensures
        forall|k: int|
            0 <= k < 12 ==> #[trigger] flat_links(index, node_count, plane_side)[k] == (
                ((index + k + 1) % node_count) as usize,
                ConnectionKind::Local,
            ),
        forall|k: int|
            0 <= k < 4 && plane_side * plane_side <= index && index - plane_side * plane_side + k < node_count
                ==> #[trigger] flat_links(index, node_count, plane_side)[12 + k] == (
                (index - plane_side * plane_side + k) as usize,
                ConnectionKind::Regional,
            ),
        forall|t: usize|
            index + plane_side * plane_side <= t < index + plane_side * plane_side + 4 && t < node_count
                ==> #[trigger] flat_links(index, node_count, plane_side).contains((t, ConnectionKind::Regional)),
        forall|m: int|
            12 <= m < flat_links(index, node_count, plane_side).len() ==> {
                let e = #[trigger] flat_links(index, node_count, plane_side)[m];
                &&& e.1 == ConnectionKind::Regional
                &&& e.0 < node_count
                &&& (index + plane_side * plane_side <= e.0 < index + plane_side * plane_side + 4 || (plane_side
                    * plane_side <= index && index - plane_side * plane_side <= e.0 < index - plane_side
                    * plane_side + 4))
            },
        ({
            let offset = plane_side * plane_side;
            let up = if offset <= index && index - offset < node_count {
                if node_count - (index - offset) >= 4 {
                    4
                } else {
                    node_count - (index - offset)
                }
            } else {
                0
            };
            let down = if index + offset < node_count {
                if node_count - (index + offset) >= 4 {
                    4
                } else {
                    node_count - (index + offset)
                }
            } else {
                0
            };
            &&& flat_links(index, node_count, plane_side).len() == 12 + up + down
            &&& forall|k: int|
                0 <= k < down ==> #[trigger] flat_links(index, node_count, plane_side)[12 + up + k] == (
                    (index + offset + k) as usize,
                    ConnectionKind::Regional,
                )
        }),
        flat_links(index, node_count, plane_side).len() <= 20,
{
    let n = node_count;
    let offset = plane_side * plane_side;
    assert(offset >= 0) by (nonlinear_arith)
        requires
            offset == plane_side * plane_side,
    ;
    let links = flat_links(index, n, plane_side);
    let ring = Seq::new(12, |k: int| (((index + k + 1) % n) as usize, ConnectionKind::Local));
    let upper = if index >= offset {
        plane_links(index - offset, n)
    } else {
        Seq::empty()
    };
    let lower = if index + offset < n {
        plane_links(index + offset, n)
    } else {
        Seq::empty()
    };
    assert(links == ring + upper + lower);
    assert forall|k: int| 0 <= k < 12 implies #[trigger] links[k] == (
        ((index + k + 1) % n) as usize,
        ConnectionKind::Local,
    ) by {
        assert(links[k] == ring[k]);
    }
    assert forall|k: int| 0 <= k < 4 && offset <= index && index - offset + k < n implies #[trigger] links[12
        + k] == ((index - offset + k) as usize, ConnectionKind::Regional) by {
        assert(links[12 + k] == upper[k]);
    }
    assert forall|k: int| 0 <= k < lower.len() implies #[trigger] links[12 + upper.len() + k] == lower[k] by {}
    assert forall|t: usize| index + offset <= t < index + offset + 4 && t < n implies #[trigger] links.contains(
        (t, ConnectionKind::Regional),
    ) by {
        let k = t - index - offset;
        assert(links[12 + upper.len() + k] == lower[k]);
    }
    assert forall|m: int| 12 <= m < links.len() implies {
        let e = #[trigger] links[m];
        &&& e.1 == ConnectionKind::Regional
        &&& e.0 < n
        &&& (index + offset <= e.0 < index + offset + 4 || (offset <= index && index - offset <= e.0 < index
            - offset + 4))
    } by {
        if m < 12 + upper.len() {
            let k = m - 12;
            assert(links[m] == upper[k]);
            assert(index >= offset);
            assert(k < plane_link_count(index - offset, n));
            assert(upper[k] == ((index - offset + k) as usize, ConnectionKind::Regional));
        } else {
            let k = m - 12 - upper.len();
            assert(links[m] == lower[k]);
            assert(index + offset < n);
            assert(k < plane_link_count(index + offset, n));
            assert(lower[k] == ((index + offset + k) as usize, ConnectionKind::Regional));
        }
    }
}

} // verus!
