//! Branching timelines over a one-bit memory that may be void, and the
//! patterns their branches form.

use vstd::prelude::*;

verus! {

/// A fair coin toss.
///
/// Calls `rand::random::<bool>()`, which draws from the thread-local
/// generator; nothing is claimed of the outcome.
#[verifier::external_body]
fn random_bool() -> bool {
    rand::random::<bool>()
}

/// The two coins of a memory step: the first decides whether the cell
/// changes, and the second, drawn only when the first comes up, is the
/// boolean it takes.
fn draw_coins() -> (coins: (bool, bool)) {
    let flip = random_bool();
    let value = if flip {
        random_bool()
    } else {
        false
    };
    (flip, value)
}

/// A memory cell that starts void (holding no value) and may, on a
/// transition, come to hold a boolean.
#[derive(Clone, Debug)]
pub struct UnstableMemory {
    present: bool,
    value: bool,
}

impl UnstableMemory {
    /// What the cell holds: nothing, or a boolean.
    pub closed spec fn state(&self) -> Option<bool> {
        if self.present {
            Some(self.value)
        } else {
            None
        }
    }

    /// A void cell.
    pub fn new() -> (memory: Self)
        ensures
            memory.state() == None::<bool>,
    {
        UnstableMemory { present: false, value: false }
    }

    /// One step of the cell given its two coins: when `flip` comes up the
    /// cell takes `value`; otherwise it stays as it was.
    pub fn step(&mut self, flip: bool, value: bool)
        ensures
            final(self).state() == (if flip {
                Some(value)
            } else {
                old(self).state()
            }),
    {
        if flip {
            self.present = true;
            self.value = value;
        }
    }

    /// On a coin toss, the cell takes a boolean drawn by a second toss
    /// (see `step`); otherwise it stays as it was. So it either stays the
    /// same or holds a boolean afterwards, and a boolean never turns void.
    pub fn transition(&mut self)
        ensures
            final(self).state() == old(self).state() || final(self).state() is Some,
            old(self).state() is Some ==> final(self).state() is Some,
    {
        let (flip, value) = draw_coins();
        self.step(flip, value);
    }

    /// What the cell holds.
    pub fn get_state(&self) -> (state: Option<bool>)
        ensures
            state == self.state(),
    {
        if self.present {
            Some(self.value)
        } else {
            None
        }
    }

    /// Makes the cell hold `state`: a later `get_state` gives it back.
    pub fn set_state(&mut self, state: Option<bool>)
        ensures
            final(self).state() == state,
    {
        match state {
            Some(value) => {
                self.present = true;
                self.value = value;
            },
            None => {
                self.present = false;
            },
        }
    }
}


/// How many branch points a timeline has seen and of what kind.
#[derive(Clone, Debug)]
pub struct CoherenceCounts {
    pub disorder_to_order_transitions: u64,
    pub order_to_disorder_transitions: u64,
    /// The number of branches at each branch point, oldest first.
    pub branch_points: Vec<usize>,
}

/// Sum of a list of branch counts.
pub open spec fn branch_sum(branches: Seq<usize>) -> nat
    decreases branches.len(),
{
    if branches.len() == 0 {
        0
    } else {
        branch_sum(branches.drop_last()) + branches.last() as nat
    }
}

impl CoherenceCounts {
    /// No transitions and no branch points.
    pub fn new() -> (counts: Self)
        ensures
            counts.disorder_to_order_transitions == 0,
            counts.order_to_disorder_transitions == 0,
            counts.branch_points@.len() == 0,
    {
        CoherenceCounts {
            disorder_to_order_transitions: 0,
            order_to_disorder_transitions: 0,
            branch_points: Vec::new(),
        }
    }

    /// The terms of the coherence probability: disorder-to-order
    /// transitions weighted by all branches seen, over all transitions.
    /// With no transitions at all both terms are 0 and the branches are not
    /// summed.
    pub fn coherence_terms(&self) -> (terms: (usize, u64))
        requires
            self.disorder_to_order_transitions + self.order_to_disorder_transitions <= u64::MAX,
            self.disorder_to_order_transitions + self.order_to_disorder_transitions > 0 ==> {
                &&& branch_sum(self.branch_points@) <= usize::MAX
                &&& (self.disorder_to_order_transitions as usize) * branch_sum(self.branch_points@)
                    <= usize::MAX
            },
        ensures
            terms.1 == self.disorder_to_order_transitions + self.order_to_disorder_transitions,
            terms.1 == 0 ==> terms.0 == 0,
            terms.1 > 0 ==> terms.0 == (self.disorder_to_order_transitions as usize) * branch_sum(
                self.branch_points@,
            ),
    {
        let total_transitions = self.disorder_to_order_transitions + self.order_to_disorder_transitions;
        if total_transitions == 0 {
            return (0, 0);
        }
        let d2o = self.disorder_to_order_transitions;
        let mut branches: usize = 0;
        let mut k: usize = 0;
        proof {
            lemma_branch_sum_prefix(self.branch_points@);
        }
        while k < self.branch_points.len()
            invariant
                k <= self.branch_points@.len(),
                branches == branch_sum(self.branch_points@.subrange(0, k as int)),
                forall|m: int|
                    0 <= m <= self.branch_points@.len() ==> #[trigger] branch_sum(
                        self.branch_points@.subrange(0, m),
                    ) <= branch_sum(self.branch_points@),
                branch_sum(self.branch_points@) <= usize::MAX,
                d2o == self.disorder_to_order_transitions,
            decreases self.branch_points.len() - k,
        {
            assert(self.branch_points@.subrange(0, k + 1).drop_last() =~= self.branch_points@.subrange(
                0,
                k as int,
            ));
            assert(branch_sum(self.branch_points@.subrange(0, k + 1)) == branches
                + self.branch_points@[k as int]);
            assert(branch_sum(self.branch_points@.subrange(0, k + 1)) <= branch_sum(
                self.branch_points@,
            ));
            branches = branches + self.branch_points[k];
            k = k + 1;
        }
        assert(self.branch_points@.subrange(0, k as int) =~= self.branch_points@);
        let weight = d2o as usize;
        (weight * branches, total_transitions)
    }
}

proof fn lemma_branch_sum_prefix(s: Seq<usize>)
    ensures
        forall|m: int| 0 <= m <= s.len() ==> #[trigger] branch_sum(s.subrange(0, m)) <= branch_sum(s),
    decreases s.len(),
{
    if s.len() > 0 {
        lemma_branch_sum_prefix(s.drop_last());
        assert forall|m: int| 0 <= m <= s.len() implies #[trigger] branch_sum(s.subrange(0, m)) <= branch_sum(s) by {
            if m == s.len() {
                assert(s.subrange(0, m) =~= s);
            } else {
                assert(s.subrange(0, m) =~= s.drop_last().subrange(0, m));
            }
        }
    }
}

/// One timeline: an identifier, its memory cell, the timelines that
/// branched off it, and its coherence counts.
#[derive(Debug)]
pub struct TimelineState {
    pub id: usize,
    pub memory: UnstableMemory,
    pub child_timelines: Vec<TimelineState>,
    pub metrics: CoherenceCounts,
}

/// The number of timelines in the tree rooted at `timeline`: itself and
/// every timeline below it.
pub open spec fn timeline_count(timeline: TimelineState) -> nat
    decreases timeline, 0nat,
{
    1 + forest_count(timeline.child_timelines@)
}

/// The number of timelines in all the trees of `forest`.
pub open spec fn forest_count(forest: Seq<TimelineState>) -> nat
    decreases forest, 1nat,
{
    if forest.len() == 0 {
        0
    } else {
        forest_count(forest.drop_last()) + timeline_count(forest.last())
    }
}


proof fn lemma_forest_prefix(forest: Seq<TimelineState>)
    ensures
        forall|m: int|
            0 <= m <= forest.len() ==> #[trigger] forest_count(forest.subrange(0, m)) <= forest_count(forest),
    decreases forest.len(),
{
    if forest.len() > 0 {
        lemma_forest_prefix(forest.drop_last());
        assert forall|m: int| 0 <= m <= forest.len() implies #[trigger] forest_count(forest.subrange(0, m))
            <= forest_count(forest) by {
            if m == forest.len() {
                assert(forest.subrange(0, m) =~= forest);
            } else {
                assert(forest.subrange(0, m) =~= forest.drop_last().subrange(0, m));
            }
        }
    }
}

/// The number of timelines in the tree rooted at `timeline`.
pub fn count_timelines(timeline: &TimelineState) -> (count: usize)
    requires
        timeline_count(*timeline) <= usize::MAX,
    ensures
        count == timeline_count(*timeline),
    decreases timeline,
{
    let children = &timeline.child_timelines;
    let mut total: usize = 1;
    let mut k: usize = 0;
    proof {
        lemma_forest_prefix(children@);
    }
    while k < children.len()
        invariant
            k <= children@.len(),
            children@ == timeline.child_timelines@,
            total == 1 + forest_count(children@.subrange(0, k as int)),
            forall|m: int|
                0 <= m <= children@.len() ==> #[trigger] forest_count(children@.subrange(0, m))
                    <= forest_count(children@),
            1 + forest_count(children@) <= usize::MAX,
        decreases children.len() - k,
    {
        let ghost prefix = children@.subrange(0, k as int);
        assert(children@.subrange(0, k + 1).drop_last() =~= prefix);
        assert(forest_count(children@.subrange(0, k + 1)) == forest_count(prefix) + timeline_count(
            children@[k as int],
        ));
        assert(forest_count(children@.subrange(0, k + 1)) <= forest_count(children@));
        assert(decreases_to!(*timeline => timeline.child_timelines));
        assert(decreases_to!(timeline.child_timelines => timeline.child_timelines@));
        assert(decreases_to!(timeline.child_timelines@ => timeline.child_timelines@[k as int]));
        let below = count_timelines(&children[k]);
        total = total + below;
        k = k + 1;
    }
    assert(children@.subrange(0, k as int) =~= children@);
    total
}

/// The number of timelines in the tree rooted at `timeline`, or `None`
/// when that number does not fit in a `usize`.
pub fn checked_count_timelines(timeline: &TimelineState) -> (count: Option<usize>)
    ensures
        count is Some <==> timeline_count(*timeline) <= usize::MAX,
        count is Some ==> count->0 == timeline_count(*timeline),
    decreases timeline,
{
    let children = &timeline.child_timelines;
    let mut total: usize = 1;
    let mut k: usize = 0;
    proof {
        lemma_forest_prefix(children@);
    }
    while k < children.len()
        invariant
            k <= children@.len(),
            children@ == timeline.child_timelines@,
            total == 1 + forest_count(children@.subrange(0, k as int)),
            forall|m: int|
                0 <= m <= children@.len() ==> #[trigger] forest_count(children@.subrange(0, m))
                    <= forest_count(children@),
        decreases children.len() - k,
    {
        let ghost prefix = children@.subrange(0, k as int);
        assert(children@.subrange(0, k + 1).drop_last() =~= prefix);
        assert(forest_count(children@.subrange(0, k + 1)) == forest_count(prefix) + timeline_count(
            children@[k as int],
        ));
        assert(forest_count(children@.subrange(0, k + 1)) <= forest_count(children@));
        assert(decreases_to!(*timeline => timeline.child_timelines));
        assert(decreases_to!(timeline.child_timelines => timeline.child_timelines@));
        assert(decreases_to!(timeline.child_timelines@ => timeline.child_timelines@[k as int]));
        match checked_count_timelines(&children[k]) {
            None => {
                return None;
            },
            Some(below) => {
                match total.checked_add(below) {
                    None => {
                        return None;
                    },
                    Some(sum) => {
                        total = sum;
                    },
                }
            },
        }
        k = k + 1;
    }
    assert(children@.subrange(0, k as int) =~= children@);
    Some(total)
}

/// What one transition of a timeline yields: the number of timelines in
/// its tree, and the boolean its memory holds afterwards, if any, from
/// which a branch timeline is spawned.
pub struct TransitionOutcome {
    pub timeline_count: usize,
    pub branch: Option<bool>,
}

impl TimelineState {
    /// A timeline with a void memory and no branches.
    pub fn new() -> (timeline: Self)
        ensures
            timeline.id == 0,
            timeline.memory.state() == None::<bool>,
            timeline.child_timelines@.len() == 0,
            timeline_count(timeline) == 1,
            timeline.metrics.disorder_to_order_transitions == 0,
            timeline.metrics.order_to_disorder_transitions == 0,
            timeline.metrics.branch_points@.len() == 0,
    {
        let timeline = TimelineState {
            id: 0,
            memory: UnstableMemory::new(),
            child_timelines: Vec::new(),
            metrics: CoherenceCounts::new(),
        };
        assert(forest_count(timeline.child_timelines@) == 0);
        timeline
    }

    /// A timeline with no branches whose memory holds `initial_state`.
    pub fn new_with_state(initial_state: Option<bool>) -> (timeline: Self)
        ensures
            timeline.id == 0,
            timeline.memory.state() == initial_state,
            timeline.child_timelines@.len() == 0,
            timeline_count(timeline) == 1,
            timeline.metrics.disorder_to_order_transitions == 0,
            timeline.metrics.order_to_disorder_transitions == 0,
            timeline.metrics.branch_points@.len() == 0,
    {
        let mut memory = UnstableMemory::new();
        memory.set_state(initial_state);
        let timeline = TimelineState {
            id: 0,
            memory,
            child_timelines: Vec::new(),
            metrics: CoherenceCounts::new(),
        };
        assert(forest_count(timeline.child_timelines@) == 0);
        timeline
    }

    /// Moves this timeline one step forward given the two coins of its
    /// memory: counts the timelines of its tree, then steps the memory
    /// (see `UnstableMemory::step`). The tree itself does not change, and
    /// the outcome names the boolean the memory holds afterwards, if any.
    pub fn step(&mut self, flip: bool, value: bool) -> (outcome: TransitionOutcome)
        requires
            timeline_count(*old(self)) <= usize::MAX,
        ensures
            outcome.timeline_count == timeline_count(*old(self)),
            final(self).id == old(self).id,
            final(self).child_timelines@ == old(self).child_timelines@,
            final(self).metrics == old(self).metrics,
            timeline_count(*final(self)) == timeline_count(*old(self)),
            final(self).memory.state() == (if flip {
                Some(value)
            } else {
                old(self).memory.state()
            }),
            outcome.branch == final(self).memory.state(),
    {
        let total = count_timelines(self);
        self.memory.step(flip, value);
        let branch = self.memory.get_state();
        TransitionOutcome { timeline_count: total, branch }
    }

    /// Moves this timeline one step forward on freshly drawn coins (see
    /// `step`): whatever they show, the tree keeps its size and the memory
    /// either stays as it was or holds a boolean.
    pub fn transition(&mut self) -> (outcome: TransitionOutcome)
        requires
            timeline_count(*old(self)) <= usize::MAX,
        ensures
            outcome.timeline_count == timeline_count(*old(self)),
            final(self).id == old(self).id,
            final(self).child_timelines@ == old(self).child_timelines@,
            final(self).metrics == old(self).metrics,
            timeline_count(*final(self)) == timeline_count(*old(self)),
            final(self).memory.state() == old(self).memory.state() || final(self).memory.state() is Some,
            old(self).memory.state() is Some ==> final(self).memory.state() is Some,
            outcome.branch == final(self).memory.state(),
    {
        let (flip, value) = draw_coins();
        self.step(flip, value)
    }
}

/// The kind of change a timeline's memory goes through.
#[derive(PartialEq, Eq, Structural, Clone, Copy, Debug)]
pub enum PatternType {
    Emergence,
    OrderFormation,
    OrderStabilization,
    Chaos,
}

/// The kind of change from memory state `before` to memory state `after`:
/// a value appearing out of the void is emergence, `false` turning `true`
/// forms order, `true` staying `true` stabilises it, and anything else is
/// chaos.
pub fn classify_transition(before: Option<bool>, after: Option<bool>) -> (kind: PatternType)
    ensures
        kind == (if before is None && after is Some {
            PatternType::Emergence
        } else if before == Some(false) && after == Some(true) {
            PatternType::OrderFormation
        } else if before == Some(true) && after == Some(true) {
            PatternType::OrderStabilization
        } else {
            PatternType::Chaos
        }),
{
    match (before, after) {
        (None, Some(_)) => PatternType::Emergence,
        (Some(false), Some(true)) => PatternType::OrderFormation,
        (Some(true), Some(true)) => PatternType::OrderStabilization,
        _ => PatternType::Chaos,
    }
}

/// The positions marked in `flags`, in increasing order.
pub open spec fn flagged_positions(flags: Seq<bool>) -> Seq<usize>
    decreases flags.len(),
{
    if flags.len() == 0 {
        Seq::empty()
    } else {
        flagged_positions(flags.drop_last()) + (if flags.last() {
            seq![(flags.len() - 1) as usize]
        } else {
            Seq::empty()
        })
    }
}

/// The positions of `flags` that are marked, in increasing order.
pub fn marked_positions(flags: &Vec<bool>) -> (positions: Vec<usize>)
    ensures
        positions@ == flagged_positions(flags@),
{
    let mut positions: Vec<usize> = Vec::new();
    let mut i: usize = 0;
    while i < flags.len()
        invariant
            i <= flags@.len(),
            positions@ == flagged_positions(flags@.subrange(0, i as int)),
        decreases flags.len() - i,
    {
        assert(flags@.subrange(0, i + 1).drop_last() =~= flags@.subrange(0, i as int));
        if flags[i] {
            positions.push(i);
        }
        i = i + 1;
        assert(positions@ =~= flagged_positions(flags@.subrange(0, i as int)));
    }
    assert(flags@.subrange(0, i as int) =~= flags@);
    positions
}

/// The six entries of `positions` from `from` on.
fn first_six(positions: &Vec<usize>, from: usize) -> (six: [usize; 6])
    requires
        from + 6 <= positions.len(),
    ensures
        forall|i: int| 0 <= i < 6 ==> six@[i] == positions@[from + i],
{
    [
        positions[from],
        positions[from + 1],
        positions[from + 2],
        positions[from + 3],
        positions[from + 4],
        positions[from + 5],
    ]
}

/// The hexagon among the branches of a timeline, given for each branch
/// whether it is highly ordered: with at least six highly ordered
/// branches, its vertices are the first six of them and its centre is the
/// middle branch; otherwise there is none.
pub fn hexagonal_vertices(highly_ordered: &Vec<bool>) -> (hexagon: Option<(usize, [usize; 6])>)
    ensures
        hexagon is Some <==> flagged_positions(highly_ordered@).len() >= 6,
        hexagon matches Some((center, vertices)) ==> {
            &&& center == highly_ordered@.len() / 2
            &&& forall|i: int| 0 <= i < 6 ==> vertices@[i] == flagged_positions(highly_ordered@)[i]
        },
{
    proof {
        lemma_flagged_len(highly_ordered@);
    }
    if highly_ordered.len() < 6 {
        return None;
    }
    let positions = marked_positions(highly_ordered);
    if positions.len() >= 6 {
        let center = highly_ordered.len() / 2;
        let vertices = first_six(&positions, 0);
        Some((center, vertices))
    } else {
        None
    }
}

/// Two parallel hexagonal faces among the branches of a timeline, given
/// for each branch whether it is highly ordered: with at least twelve
/// highly ordered branches, the front face is the first six of them and
/// the back face the next six; otherwise there are none.
pub fn find_parallel_faces(highly_ordered: &Vec<bool>) -> (faces: Option<([usize; 6], [usize; 6])>)
    ensures
        faces is Some <==> flagged_positions(highly_ordered@).len() >= 12,
        faces matches Some((front, back)) ==> forall|i: int|
            0 <= i < 6 ==> {
                &&& front@[i] == flagged_positions(highly_ordered@)[i]
                &&& back@[i] == flagged_positions(highly_ordered@)[6 + i]
            },
{
    proof {
        lemma_flagged_len(highly_ordered@);
    }
    if highly_ordered.len() < 12 {
        return None;
    }
    let positions = marked_positions(highly_ordered);
    if positions.len() >= 12 {
        let front = first_six(&positions, 0);
        let back = first_six(&positions, 6);
        Some((front, back))
    } else {
        None
    }
}

/// Connects each vertex of the front face to the vertex of the back face
/// in the same place.
pub fn map_quantum_connections(front: &[usize; 6], back: &[usize; 6]) -> (edges: Vec<(usize, usize)>)
    ensures
        edges@.len() == 6,
        forall|i: int| 0 <= i < 6 ==> #[trigger] edges@[i] == (front@[i], back@[i]),
{
    let mut edges: Vec<(usize, usize)> = Vec::new();
    let mut i: usize = 0;
    while i < 6
        invariant
            i <= 6,
            edges@.len() == i,
            forall|k: int| 0 <= k < i ==> #[trigger] edges@[k] == (front@[k], back@[k]),
        decreases 6 - i,
    {
        edges.push((front[i], back[i]));
        i = i + 1;
    }
    edges
}

proof fn lemma_flagged_len(flags: Seq<bool>)
    ensures
        flagged_positions(flags).len() <= flags.len(),
    decreases flags.len(),
{
    if flags.len() > 0 {
        lemma_flagged_len(flags.drop_last());
    }
}


/// The simulation page to show after paging forwards or backwards: with
/// at least two simulations running the view flips between the first two
/// pages; otherwise it stays put.
pub open spec fn turned_page(current_page: nat, active_simulations: nat) -> nat {
    if active_simulations >= 2 {
        if current_page == 0 {
            1
        } else {
            0
        }
    } else {
        current_page
    }
}

/// `turned_page`, computed; paging forwards and backwards turn alike.
pub fn turn_page(current_page: usize, active_simulations: usize) -> (page: usize)
    ensures
        page == turned_page(current_page as nat, active_simulations as nat),
{
    if active_simulations >= 2 {
        if current_page == 0 {
            1
        } else {
            0
        }
    } else {
        current_page
    }
}

/// Paging forwards and then back returns to the page one started on,
/// whenever that is one of the first two pages or there are too few
/// simulations to page at all.
pub proof fn lemma_page_round_trip(current_page: nat, active_simulations: nat)
    requires
        current_page <= 1 || active_simulations < 2,
    ensures
        turned_page(turned_page(current_page, active_simulations), active_simulations) == current_page,
{
}

} // verus!
