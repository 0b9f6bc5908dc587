//! How much order a sequence of observed memory states shows: how many of
//! its windows of three or more states repeat elsewhere in it.

use vstd::prelude::*;

verus! {

/// The windows of length `w` starting at `i` and at `j` hold the same
/// states.
pub open spec fn windows_match(states: Seq<Option<bool>>, w: int, i: int, j: int) -> bool {
    states.subrange(i, i + w) == states.subrange(j, j + w)
}

/// Comparisons of the window at `i` with the windows at `i + 1 .. j_end`,
/// all of length `w`; only the matching ones where `matching_only`.
pub open spec fn row_count(states: Seq<Option<bool>>, w: int, i: int, j_end: int, matching_only: bool) -> nat
    decreases j_end - (i + 1),
{
    if j_end <= i + 1 {
        0
    } else {
        row_count(states, w, i, j_end - 1, matching_only) + (if !matching_only || windows_match(
            states,
            w,
            i,
            j_end - 1,
        ) {
            1nat
        } else {
            0nat
        })
    }
}

/// The last start at which a window of length `w` still fits.
pub open spec fn last_start(states: Seq<Option<bool>>, w: int) -> int {
    states.len() - w
}

/// Comparisons between windows of length `w` whose first start is below
/// `i_end`, each with every later window.
pub open spec fn block_count(states: Seq<Option<bool>>, w: int, i_end: int, matching_only: bool) -> nat
    decreases i_end,
{
    if i_end <= 0 {
        0
    } else {
        block_count(states, w, i_end - 1, matching_only) + row_count(
            states,
            w,
            i_end - 1,
            last_start(states, w) + 1,
            matching_only,
        )
    }
}

/// Comparisons between windows of each length from 3 up to below `w_end`.
pub open spec fn window_count(states: Seq<Option<bool>>, w_end: int, matching_only: bool) -> nat
    decreases w_end - 3,
{
    if w_end <= 3 {
        0
    } else {
        window_count(states, w_end - 1, matching_only) + block_count(
            states,
            w_end - 1,
            last_start(states, w_end - 1) + 1,
            matching_only,
        )
    }
}

/// Every pair of equally long windows of at least three states, compared.
pub open spec fn window_comparisons(states: Seq<Option<bool>>) -> nat {
    window_count(states, states.len() as int + 1, false)
}

/// The pairs of equally long windows of at least three states that match.
pub open spec fn stable_patterns(states: Seq<Option<bool>>) -> nat {
    window_count(states, states.len() as int + 1, true)
}

/// Two windows of length `w` match exactly when they agree at every one of
/// their `w` positions: states that differ anywhere, the last position
/// included, make the windows differ.
pub proof fn lemma_windows_match_pointwise(states: Seq<Option<bool>>, w: int, i: int, j: int)
    requires
        0 <= w,
        0 <= i,
        0 <= j,
        i + w <= states.len(),
        j + w <= states.len(),
    ensures
        windows_match(states, w, i, j) <==> forall|k: int|
            0 <= k < w ==> #[trigger] states.index(i + k) == states.index(j + k),
{
    if forall|k: int| 0 <= k < w ==> #[trigger] states.index(i + k) == states.index(j + k) {
        assert(states.subrange(i, i + w) =~= states.subrange(j, j + w)) by {
            assert forall|k: int| 0 <= k < w implies #[trigger] states.subrange(i, i + w)[k] == states.subrange(j, j + w)[k] by {
                assert(states.index(i + k) == states.index(j + k));
            }
        }
    }
    if windows_match(states, w, i, j) {
        assert forall|k: int| 0 <= k < w implies #[trigger] states.index(i + k) == states.index(j + k) by {
            assert(states.subrange(i, i + w)[k] == states.subrange(j, j + w)[k]);
        }
    }
}

proof fn lemma_row_compared(states: Seq<Option<bool>>, w: int, i: int, j_end: int)
    ensures
        row_count(states, w, i, j_end, false) == (if j_end > i + 1 {
            j_end - i - 1
        } else {
            0
        }),
    decreases j_end - (i + 1),
{
    if j_end > i + 1 {
        lemma_row_compared(states, w, i, j_end - 1);
    }
}

proof fn lemma_block_compared(states: Seq<Option<bool>>, w: int, a: int)
    requires
        0 <= a <= last_start(states, w) + 1,
    ensures
        2 * block_count(states, w, a, false) == 2 * a * last_start(states, w) - a * (a - 1),
    decreases a,
{
    if a > 0 {
        let full = last_start(states, w) + 1;
        lemma_block_compared(states, w, a - 1);
        lemma_row_compared(states, w, a - 1, full);
        let prev = block_count(states, w, a - 1, false) as int;
        let cur = block_count(states, w, a, false) as int;
        let ls = last_start(states, w);
        assert(cur == prev + (ls + 1 - a));
        assert(2 * cur == 2 * a * ls - a * (a - 1)) by (nonlinear_arith)
            requires
                cur == prev + (ls + 1 - a),
                2 * prev == 2 * (a - 1) * ls - (a - 1) * (a - 1 - 1),
        ;
    } else {
        assert(2 * a * last_start(states, w) - a * (a - 1) == 0) by (nonlinear_arith)
            requires
                a == 0,
        ;
    }
}

proof fn lemma_window_compared(states: Seq<Option<bool>>, w_end: int)
    requires
        3 <= w_end <= states.len() + 1,
    ensures
        ({
            let len = states.len() as int;
            let x = len - w_end + 2;
            6 * window_count(states, w_end, false) == (len - 1) * (len - 2) * (len - 3) - x * (x - 1) * (x
                - 2)
        }),
    decreases w_end - 3,
{
    let len = states.len() as int;
    if w_end > 3 {
        lemma_window_compared(states, w_end - 1);
        let full = last_start(states, w_end - 1) + 1;
        lemma_block_compared(states, w_end - 1, full);
        let x = len - w_end + 2;
        assert(full == x);
        assert((x + 1) * x * (x - 1) - x * (x - 1) * (x - 2) == 3 * (2 * full * (full - 1) - full * (full
            - 1))) by (nonlinear_arith)
            requires
                full == x,
        ;
    } else {
        assert(len - w_end + 2 == len - 1);
    }
}

/// Every pair of equally long windows of at least three states is
/// compared exactly once: `len` states give `(len-1)(len-2)(len-3)/6`
/// comparisons (windows of length `w` start at `len - w + 1` places, and
/// each start is compared with every later one).
pub proof fn lemma_comparisons_closed_form(states: Seq<Option<bool>>)
    ensures
        6 * window_comparisons(states) == (if states.len() >= 3 {
            (states.len() - 1) * (states.len() - 2) * (states.len() - 3)
        } else {
            0
        }),
{
    let len = states.len() as int;
    if len >= 2 {
        lemma_window_compared(states, len + 1);
        assert(1 * (1 - 1) * (1 - 2) == 0);
    }
}

proof fn lemma_row_monotonic(states: Seq<Option<bool>>, w: int, i: int, a: int, b: int, m: bool)
    requires
        a <= b,
    ensures
        row_count(states, w, i, a, m) <= row_count(states, w, i, b, m),
        row_count(states, w, i, a, true) <= row_count(states, w, i, a, false),
    decreases b - a,
{
    if a < b {
        lemma_row_monotonic(states, w, i, a, b - 1, m);
    } else {
        lemma_row_matching_le(states, w, i, a);
    }
}

proof fn lemma_row_matching_le(states: Seq<Option<bool>>, w: int, i: int, a: int)
    ensures
        row_count(states, w, i, a, true) <= row_count(states, w, i, a, false),
    decreases a - (i + 1),
{
    if a > i + 1 {
        lemma_row_matching_le(states, w, i, a - 1);
    }
}

proof fn lemma_block_monotonic(states: Seq<Option<bool>>, w: int, a: int, b: int, m: bool)
    requires
        a <= b,
    ensures
        block_count(states, w, a, m) <= block_count(states, w, b, m),
    decreases b - a,
{
    if a < b {
        lemma_block_monotonic(states, w, a, b - 1, m);
    }
}

proof fn lemma_block_matching_le(states: Seq<Option<bool>>, w: int, a: int)
    ensures
        block_count(states, w, a, true) <= block_count(states, w, a, false),
    decreases a,
{
    if a > 0 {
        lemma_block_matching_le(states, w, a - 1);
        lemma_row_matching_le(states, w, a - 1, last_start(states, w) + 1);
    }
}

proof fn lemma_window_monotonic(states: Seq<Option<bool>>, a: int, b: int, m: bool)
    requires
        a <= b,
    ensures
        window_count(states, a, m) <= window_count(states, b, m),
    decreases b - a,
{
    if a < b {
        lemma_window_monotonic(states, a, b - 1, m);
    }
}

/// No more windows can match than are compared, so the share of matching
/// comparisons never exceeds one.
pub proof fn lemma_stable_within_comparisons(states: Seq<Option<bool>>)
    ensures
        stable_patterns(states) <= window_comparisons(states),
{
    lemma_window_matching_le(states, states.len() as int + 1);
}

proof fn lemma_window_matching_le(states: Seq<Option<bool>>, a: int)
    ensures
        window_count(states, a, true) <= window_count(states, a, false),
    decreases a - 3,
{
    if a > 3 {
        lemma_window_matching_le(states, a - 1);
        lemma_block_matching_le(states, a - 1, last_start(states, a - 1) + 1);
    }
}

/// Whether two observed states are the same.
fn same_state(a: Option<bool>, b: Option<bool>) -> (same: bool)
    ensures
        same == (a == b),
{
    match (a, b) {
        (None, None) => true,
        (Some(x), Some(y)) => x == y,
        _ => false,
    }
}

/// Whether the windows of length `w` at `i` and at `j` hold the same
/// states.
fn windows_equal(states: &Vec<Option<bool>>, i: usize, j: usize, w: usize) -> (equal: bool)
    requires
        i + w <= states.len(),
        j + w <= states.len(),
    ensures
        equal == windows_match(states@, w as int, i as int, j as int),
{
    let mut k: usize = 0;
    while k < w
        invariant
            k <= w,
            i + w <= states.len(),
            j + w <= states.len(),
            states@.subrange(i as int, i + k) == states@.subrange(j as int, j + k),
        decreases w - k,
    {
        if !same_state(states[i + k], states[j + k]) {
            assert(states@.subrange(i as int, i + w)[k as int] != states@.subrange(j as int, j + w)[k as int]);
            return false;
        }
        assert(states@.subrange(i as int, i + k + 1) =~= states@.subrange(i as int, i + k).push(
            states@[i + k],
        ));
        assert(states@.subrange(j as int, j + k + 1) =~= states@.subrange(j as int, j + k).push(
            states@[j + k],
        ));
        k = k + 1;
    }
    true
}

/// Compares every pair of equally long windows of at least three states
/// (a window with every window that starts later) and counts how many
/// pairs match and how many were compared. Fewer than three states give
/// no comparisons.
pub fn order_counts(states: &Vec<Option<bool>>) -> (counts: (usize, usize))
    requires
        window_comparisons(states@) <= usize::MAX,
        states.len() < usize::MAX,
    ensures
        counts.0 == stable_patterns(states@),
        counts.1 == window_comparisons(states@),
        counts.0 <= counts.1,
{
    proof {
        lemma_stable_within_comparisons(states@);
    }
    let len = states.len();
    let ghost s = states@;
    if len < 3 {
        assert(window_count(s, len + 1, true) == 0);
        assert(window_count(s, len + 1, false) == 0);
        return (0, 0);
    }
    let mut stable: usize = 0;
    let mut total: usize = 0;
    let mut w: usize = 3;
    while w <= len
        invariant
            s == states@,
            len == s.len(),
            3 <= w <= len + 1,
            len < usize::MAX,
            stable == window_count(s, w as int, true),
            total == window_count(s, w as int, false),
            window_comparisons(s) <= usize::MAX,
        decreases len + 1 - w,
    {
        let mut i: usize = 0;
        while i <= len - w
            invariant
                s == states@,
                len == s.len(),
                3 <= w <= len,
                i <= len - w + 1,
                stable == window_count(s, w as int, true) + block_count(s, w as int, i as int, true),
                total == window_count(s, w as int, false) + block_count(s, w as int, i as int, false),
                window_comparisons(s) <= usize::MAX,
            decreases len - w + 1 - i,
        {
            let mut j: usize = i + 1;
            while j <= len - w
                invariant
                    s == states@,
                    len == s.len(),
                    3 <= w <= len,
                    i <= len - w,
                    i + 1 <= j <= len - w + 1,
                    stable == window_count(s, w as int, true) + block_count(s, w as int, i as int, true)
                        + row_count(s, w as int, i as int, j as int, true),
                    total == window_count(s, w as int, false) + block_count(s, w as int, i as int, false)
                        + row_count(s, w as int, i as int, j as int, false),
                    window_comparisons(s) <= usize::MAX,
                decreases len - w + 1 - j,
            {
                proof {
                    let full = last_start(s, w as int) + 1;
                    lemma_row_monotonic(s, w as int, i as int, j as int + 1, full, false);
                    lemma_row_monotonic(s, w as int, i as int, j as int + 1, full, true);
                    lemma_block_monotonic(s, w as int, i as int + 1, full, false);
                    lemma_window_monotonic(s, w as int + 1, s.len() as int + 1, false);
                    lemma_row_matching_le(s, w as int, i as int, j as int + 1);
                    lemma_block_matching_le(s, w as int, i as int);
                    lemma_window_matching_le(s, w as int);
                    assert(window_count(s, w as int + 1, false) == window_count(s, w as int, false)
                        + block_count(s, w as int, full, false));
                }
                total = total + 1;
                if windows_equal(states, i, j, w) {
                    stable = stable + 1;
                }
                j = j + 1;
            }
            i = i + 1;
        }
        w = w + 1;
    }
    (stable, total)
}

} // verus!
