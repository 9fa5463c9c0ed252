//! Lap-window detection.
//!
//! The reference driver's x-position sequence is summarised by its *jump
//! flags*: flag `i` is set when the magnitude of the difference between
//! samples `i + 1` and `i` reaches the change threshold.  A set flag marks
//! the *change index* `i + 1`, a transition between a stationary pit-lane
//! segment and on-track motion.  The detector turns the flags of a series of
//! `n` samples (`n - 1` flags) into the half-open window of samples that
//! represents the active lap: the leading segment is trimmed only when the
//! first change index lies at least `MIN_FLAT` samples in, and the trailing
//! segment only when at least `MIN_FLAT` samples follow the last change
//! index.

use vstd::prelude::*;

verus! {

/// Number of flat samples a leading or trailing segment must span before it
/// is trimmed away.
pub const MIN_FLAT: usize = 100;

/// Half-open range `[start, end)` of sample indices, shared by every
/// driver's series once the stationary segments are trimmed.
#[derive(Clone, Copy, Debug, PartialEq, Eq, Structural)]
pub struct Window {
    pub start: usize,
    pub end: usize,
}

impl Window {
    /// The window selects a non-empty range of a series of `n` samples.
    pub open spec fn wf(self, n: int) -> bool {
        0 <= self.start < self.end <= n
    }
}

/// Whether any jump flag is set.
pub open spec fn has_jump(jumps: Seq<bool>) -> bool {
    exists|i: int| 0 <= i < jumps.len() && jumps[i]
}

/// Position of the first set flag, or `jumps.len()` when none is set.
pub open spec fn first_flag(jumps: Seq<bool>) -> int
    decreases jumps.len(),
{
    if jumps.len() == 0 {
        0
    } else if jumps[0] {
        0
    } else {
        1 + first_flag(jumps.drop_first())
    }
}

/// Position of the last set flag, or `-1` when none is set.
pub open spec fn last_flag(jumps: Seq<bool>) -> int
    decreases jumps.len(),
{
    if jumps.len() == 0 {
        -1
    } else if jumps[jumps.len() - 1] {
        jumps.len() - 1
    } else {
        last_flag(jumps.drop_last())
    }
}

/// First change index of the series: one past the first set flag.
pub open spec fn first_change(jumps: Seq<bool>) -> int {
    first_flag(jumps) + 1
}

/// Last change index of the series: one past the last set flag.
pub open spec fn last_change(jumps: Seq<bool>) -> int {
    last_flag(jumps) + 1
}

/// Start of the window: the first change index when at least `MIN_FLAT`
/// flat samples precede it, else `0`.
pub open spec fn spec_window_start(jumps: Seq<bool>) -> int {
    if has_jump(jumps) && first_change(jumps) >= MIN_FLAT as int {
        first_change(jumps)
    } else {
        0
    }
}

/// End of the window: the last change index when at least `MIN_FLAT`
/// samples follow it, else the series length `jumps.len() + 1`.
pub open spec fn spec_window_end(jumps: Seq<bool>) -> int {
    let n = jumps.len() as int + 1;
    if has_jump(jumps) && n - last_change(jumps) >= MIN_FLAT as int {
        last_change(jumps)
    } else {
        n
    }
}

proof fn lemma_first_flag_at(jumps: Seq<bool>, i: int)
    requires
        0 <= i < jumps.len(),
        jumps[i],
        forall|j: int| 0 <= j < i ==> !jumps[j],
    ensures
        first_flag(jumps) == i,
    decreases i,
{
    if i == 0 {
    } else {
        lemma_first_flag_at(jumps.drop_first(), i - 1);
    }
}

proof fn lemma_last_flag_at(jumps: Seq<bool>, i: int)
    requires
        0 <= i < jumps.len(),
        jumps[i],
        forall|j: int| i < j < jumps.len() ==> !jumps[j],
    ensures
        last_flag(jumps) == i,
    decreases jumps.len(),
{
    if i == jumps.len() - 1 {
    } else {
        lemma_last_flag_at(jumps.drop_last(), i);
    }
}

proof fn lemma_no_flag(jumps: Seq<bool>)
    requires
        forall|j: int| 0 <= j < jumps.len() ==> !jumps[j],
    ensures
        first_flag(jumps) == jumps.len(),
        last_flag(jumps) == -1,
    decreases jumps.len(),
{
    if jumps.len() > 0 {
        lemma_no_flag(jumps.drop_first());
        lemma_no_flag(jumps.drop_last());
    }
}

proof fn lemma_first_flag_props(jumps: Seq<bool>)
    requires
        has_jump(jumps),
    ensures
        0 <= first_flag(jumps) < jumps.len(),
        jumps[first_flag(jumps)],
        forall|j: int| 0 <= j < first_flag(jumps) ==> !jumps[j],
    decreases jumps.len(),
{
    let i = choose|i: int| 0 <= i < jumps.len() && jumps[i];
    if jumps[0] {
    } else {
        assert(jumps.drop_first()[i - 1]);
        lemma_first_flag_props(jumps.drop_first());
        assert(jumps[first_flag(jumps)]);
        assert forall|j: int| 0 <= j < first_flag(jumps) implies !jumps[j] by {
            if j > 0 {
                assert(!jumps.drop_first()[j - 1]);
            }
        }
    }
}

proof fn lemma_last_flag_props(jumps: Seq<bool>)
    requires
        has_jump(jumps),
    ensures
        0 <= last_flag(jumps) < jumps.len(),
        jumps[last_flag(jumps)],
        forall|j: int| last_flag(jumps) < j < jumps.len() ==> !jumps[j],
    decreases jumps.len(),
{
    let i = choose|i: int| 0 <= i < jumps.len() && jumps[i];
    if jumps[jumps.len() - 1] {
    } else {
        assert(jumps.drop_last()[i]);
        lemma_last_flag_props(jumps.drop_last());
        assert(jumps[last_flag(jumps)]);
        assert forall|j: int| last_flag(jumps) < j < jumps.len() implies !jumps[j] by {
            if j < jumps.len() - 1 {
                assert(!jumps.drop_last()[j]);
            }
        }
    }
}

/// The first and last set flags are set flags, bound every other set flag,
/// and lie within the flag sequence.
pub proof fn lemma_flag_bounds(jumps: Seq<bool>)
    requires
        has_jump(jumps),
    ensures
        0 <= first_flag(jumps) <= last_flag(jumps) < jumps.len(),
        jumps[first_flag(jumps)],
        jumps[last_flag(jumps)],
        forall|j: int| 0 <= j < first_flag(jumps) ==> !jumps[j],
        forall|j: int| last_flag(jumps) < j < jumps.len() ==> !jumps[j],
{
    lemma_first_flag_props(jumps);
    lemma_last_flag_props(jumps);
}

/// Window containment law: the detected boundaries always satisfy
/// `0 <= start <= end <= n` for a series of `n == jumps.len() + 1` samples;
/// when no flag is set the window is the whole series; and the boundaries
/// can only coincide when a single change index is trimmed from both sides.
pub proof fn lemma_window_containment(jumps: Seq<bool>)
    ensures
        0 <= spec_window_start(jumps),
        spec_window_start(jumps) <= spec_window_end(jumps),
        spec_window_end(jumps) <= jumps.len() + 1,
        !has_jump(jumps) ==> spec_window_start(jumps) == 0 && spec_window_end(jumps) == jumps.len()
            + 1,
        spec_window_start(jumps) == spec_window_end(jumps) ==> has_jump(jumps) && first_flag(jumps)
            == last_flag(jumps),
{
    if has_jump(jumps) {
        lemma_flag_bounds(jumps);
    }
}

/// Lap-window detector over the jump flags of a series of
/// `jumps.len() + 1` samples.
pub fn detect_window(jumps: &Vec<bool>) -> (w: Window)
    requires
        jumps@.len() >= 1,
        jumps@.len() < usize::MAX,
    ensures
        w.start == spec_window_start(jumps@),
        w.end == spec_window_end(jumps@),
{
    let n: usize = jumps.len() + 1;
    let mut first: usize = jumps.len();
    let mut last: usize = jumps.len();
    let mut k: usize = 0;
    while k < jumps.len()
        invariant
            k <= jumps@.len(),
            first <= jumps@.len(),
            last <= jumps@.len(),
            first == jumps@.len() ==> last == jumps@.len() && forall|j: int|
                0 <= j < k ==> !jumps@[j],
            first < jumps@.len() ==> {
                &&& first <= last < k
                &&& jumps@[first as int]
                &&& jumps@[last as int]
                &&& forall|j: int| 0 <= j < first ==> !jumps@[j]
                &&& forall|j: int| last < j < k ==> !jumps@[j]
            },
        decreases jumps@.len() - k,
    {
        if jumps[k] {
            if first == jumps.len() {
                first = k;
            }
            last = k;
        }
        k += 1;
    }
    if first == jumps.len() {
        proof {
            lemma_no_flag(jumps@);
            assert(!has_jump(jumps@));
        }
        Window { start: 0, end: n }
    } else {
        proof {
            assert(has_jump(jumps@));
            lemma_first_flag_at(jumps@, first as int);
            lemma_last_flag_at(jumps@, last as int);
        }
        let c_first = first + 1;
        let c_last = last + 1;
        let start = if c_first >= MIN_FLAT {
            c_first
        } else {
            0
        };
        let end = if n - c_last >= MIN_FLAT {
            c_last
        } else {
            n
        };
        Window { start, end }
    }
}

} // verus!
