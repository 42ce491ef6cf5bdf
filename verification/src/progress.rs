//! Progress of the plan search, shared with the thread that reports it.
use vstd::prelude::*;
use std::sync::atomic::{AtomicBool, AtomicU64, Ordering};
use std::time::Instant;

verus! {

#[verifier::external_type_specification]
#[verifier::external_body]
pub struct ExInstant(Instant);

/// `Instant::now`: the current time of the monotonic clock. Nothing is
/// stated of the value: it depends on when the call is made.
#[verifier::external_body]
fn now() -> Instant {
    Instant::now()
}

/// Width of the progress bar, in characters.
pub const PROGRESS_BAR_WIDTH: usize = 10;

/// The state of a running search: `completed` out of `total` evaluations,
/// whether it `finished`, and when it started.
pub struct ProgressTracker {
    pub total: u64,
    pub completed: AtomicU64,
    pub finished: AtomicBool,
    pub started_at: Instant,
}

impl ProgressTracker {
    /// A search of `total` evaluations starting now, with none completed.
    pub fn new(total: u64) -> (tracker: Self)
        ensures
            tracker.total == total,
    {
        Self {
            total,
            completed: AtomicU64::new(0),
            finished: AtomicBool::new(false),
            started_at: now(),
        }
    }
}

/// Counts one more completed evaluation.
pub(crate) fn count_completed(progress: &ProgressTracker) {
    progress.completed.fetch_add(1, Ordering::Relaxed);
}

/// The completed count that is shown, never above the total, and the count
/// still to do.
pub fn progress_counts(loaded: u64, total: u64) -> (counts: (u64, u64))
    ensures
        counts.0 == if loaded <= total { loaded } else { total },
        counts.1 == total - counts.0,
{
    let completed = if loaded <= total { loaded } else { total };
    let remaining = total - completed;
    (completed, remaining)
}

/// The bar of `filled` cells out of `PROGRESS_BAR_WIDTH`: `#` for a filled
/// cell, a space for an empty one.
pub open spec fn bar_text(filled: nat) -> Seq<char> {
    let full = if filled <= 10 { filled } else { 10 };
    Seq::new(full, |i: int| '#') + Seq::new((10 - full) as nat, |i: int| ' ')
}

/// The progress bar with `filled` cells filled, at most all of them.
pub fn progress_bar(filled: usize) -> (bar: String)
    ensures
        bar@ == bar_text(filled as nat),
{
    let full = if filled <= PROGRESS_BAR_WIDTH { filled } else { PROGRESS_BAR_WIDTH };
    let mut bar = String::new();
    let mut i: usize = 0;
    while i < PROGRESS_BAR_WIDTH
        invariant
            i <= 10,
            full <= 10,
            full == if filled <= 10 { filled } else { 10 },
            bar@ == Seq::new(i as nat, |k: int| if k < full { '#' } else { ' ' }),
        decreases 10 - i,
    {
        proof {
            reveal_strlit("#");
            reveal_strlit(" ");
        }
        if i < full {
            bar.append("#");
        } else {
            bar.append(" ");
        }
        assert(bar@ =~= Seq::new((i + 1) as nat, |k: int| if k < full { '#' } else { ' ' }));
        i = i + 1;
    }
    assert(bar@ =~= bar_text(filled as nat));
    bar
}

} // verus!
