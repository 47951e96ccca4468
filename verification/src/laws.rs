//! Global guarantees of the tracking engine, stated over the models that the
//! operations' contracts use.

use vstd::prelude::*;

use crate::history::History;
use crate::invocation::Invocation;
use crate::purge::{lemma_report_range_bounds, report_range};

verus! {

/// Monotonic purge safety: in a history where every live entry sits at or
/// above the global low-water-mark — which holds from construction on, and
/// which every operation preserves as long as submissions never fall below
/// the global minimum — a sequence strictly below the mark has no live ledger
/// entry, and no completion sweep whose range starts at or above the mark
/// (every later sweep does, since the mark never moves back under forward
/// per-rank marks) ever reports it again.
pub proof fn lemma_monotonic_purge_safety(h: History, s: u64, lo: u64, hi: u64)
    requires
        h.purged_below_min(),
        s < h.min_seq(),
        lo >= h.min_seq(),
    ensures
        !h.invs().contains_key(s),
        forall|i: int|
            0 <= i < report_range(h.invs(), lo, hi).len() ==> (#[trigger] report_range(
                h.invs(),
                lo,
                hi,
            )[i]).0 != s,
{
    lemma_report_range_bounds(h.invs(), lo, hi);
}

/// At-most-one success report: a successful or never-poisoned outcome is
/// reported only by a completion sweep, and the ranges of two sweeps that
/// follow the advancing global minimum — each starting where the one before
/// it ended, as `rank_completed` ensures — never overlap, so no sequence
/// number yields a success report twice across the lifetime of a history.
pub proof fn lemma_at_most_one_success_report(
    m1: Map<u64, Invocation>,
    m2: Map<u64, Invocation>,
    lo1: u64,
    hi1: u64,
    lo2: u64,
    hi2: u64,
)
    requires
        hi1 <= lo2,
    ensures
        forall|i: int, j: int|
            0 <= i < report_range(m1, lo1, hi1).len() && 0 <= j < report_range(
                m2,
                lo2,
                hi2,
            ).len() ==> (#[trigger] report_range(m1, lo1, hi1)[i]).0 != (#[trigger] report_range(
                m2,
                lo2,
                hi2,
            )[j]).0,
{
    lemma_report_range_bounds(m1, lo1, hi1);
    lemma_report_range_bounds(m2, lo2, hi2);
}

} // verus!
