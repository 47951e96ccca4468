//! What one completion sweep does: which settled entries leave the ledger,
//! which (sequence, outcome) pairs become reportable, and which reference
//! index entries of failed invocations are finally removed.

use vstd::prelude::*;

use crate::history::{ids, RefStatus};
use crate::invocation::{is_failed, Invocation, Outcome, Ref};

verus! {

/// The results a completion sweep of the half-open range `[lo, hi)` reports:
/// one pair per live entry whose outcome is not a failure, in sequence order.
/// Failed entries were already reported when the failure was propagated.
pub open spec fn report_range(m: Map<u64, Invocation>, lo: u64, hi: u64) -> Seq<(u64, Outcome)>
    decreases hi - lo,
{
    if lo >= hi {
        Seq::empty()
    } else {
        let rest = report_range(m, (lo + 1) as u64, hi);
        if m.contains_key(lo) && !is_failed(m[lo].result) {
            seq![(lo, m[lo].result)] + rest
        } else {
            rest
        }
    }
}

/// The ledger after every entry in `[lo, hi)` has been purged.
pub open spec fn remove_range(m: Map<u64, Invocation>, lo: u64, hi: u64) -> Map<u64, Invocation>
    decreases hi - lo,
{
    if lo >= hi {
        m
    } else {
        remove_range(m, lo, (hi - 1) as u64).remove((hi - 1) as u64)
    }
}

/// The reference index after the defining references `ds` of purged, failed
/// invocation `s` have been swept: an entry still pending on `s` itself is
/// removed, unless the reference is in the deletion-pending set `marked`,
/// in which case the next explicit deletion pass handles it.
pub open spec fn purge_defs(
    refs: Map<u64, RefStatus>,
    s: u64,
    ds: Seq<Ref>,
    marked: Set<u64>,
) -> Map<u64, RefStatus>
    decreases ds.len(),
{
    if ds.len() == 0 {
        refs
    } else {
        let pm = purge_defs(refs, s, ds.drop_last(), marked);
        if pm.contains_key(ds.last().id) && pm[ds.last().id] == RefStatus::Invoked(s)
            && !marked.contains(ds.last().id) {
            pm.remove(ds.last().id)
        } else {
            pm
        }
    }
}

/// The reference index after a completion sweep of `[lo, hi)` over ledger
/// `m`: the defining references of every live, failed entry in the range are
/// swept with [`purge_defs`].
pub open spec fn purge_refs(
    m: Map<u64, Invocation>,
    refs: Map<u64, RefStatus>,
    marked: Set<u64>,
    lo: u64,
    hi: u64,
) -> Map<u64, RefStatus>
    decreases hi - lo,
{
    if lo >= hi {
        refs
    } else {
        let h = (hi - 1) as u64;
        let pm = purge_refs(m, refs, marked, lo, h);
        if m.contains_key(h) && is_failed(m[h].result) {
            purge_defs(pm, h, m[h].defs@, marked)
        } else {
            pm
        }
    }
}

/// Whether a completion sweep of `[lo, hi)` removes the index entry of
/// reference `r`: some live, failed entry in the range defines `r`, the
/// index still records `r` as pending on that very entry, and `r` is not in
/// the deletion-pending set.
pub open spec fn purged_ref(
    m: Map<u64, Invocation>,
    refs: Map<u64, RefStatus>,
    marked: Set<u64>,
    lo: u64,
    hi: u64,
    r: u64,
) -> bool {
    exists|s: u64|
        lo <= s < hi && #[trigger] m.contains_key(s) && is_failed(m[s].result) && ids(
            m[s].defs@,
        ).contains(r) && refs.contains_key(r) && refs[r] == RefStatus::Invoked(s)
            && !marked.contains(r)
}

pub proof fn lemma_remove_range_at(m: Map<u64, Invocation>, lo: u64, hi: u64, s: u64)
    ensures
        remove_range(m, lo, hi).contains_key(s) <==> (m.contains_key(s) && !(lo <= s < hi)),
        remove_range(m, lo, hi).contains_key(s) ==> remove_range(m, lo, hi)[s] == m[s],
    decreases hi - lo,
{
    if lo < hi {
        lemma_remove_range_at(m, lo, (hi - 1) as u64, s);
    }
}

/// What sweeping the defs `ds` of failed invocation `s` does to the index
/// entry of one reference `r`.
pub proof fn lemma_purge_defs_at(
    refs: Map<u64, RefStatus>,
    s: u64,
    ds: Seq<Ref>,
    marked: Set<u64>,
    r: u64,
)
    ensures
        (refs.contains_key(r) && refs[r] == RefStatus::Invoked(s) && ids(ds).contains(r)
            && !marked.contains(r)) ==> !purge_defs(refs, s, ds, marked).contains_key(r),
        !(refs.contains_key(r) && refs[r] == RefStatus::Invoked(s) && ids(ds).contains(r)
            && !marked.contains(r)) ==> (purge_defs(refs, s, ds, marked).contains_key(r)
            <==> refs.contains_key(r)) && (refs.contains_key(r) ==> purge_defs(
            refs,
            s,
            ds,
            marked,
        )[r] == refs[r]),
    decreases ds.len(),
{
    if ds.len() > 0 {
        let prev = ds.drop_last();
        let last = ds.last().id;
        lemma_purge_defs_at(refs, s, prev, marked, r);
        let pm = purge_defs(refs, s, prev, marked);
        assert(ids(ds).contains(r) <==> ids(prev).contains(r) || r == last) by {
            if ids(ds).contains(r) {
                let j = choose|j: int| 0 <= j < ids(ds).len() && ids(ds)[j] == r;
                if j < ds.len() - 1 {
                    assert(prev[j] == ds[j]);
                    assert(ids(prev)[j] == r);
                }
            }
            if ids(prev).contains(r) {
                let j = choose|j: int| 0 <= j < ids(prev).len() && ids(prev)[j] == r;
                assert(ds[j] == prev[j]);
                assert(ids(ds)[j] == r);
            }
            if r == last {
                assert(ids(ds)[ds.len() - 1] == r);
            }
        }
    }
}

/// What one completion sweep of `[lo, hi)` does to the index entry of one
/// reference `r`.
pub proof fn lemma_purge_refs_at(
    m: Map<u64, Invocation>,
    refs: Map<u64, RefStatus>,
    marked: Set<u64>,
    lo: u64,
    hi: u64,
    r: u64,
)
    ensures
        purged_ref(m, refs, marked, lo, hi, r) ==> !purge_refs(m, refs, marked, lo, hi).contains_key(
            r,
        ),
        !purged_ref(m, refs, marked, lo, hi, r) ==> (purge_refs(
            m,
            refs,
            marked,
            lo,
            hi,
        ).contains_key(r) <==> refs.contains_key(r)) && (refs.contains_key(r) ==> purge_refs(
            m,
            refs,
            marked,
            lo,
            hi,
        )[r] == refs[r]),
    decreases hi - lo,
{
    if lo < hi {
        let h = (hi - 1) as u64;
        lemma_purge_refs_at(m, refs, marked, lo, h, r);
        let pm = purge_refs(m, refs, marked, lo, h);
        assert(purged_ref(m, refs, marked, lo, h, r) ==> purged_ref(m, refs, marked, lo, hi, r))
            by {
            if purged_ref(m, refs, marked, lo, h, r) {
                let s = choose|s: u64|
                    lo <= s < h && #[trigger] m.contains_key(s) && is_failed(m[s].result) && ids(
                        m[s].defs@,
                    ).contains(r) && refs.contains_key(r) && refs[r] == RefStatus::Invoked(s)
                        && !marked.contains(r);
                assert(lo <= s < hi && m.contains_key(s));
            }
        }
        if m.contains_key(h) && is_failed(m[h].result) {
            lemma_purge_defs_at(pm, h, m[h].defs@, marked, r);
            if purged_ref(m, refs, marked, lo, hi, r) {
                if purged_ref(m, refs, marked, lo, h, r) {
                    // already removed before this step, and a sweep never adds
                    assert(!pm.contains_key(r));
                } else {
                    // the witness can only be `h` itself
                    let s = choose|s: u64|
                        lo <= s < hi && #[trigger] m.contains_key(s) && is_failed(m[s].result)
                            && ids(m[s].defs@).contains(r) && refs.contains_key(r) && refs[r]
                            == RefStatus::Invoked(s) && !marked.contains(r);
                    assert(s == h) by {
                        if s != h {
                            assert(lo <= s < h && m.contains_key(s));
                            assert(purged_ref(m, refs, marked, lo, h, r));
                        }
                    }
                    assert(pm.contains_key(r) && pm[r] == RefStatus::Invoked(h));
                }
            } else {
                assert(!purged_ref(m, refs, marked, lo, h, r));
                if pm.contains_key(r) && pm[r] == RefStatus::Invoked(h) && ids(
                    m[h].defs@,
                ).contains(r) && !marked.contains(r) {
                    assert(refs.contains_key(r) && refs[r] == RefStatus::Invoked(h));
                    assert(lo <= h < hi && m.contains_key(h));
                    assert(purged_ref(m, refs, marked, lo, hi, r));
                    assert(false);
                }
            }
        } else {
            assert(purged_ref(m, refs, marked, lo, hi, r) ==> purged_ref(
                m,
                refs,
                marked,
                lo,
                h,
                r,
            )) by {
                if purged_ref(m, refs, marked, lo, hi, r) {
                    let s = choose|s: u64|
                        lo <= s < hi && #[trigger] m.contains_key(s) && is_failed(m[s].result)
                            && ids(m[s].defs@).contains(r) && refs.contains_key(r) && refs[r]
                            == RefStatus::Invoked(s) && !marked.contains(r);
                    assert(s != h);
                    assert(lo <= s < h && m.contains_key(s));
                }
            }
        }
    }
}

/// A sweep reports each live, non-failed sequence of the next range segment
/// exactly once, appended in order.
pub proof fn lemma_report_range_snoc(m: Map<u64, Invocation>, lo: u64, i: u64)
    requires
        lo <= i < u64::MAX,
    ensures
        report_range(m, lo, (i + 1) as u64) == report_range(m, lo, i) + (if m.contains_key(i)
            && !is_failed(m[i].result) {
            seq![(i, m[i].result)]
        } else {
            Seq::<(u64, Outcome)>::empty()
        }),
    decreases i - lo,
{
    let entry = if m.contains_key(i) && !is_failed(m[i].result) {
        seq![(i, m[i].result)]
    } else {
        Seq::<(u64, Outcome)>::empty()
    };
    if lo == i {
        assert(report_range(m, lo, lo) == Seq::<(u64, Outcome)>::empty());
        assert(report_range(m, (lo + 1) as u64, (i + 1) as u64) == Seq::<(u64, Outcome)>::empty());
        assert(report_range(m, lo, (i + 1) as u64) =~= report_range(m, lo, i) + entry);
    } else {
        lemma_report_range_snoc(m, (lo + 1) as u64, i);
        assert(report_range(m, lo, (i + 1) as u64) =~= report_range(m, lo, i) + entry);
    }
}

/// Every pair a sweep of `[lo, hi)` reports carries a sequence inside the
/// range whose entry was live and not failed, with its recorded outcome.
pub proof fn lemma_report_range_bounds(m: Map<u64, Invocation>, lo: u64, hi: u64)
    ensures
        forall|i: int|
            0 <= i < report_range(m, lo, hi).len() ==> {
                let pair = #[trigger] report_range(m, lo, hi)[i];
                &&& lo <= pair.0 < hi
                &&& m.contains_key(pair.0)
                &&& !is_failed(m[pair.0].result)
                &&& pair.1 == m[pair.0].result
            },
    decreases hi - lo,
{
    if lo < hi {
        lemma_report_range_bounds(m, (lo + 1) as u64, hi);
        let rest = report_range(m, (lo + 1) as u64, hi);
        if m.contains_key(lo) && !is_failed(m[lo].result) {
            assert forall|i: int| 0 <= i < report_range(m, lo, hi).len() implies {
                let pair = #[trigger] report_range(m, lo, hi)[i];
                &&& lo <= pair.0 < hi
                &&& m.contains_key(pair.0)
                &&& !is_failed(m[pair.0].result)
                &&& pair.1 == m[pair.0].result
            } by {
                if i > 0 {
                    assert(report_range(m, lo, hi)[i] == rest[i - 1]);
                }
            }
        }
    }
}

} // verus!
