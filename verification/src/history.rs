//! The history of invocations sent by the client to be executed on the
//! workers: tracks dependencies between invocations, propagates failures to
//! transitive dependents, and purges settled entries once every rank has
//! moved past them.

use std::collections::HashMap;
use vstd::prelude::*;

use crate::invocation::{is_failed, outcome_after_value, Exception, Invocation, Outcome, Ref, Value};
use crate::min_tracker::MinVector;
use crate::purge::{
    lemma_purge_refs_at, lemma_remove_range_at, lemma_report_range_snoc, purge_defs, purge_refs,
    purged_ref, remove_range, report_range,
};
use crate::invocation::{clone_outcome, outcome_after_exception};
use crate::reach::{
    enqueued_from, lemma_drop_last_contains, lemma_enqueued_live_reachable, lemma_push_contains,
    reachable,
};

verus! {

broadcast use vstd::std_specs::hash::group_hash_axioms;

/// Status of the invocation that currently defines a reference.
#[derive(Debug)]
pub enum RefStatus {
    /// The defining invocation is still in progress.
    Invoked(u64),
    /// The defining invocation has failed with this cause.
    Errored(Exception),
}

/// The identifiers named by a list of reference handles, in order.
pub open spec fn ids(rs: Seq<Ref>) -> Seq<u64> {
    rs.map_values(|r: Ref| r.id)
}

/// The cause carried by the first reference in `uses` whose status records a
/// failure, if any: the only failing dependency that poisons a new
/// invocation at submission time.
pub open spec fn first_poison(refs: Map<u64, RefStatus>, uses: Seq<u64>) -> Option<Exception>
    decreases uses.len(),
{
    if uses.len() == 0 {
        None
    } else if refs.contains_key(uses[0]) && refs[uses[0]] matches RefStatus::Errored(_) {
        match refs[uses[0]] {
            RefStatus::Errored(e) => Some(e),
            RefStatus::Invoked(_) => None,
        }
    } else {
        first_poison(refs, uses.drop_first())
    }
}

/// Whether some reference in `uses` is currently defined, still pending, by
/// invocation `s`.
pub open spec fn uses_pending_on(refs: Map<u64, RefStatus>, uses: Seq<u64>, s: u64) -> bool {
    exists|j: int|
        0 <= j < uses.len() && refs.contains_key(uses[j]) && refs[uses[j]] == RefStatus::Invoked(s)
}

/// Whether one of the first `n` references in `uses` is currently defined,
/// still pending, by invocation `s`.
pub open spec fn pending_before(refs: Map<u64, RefStatus>, uses: Seq<u64>, n: int, s: u64) -> bool {
    exists|j: int|
        0 <= j < n && refs.contains_key(uses[j]) && refs[uses[j]] == RefStatus::Invoked(s)
}

/// Whether the index knows reference `id` to be defined by a failed
/// invocation.
pub open spec fn errored_at(refs: Map<u64, RefStatus>, id: u64) -> bool {
    refs.contains_key(id) && refs[id] matches RefStatus::Errored(_)
}

/// Whether failure propagation starting at `start` rewrites the status of
/// reference `r`: the index still records `r` as pending on an invocation
/// that the failure reaches. A reference since redefined by an unreached
/// invocation is left alone.
pub open spec fn ref_hit(
    m: Map<u64, Invocation>,
    refs: Map<u64, RefStatus>,
    start: u64,
    r: u64,
) -> bool {
    exists|s: u64|
        #[trigger] reachable(m, start, s) && ids(m[s].defs@).contains(r) && refs.contains_key(r)
            && refs[r] == RefStatus::Invoked(s)
}

/// Whether one of the invocations visited so far (listed in `vs`) defines
/// reference `r` while the index still records `r` as pending on it.
pub open spec fn hit_so_far(
    m0: Map<u64, Invocation>,
    refs0: Map<u64, RefStatus>,
    vs: Seq<u64>,
    r: u64,
) -> bool {
    exists|s: u64|
        #[trigger] vs.contains(s) && m0.contains_key(s) && ids(m0[s].defs@).contains(r)
            && refs0.contains_key(r) && refs0[r] == RefStatus::Invoked(s)
}

/// The walk's contract on the reference index, relative to the invocations
/// visited so far: every reference hit by a visited invocation records the
/// failure cause, and every other reference is untouched.
pub open spec fn refs_marked_so_far(
    m0: Map<u64, Invocation>,
    refs0: Map<u64, RefStatus>,
    vs: Seq<u64>,
    cur: Map<u64, RefStatus>,
    e: Exception,
) -> bool {
    &&& (forall|r: u64|
        hit_so_far(m0, refs0, vs, r) ==> (#[trigger] cur.contains_key(r)) && cur[r]
            == RefStatus::Errored(e))
    &&& (forall|r: u64|
        !hit_so_far(m0, refs0, vs, r) ==> ((#[trigger] cur.contains_key(r))
            <==> refs0.contains_key(r)) && (refs0.contains_key(r) ==> cur[r] == refs0[r]))
}

/// The reference index after the defining references `ds` of failing
/// invocation `s` have been walked: every entry still pending on `s` itself
/// is overwritten with the failure cause.
pub open spec fn mark_defs(
    refs: Map<u64, RefStatus>,
    s: u64,
    ds: Seq<Ref>,
    e: Exception,
) -> Map<u64, RefStatus>
    decreases ds.len(),
{
    if ds.len() == 0 {
        refs
    } else {
        let pm = mark_defs(refs, s, ds.drop_last(), e);
        if pm.contains_key(ds.last().id) && pm[ds.last().id] == RefStatus::Invoked(s) {
            pm.insert(ds.last().id, RefStatus::Errored(e))
        } else {
            pm
        }
    }
}

/// What walking the defs `ds` of failing invocation `s` does to the index
/// entry of one reference `r`.
proof fn lemma_mark_defs_at(refs: Map<u64, RefStatus>, s: u64, ds: Seq<Ref>, e: Exception, r: u64)
    ensures
        (refs.contains_key(r) && refs[r] == RefStatus::Invoked(s) && ids(ds).contains(r)) ==> (
        mark_defs(refs, s, ds, e).contains_key(r) && mark_defs(refs, s, ds, e)[r]
            == RefStatus::Errored(e)),
        !(refs.contains_key(r) && refs[r] == RefStatus::Invoked(s) && ids(ds).contains(r)) ==> (
        mark_defs(refs, s, ds, e).contains_key(r) <==> refs.contains_key(r)) && (
        refs.contains_key(r) ==> mark_defs(refs, s, ds, e)[r] == refs[r]),
    decreases ds.len(),
{
    if ds.len() > 0 {
        let prev = ds.drop_last();
        let last = ds.last().id;
        lemma_mark_defs_at(refs, s, prev, e, r);
        assert(ids(ds).contains(r) <==> ids(prev).contains(r) || r == last) by {
            if ids(ds).contains(r) {
                let j = choose|j: int| 0 <= j < ids(ds).len() && ids(ds)[j] == r;
                if j < ds.len() - 1 {
                    assert(prev[j] == ds[j]);
                    assert(ids(prev)[j] == r);
                }
            }
            if ids(prev).contains(r) {
                let j = choose|j: int| 0 <= j < ids(prev).len() && ids(prev)[j] == r;
                assert(ds[j] == prev[j]);
                assert(ids(ds)[j] == r);
            }
            if r == last {
                assert(ids(ds)[ds.len() - 1] == r);
            }
        }
    }
}

/// Whether a reference requested for release can be forgotten for good: its
/// definer is settled and purged (nothing later can look it up again, by
/// submission-order monotonicity), or its recorded failure is no longer
/// needed because the submitter itself declared the reference obsolete.
pub open spec fn droppable(refs: Map<u64, RefStatus>, min: u64, r: u64) -> bool {
    refs.contains_key(r) && match refs[r] {
        RefStatus::Invoked(s) => s < min,
        RefStatus::Errored(_) => true,
    }
}

/// The deletion-pending list after the identifiers of `rs` have been merged
/// into `base`, in order, without introducing duplicates.
pub open spec fn merge_ids(base: Seq<u64>, rs: Seq<Ref>) -> Seq<u64>
    decreases rs.len(),
{
    if rs.len() == 0 {
        base
    } else {
        let m = merge_ids(base, rs.drop_last());
        if m.contains(rs.last().id) {
            m
        } else {
            m.push(rs.last().id)
        }
    }
}

proof fn lemma_merge_ids_props(base: Seq<u64>, rs: Seq<Ref>)
    requires
        base.no_duplicates(),
    ensures
        merge_ids(base, rs).no_duplicates(),
        forall|r: u64|
            #[trigger] merge_ids(base, rs).contains(r) <==> base.contains(r) || ids(rs).contains(
                r,
            ),
    decreases rs.len(),
{
    if rs.len() > 0 {
        let prev = rs.drop_last();
        lemma_merge_ids_props(base, prev);
        let m = merge_ids(base, prev);
        let m2 = merge_ids(base, rs);
        assert forall|r: u64| #[trigger]
            m2.contains(r) <==> base.contains(r) || ids(rs).contains(r) by {
            assert(m2.contains(r) <==> m.contains(r) || r == rs.last().id) by {
                if m.contains(rs.last().id) {
                    if r == rs.last().id {
                        assert(m2.contains(r));
                    }
                } else {
                    assert(m2 == m.push(rs.last().id));
                    if m.contains(r) {
                        let j = choose|j: int| 0 <= j < m.len() && m[j] == r;
                        assert(m2[j] == r);
                    }
                    if r == rs.last().id {
                        assert(m2[m2.len() - 1] == r);
                    }
                    if m2.contains(r) {
                        let j = choose|j: int| 0 <= j < m2.len() && m2[j] == r;
                        if j < m.len() {
                            assert(m[j] == r);
                        }
                    }
                }
            }
            assert(ids(rs).contains(r) <==> ids(prev).contains(r) || r == rs.last().id) by {
                if ids(rs).contains(r) {
                    let j = choose|j: int| 0 <= j < ids(rs).len() && ids(rs)[j] == r;
                    if j < rs.len() - 1 {
                        assert(prev[j] == rs[j]);
                        assert(ids(prev)[j] == r);
                    }
                }
                if ids(prev).contains(r) {
                    let j = choose|j: int| 0 <= j < ids(prev).len() && ids(prev)[j] == r;
                    assert(rs[j] == prev[j]);
                    assert(ids(rs)[j] == r);
                }
                if r == rs.last().id {
                    assert(ids(rs)[rs.len() - 1] == r);
                }
            }
        }
        if !m.contains(rs.last().id) {
            assert(m2 == m.push(rs.last().id));
            assert(m2.no_duplicates()) by {
                assert forall|i: int, j: int|
                    0 <= i < m2.len() && 0 <= j < m2.len() && i != j implies m2[i] != m2[j] by {
                    if i < m.len() && j < m.len() {
                        assert(m2[i] == m[i] && m2[j] == m[j]);
                    } else if i < m.len() {
                        assert(m2[j] == rs.last().id && m2[i] == m[i]);
                        if m2[i] == m2[j] {
                            assert(m.contains(rs.last().id));
                        }
                    } else {
                        assert(m2[i] == rs.last().id && m2[j] == m[j]);
                        if m2[i] == m2[j] {
                            assert(m.contains(rs.last().id));
                        }
                    }
                }
            }
        }
    }
}

/// The reference index after a sweep of the deletion-pending references in
/// `w`: every droppable one is removed.
pub open spec fn sweep_refs(refs: Map<u64, RefStatus>, min: u64, w: Seq<u64>) -> Map<
    u64,
    RefStatus,
>
    decreases w.len(),
{
    if w.len() == 0 {
        refs
    } else {
        let m = sweep_refs(refs, min, w.drop_last());
        if droppable(refs, min, w.last()) {
            m.remove(w.last())
        } else {
            m
        }
    }
}

/// The deletion-pending references that a sweep of `w` retains, in order.
pub open spec fn sweep_kept(refs: Map<u64, RefStatus>, min: u64, w: Seq<u64>) -> Seq<u64>
    decreases w.len(),
{
    if w.len() == 0 {
        Seq::empty()
    } else {
        let k = sweep_kept(refs, min, w.drop_last());
        if droppable(refs, min, w.last()) {
            k
        } else {
            k.push(w.last())
        }
    }
}

/// What one sweep of the deletion-pending references in `w` does to the
/// status of reference `r` and to its membership in the retained list.
proof fn lemma_sweep_at(refs: Map<u64, RefStatus>, min: u64, w: Seq<u64>, r: u64)
    requires
        w.no_duplicates(),
    ensures
        w.contains(r) && droppable(refs, min, r) ==> !sweep_refs(refs, min, w).contains_key(r),
        !(w.contains(r) && droppable(refs, min, r)) ==> (sweep_refs(refs, min, w).contains_key(r)
            <==> refs.contains_key(r)) && (refs.contains_key(r) ==> sweep_refs(refs, min, w)[r]
            == refs[r]),
        sweep_kept(refs, min, w).contains(r) <==> w.contains(r) && !droppable(refs, min, r),
    decreases w.len(),
{
    if w.len() > 0 {
        let prev = w.drop_last();
        let last = w.last();
        assert(prev.no_duplicates()) by {
            assert(forall|i: int| 0 <= i < prev.len() ==> prev[i] == w[i]);
        }
        lemma_sweep_at(refs, min, prev, r);
        assert(w.contains(r) <==> prev.contains(r) || r == last) by {
            if w.contains(r) {
                let j = choose|j: int| 0 <= j < w.len() && w[j] == r;
                if j < w.len() - 1 {
                    assert(prev[j] == r);
                }
            }
            if prev.contains(r) {
                let j = choose|j: int| 0 <= j < prev.len() && prev[j] == r;
                assert(w[j] == r);
            }
            if r == last {
                assert(w[w.len() - 1] == r);
            }
        }
        assert(!prev.contains(last)) by {
            if prev.contains(last) {
                let j = choose|j: int| 0 <= j < prev.len() && prev[j] == last;
                assert(w[j] == w[w.len() - 1] && j != w.len() - 1);
            }
        }
        let m1 = sweep_refs(refs, min, prev);
        let k1 = sweep_kept(refs, min, prev);
        let k2 = sweep_kept(refs, min, w);
        if !droppable(refs, min, last) {
            assert(k2 == k1.push(last));
            assert(k2.contains(r) <==> k1.contains(r) || r == last) by {
                if k1.contains(r) {
                    let x = choose|x: int| 0 <= x < k1.len() && k1[x] == r;
                    assert(k2[x] == r);
                }
                if r == last {
                    assert(k2[k2.len() - 1] == r);
                }
                if k2.contains(r) {
                    let x = choose|x: int| 0 <= x < k2.len() && k2[x] == r;
                    if x < k1.len() {
                        assert(k1[x] == r);
                    }
                }
            }
        }
        if r == last {
            if droppable(refs, min, last) {
                assert(sweep_refs(refs, min, w) == m1.remove(last));
            }
        } else {
            if droppable(refs, min, last) {
                assert(sweep_refs(refs, min, w) == m1.remove(last));
                assert(m1.remove(last).contains_key(r) <==> m1.contains_key(r));
            }
        }
    }
}

/// A sweep keeps the retained list free of duplicates.
proof fn lemma_sweep_kept_nodup(refs: Map<u64, RefStatus>, min: u64, w: Seq<u64>)
    requires
        w.no_duplicates(),
    ensures
        sweep_kept(refs, min, w).no_duplicates(),
    decreases w.len(),
{
    if w.len() > 0 {
        let prev = w.drop_last();
        let last = w.last();
        assert(prev.no_duplicates()) by {
            assert(forall|i: int| 0 <= i < prev.len() ==> prev[i] == w[i]);
        }
        lemma_sweep_kept_nodup(refs, min, prev);
        let k1 = sweep_kept(refs, min, prev);
        let k2 = sweep_kept(refs, min, w);
        if !droppable(refs, min, last) {
            assert(k2 == k1.push(last));
            assert(!prev.contains(last)) by {
                if prev.contains(last) {
                    let j = choose|j: int| 0 <= j < prev.len() && prev[j] == last;
                    assert(w[j] == w[w.len() - 1] && j != w.len() - 1);
                }
            }
            assert(!k1.contains(last)) by {
                lemma_sweep_at(refs, min, prev, last);
            }
            assert(k2.no_duplicates()) by {
                assert forall|i: int, j: int|
                    0 <= i < k2.len() && 0 <= j < k2.len() && i != j implies k2[i] != k2[j] by {
                    if i < k1.len() && j < k1.len() {
                        assert(k2[i] == k1[i] && k2[j] == k1[j]);
                    } else if i < k1.len() {
                        assert(k2[i] == k1[i] && k2[j] == last);
                        if k2[i] == k2[j] {
                            assert(k1.contains(last));
                        }
                    } else {
                        assert(k2[i] == last && k2[j] == k1[j]);
                        if k2[i] == k2[j] {
                            assert(k1.contains(last));
                        }
                    }
                }
            }
        }
    }
}


/// Whether `x` occurs in `v`.
fn vec_contains(v: &Vec<u64>, x: u64) -> (r: bool)
    ensures
        r == v@.contains(x),
{
    let mut i: usize = 0;
    while i < v.len()
        invariant
            i <= v@.len(),
            forall|j: int| 0 <= j < i ==> v@[j] != x,
        decreases v@.len() - i,
    {
        if v[i] == x {
            return true;
        }
        i = i + 1;
    }
    false
}

/// The outcome a newly submitted invocation starts with: poisoned by the
/// first failing dependency, rewritten to name its own sequence number, or
/// absent.
pub open spec fn submit_outcome(seq: u64, p: Option<Exception>) -> Outcome {
    match p {
        Some(e) => Some(
            Err(Exception { origin_seq: seq, cause_seq: e.cause_seq, error: e.error }),
        ),
        None => None,
    }
}

/// The status a newly submitted invocation writes over each reference it
/// defines.
pub open spec fn submit_ref_status(seq: u64, p: Option<Exception>) -> RefStatus {
    match p {
        Some(e) => RefStatus::Errored(
            Exception { origin_seq: seq, cause_seq: e.cause_seq, error: e.error },
        ),
        None => RefStatus::Invoked(seq),
    }
}

/// The reference index after status `st` has been written over every
/// reference in `ds`, in order.
pub open spec fn insert_defs(refs: Map<u64, RefStatus>, ds: Seq<Ref>, st: RefStatus) -> Map<
    u64,
    RefStatus,
>
    decreases ds.len(),
{
    if ds.len() == 0 {
        refs
    } else {
        insert_defs(refs, ds.drop_last(), st).insert(ds.last().id, st)
    }
}

proof fn lemma_insert_defs_props(refs: Map<u64, RefStatus>, ds: Seq<Ref>, st: RefStatus)
    ensures
        forall|r: u64| #[trigger]
            ids(ds).contains(r) ==> insert_defs(refs, ds, st).contains_key(r) && insert_defs(
                refs,
                ds,
                st,
            )[r] == st,
        forall|r: u64|
            !(#[trigger] ids(ds).contains(r)) ==> (insert_defs(refs, ds, st).contains_key(r)
                <==> refs.contains_key(r)) && (refs.contains_key(r) ==> insert_defs(
                refs,
                ds,
                st,
            )[r] == refs[r]),
    decreases ds.len(),
{
    if ds.len() > 0 {
        let prev = ds.drop_last();
        lemma_insert_defs_props(refs, prev, st);
        let m1 = insert_defs(refs, prev, st);
        let m2 = insert_defs(refs, ds, st);
        assert(m2 == m1.insert(ds.last().id, st));
        assert forall|r: u64| #[trigger] ids(ds).contains(r) implies m2.contains_key(r) && m2[r]
            == st by {
            if r != ds.last().id {
                let j = choose|j: int| 0 <= j < ids(ds).len() && ids(ds)[j] == r;
                assert(ds[j].id == r);
                assert(j < ds.len() - 1);
                assert(prev[j] == ds[j]);
                assert(ids(prev)[j] == r);
                assert(ids(prev).contains(r));
            }
        }
        assert forall|r: u64| !(#[trigger] ids(ds).contains(r)) implies ((m2.contains_key(r)
            <==> refs.contains_key(r)) && (refs.contains_key(r) ==> m2[r] == refs[r])) by {
            assert(r != ds.last().id) by {
                if r == ds.last().id {
                    assert(ids(ds)[ds.len() - 1] == r);
                    assert(ids(ds).contains(r));
                }
            }
            assert(!ids(prev).contains(r)) by {
                if ids(prev).contains(r) {
                    let j = choose|j: int| 0 <= j < ids(prev).len() && ids(prev)[j] == r;
                    assert(ds[j] == prev[j]);
                    assert(ids(ds)[j] == r);
                    assert(ids(ds).contains(r));
                }
            }
        }
    }
}

proof fn lemma_first_poison_none(refs: Map<u64, RefStatus>, uses: Seq<u64>)
    requires
        forall|j: int| 0 <= j < uses.len() ==> !errored_at(refs, #[trigger] uses[j]),
    ensures
        first_poison(refs, uses) is None,
    decreases uses.len(),
{
    if uses.len() > 0 {
        assert(!errored_at(refs, uses[0]));
        assert(forall|j: int|
            0 <= j < uses.drop_first().len() ==> uses.drop_first()[j] == uses[j + 1]);
        lemma_first_poison_none(refs, uses.drop_first());
    }
}

proof fn lemma_first_poison_some(refs: Map<u64, RefStatus>, uses: Seq<u64>, j: int)
    requires
        0 <= j < uses.len(),
        errored_at(refs, uses[j]),
        forall|k: int| 0 <= k < j ==> !errored_at(refs, #[trigger] uses[k]),
    ensures
        first_poison(refs, uses) == (match refs[uses[j]] {
            RefStatus::Errored(e) => Some(e),
            RefStatus::Invoked(_) => None::<Exception>,
        }),
    decreases uses.len(),
{
    if j == 0 {
    } else {
        assert(!errored_at(refs, uses[0]));
        assert(forall|i: int|
            0 <= i < uses.drop_first().len() ==> uses.drop_first()[i] == uses[i + 1]);
        lemma_first_poison_some(refs, uses.drop_first(), j - 1);
    }
}

/// The history of invocations. Mutating operations return the (sequence,
/// outcome) pairs that have become reportable to the submitter.
#[derive(Debug)]
pub struct History {
    /// The first incomplete sequence number for each rank; its minimum bounds
    /// which entries can be purged.
    first_incomplete_seqs: MinVector,
    /// The minimum incomplete sequence number across all ranks.
    min_incomplete_seq: u64,
    /// Ledger: sequence number to invocation record.
    invocations: HashMap<u64, Invocation>,
    /// Reference index: reference identifier to the status of the invocation
    /// that currently defines it.
    invocation_for_ref: HashMap<u64, RefStatus>,
    /// References requested for release but not yet safe to forget.
    marked_for_deletion: Vec<u64>,
    /// No new sequence number may be below this bound.
    seq_lower_bound: u64,
}

impl History {
    /// The per-rank low-water-marks.
    pub closed spec fn marks(&self) -> Seq<u64> {
        self.first_incomplete_seqs@
    }

    /// The global low-water-mark: the minimum of all per-rank marks.
    pub closed spec fn min_seq(&self) -> u64 {
        self.min_incomplete_seq
    }

    /// The ledger of live invocation records.
    pub closed spec fn invs(&self) -> Map<u64, Invocation> {
        self.invocations@
    }

    /// The reference index.
    pub closed spec fn ref_index(&self) -> Map<u64, RefStatus> {
        self.invocation_for_ref@
    }

    /// The references requested for release and not yet forgotten.
    pub closed spec fn marked_set(&self) -> Set<u64> {
        self.marked_for_deletion@.to_set()
    }

    /// The lowest sequence number the next submission may carry.
    pub closed spec fn lower_bound(&self) -> u64 {
        self.seq_lower_bound
    }

    /// Structural well-formedness: the mark tracker's counts match its
    /// vector, the recorded global minimum is the minimum of the per-rank
    /// marks, and the deletion-pending list holds no duplicates. Established
    /// by construction and preserved by every operation.
    pub closed spec fn wf(&self) -> bool {
        &&& self.first_incomplete_seqs.wf()
        &&& (self.marks().len() == 0 ==> self.min_incomplete_seq == 0)
        &&& (self.marks().len() > 0 ==> self.marks().contains(self.min_incomplete_seq))
        &&& (forall|i: int|
            0 <= i < self.marks().len() ==> self.min_incomplete_seq <= self.marks()[i])
        &&& self.marked_for_deletion@.no_duplicates()
    }

    /// Every live ledger entry sits at or above the global low-water-mark.
    /// This holds throughout any run in which submissions never fall below
    /// the global minimum, which the submission protocol guarantees.
    pub open spec fn purged_below_min(&self) -> bool {
        forall|s: u64| s < self.min_seq() ==> !self.invs().contains_key(s)
    }

    /// A fresh history for `world_size` ranks, every mark at zero.
    pub fn new(world_size: usize) -> (r: Self)
        ensures
            r.wf(),
            r.marks() == Seq::new(world_size as nat, |i: int| 0u64),
            r.min_seq() == 0,
            r.invs() == Map::<u64, Invocation>::empty(),
            r.ref_index() == Map::<u64, RefStatus>::empty(),
            r.marked_set() == Set::<u64>::empty(),
            r.lower_bound() == 0,
            r.purged_below_min(),
    {
        let mut zeros: Vec<u64> = Vec::new();
        let mut i: usize = 0;
        while i < world_size
            invariant
                i <= world_size,
                zeros@ =~= Seq::new(i as nat, |j: int| 0u64),
            decreases world_size - i,
        {
            zeros.push(0);
            i = i + 1;
        }
        proof {
            assert(zeros@ =~= Seq::new(world_size as nat, |j: int| 0u64));
        }
        let first_incomplete_seqs = MinVector::new(zeros);
        let r = History {
            first_incomplete_seqs,
            min_incomplete_seq: 0,
            invocations: HashMap::new(),
            invocation_for_ref: HashMap::new(),
            marked_for_deletion: Vec::new(),
            seq_lower_bound: 0,
        };
        proof {
            assert(r.marked_set() =~= Set::<u64>::empty());
            if r.marks().len() > 0 {
                assert(r.marks()[0] == 0);
                assert(r.marks().contains(0u64));
            }
        }
        r
    }

    /// The per-rank low-water-marks, one entry per rank.
    pub fn first_incomplete_seqs(&self) -> (r: &Vec<u64>)
        ensures
            r@ == self.marks(),
    {
        self.first_incomplete_seqs.vec()
    }

    /// The lowest sequence number the next submission may carry: submissions
    /// arrive in non-decreasing order, and violating that is a caller bug.
    pub fn seq_lower_bound(&self) -> (r: u64)
        ensures
            r == self.lower_bound(),
    {
        self.seq_lower_bound
    }

    /// The live ledger record for `seq`, if any.
    pub fn get_invocation(&self, seq: u64) -> (r: Option<&Invocation>)
        ensures
            r is Some <==> self.invs().contains_key(seq),
            r matches Some(i) ==> *i == self.invs()[seq],
    {
        self.invocations.get(&seq)
    }

    /// How many references the reference index currently tracks.
    pub fn ref_index_len(&self) -> (r: usize)
        ensures
            r == self.ref_index().len(),
    {
        self.invocation_for_ref.len()
    }

    /// The current status of reference `r`, if the index tracks it.
    pub fn ref_status(&self, r: Ref) -> (s: Option<&RefStatus>)
        ensures
            s is Some <==> self.ref_index().contains_key(r.id),
            s matches Some(st) ==> *st == self.ref_index()[r.id],
    {
        self.invocation_for_ref.get(&r.id)
    }

    /// Record the successful value for `seq`: it fills an absent outcome and
    /// never displaces a recorded one, so a failure permanently wins over a
    /// late-arriving success. A sequence with no live entry is ignored.
    pub fn set_result(&mut self, seq: u64, result: Value)
        ensures
            final(self).wf() == old(self).wf(),
            final(self).marks() == old(self).marks(),
            final(self).min_seq() == old(self).min_seq(),
            final(self).ref_index() == old(self).ref_index(),
            final(self).marked_set() == old(self).marked_set(),
            final(self).lower_bound() == old(self).lower_bound(),
            old(self).invs().contains_key(seq) ==> final(self).invs() == old(self).invs().insert(
                seq,
                (Invocation {
                    seq: old(self).invs()[seq].seq,
                    defs: old(self).invs()[seq].defs,
                    result: outcome_after_value(old(self).invs()[seq].result, result),
                    users: old(self).invs()[seq].users,
                }),
            ),
            !old(self).invs().contains_key(seq) ==> final(self).invs() == old(self).invs(),
    {
        match self.invocations.remove(&seq) {
            Some(mut invocation) => {
                invocation.set_result(result);
                self.invocations.insert(seq, invocation);
                proof {
                    assert(self.invocations@ =~= old(self).invocations@.insert(
                        seq,
                        (Invocation {
                            seq: old(self).invs()[seq].seq,
                            defs: old(self).invs()[seq].defs,
                            result: outcome_after_value(old(self).invs()[seq].result, result),
                            users: old(self).invs()[seq].users,
                        }),
                    ));
                }
            },
            None => {
                proof {
                    assert(self.invocations@ =~= old(self).invocations@);
                }
            },
        }
    }

    /// Record `user` as a dependent of the live ledger entry for `s`; a
    /// sequence with no live entry was already settled and is ignored.
    fn add_user_to(&mut self, s: u64, user: u64)
        ensures
            final(self).first_incomplete_seqs == old(self).first_incomplete_seqs,
            final(self).min_incomplete_seq == old(self).min_incomplete_seq,
            final(self).invocation_for_ref == old(self).invocation_for_ref,
            final(self).marked_for_deletion == old(self).marked_for_deletion,
            final(self).seq_lower_bound == old(self).seq_lower_bound,
            final(self).invocations@.dom() == old(self).invocations@.dom(),
            forall|t: u64|
                t != s && old(self).invocations@.contains_key(t) ==> final(self).invocations@[t] == old(self).invocations@[t],
            old(self).invocations@.contains_key(s) ==> {
                let oldrec = old(self).invocations@[s];
                let newrec = final(self).invocations@[s];
                &&& newrec.seq == oldrec.seq
                &&& newrec.defs == oldrec.defs
                &&& newrec.result == oldrec.result
                &&& newrec.users@ == (if oldrec.users@.contains(user) {
                    oldrec.users@
                } else {
                    oldrec.users@.push(user)
                })
            },
    {
        match self.invocations.remove(&s) {
            Some(mut invocation) => {
                invocation.add_user(user);
                self.invocations.insert(s, invocation);
                proof {
                    assert(self.invocations@.dom() =~= old(self).invocations@.dom());
                }
            },
            None => {
                proof {
                    assert(self.invocations@ =~= old(self).invocations@);
                }
            },
        }
    }

    /// Add an invocation to the history.
    ///
    /// Resolves each reference in `uses`: a reference defined by a failed
    /// invocation poisons the new one with the first such cause, and that
    /// single result is staged for the caller; a reference whose definer is
    /// still pending gains the new invocation as a dependent; a reference the
    /// index does not know was already settled and purged and is ignored.
    /// Every reference in `defs` is then bound to the new invocation, failed
    /// or pending, and the record enters the ledger. Sequence numbers must
    /// arrive in non-decreasing order.
    pub fn add_invocation(&mut self, seq: u64, uses: Vec<Ref>, defs: Vec<Ref>) -> (res: Vec<
        (u64, Outcome),
    >)
        requires
            old(self).wf(),
            seq >= old(self).lower_bound(),
        ensures
            final(self).wf(),
            final(self).marks() == old(self).marks(),
            final(self).min_seq() == old(self).min_seq(),
            final(self).marked_set() == old(self).marked_set(),
            final(self).lower_bound() == seq,
            final(self).invs().dom() == old(self).invs().dom().insert(seq),
            final(self).invs()[seq].seq == seq,
            final(self).invs()[seq].defs == defs,
            final(self).invs()[seq].result == submit_outcome(
                seq,
                first_poison(old(self).ref_index(), ids(uses@)),
            ),
            final(self).invs()[seq].users@ == Seq::<u64>::empty(),
            forall|s: u64|
                s != seq && old(self).invs().contains_key(s) ==> final(self).invs().contains_key(s)
                    && (final(self).invs()[s].seq == old(self).invs()[s].seq) && (final(self).invs()[s].defs == old(self).invs()[s].defs) && (final(self).invs()[s].result
                    == old(self).invs()[s].result) && (final(self).invs()[s].users@ == (
                if uses_pending_on(old(self).ref_index(), ids(uses@), s) && !old(self).invs()[s].users@.contains(seq) {
                    old(self).invs()[s].users@.push(seq)
                } else {
                    old(self).invs()[s].users@
                })),
            forall|r: u64| #[trigger]
                ids(defs@).contains(r) ==> final(self).ref_index().contains_key(r) && final(self).ref_index()[r] == submit_ref_status(
                    seq,
                    first_poison(old(self).ref_index(), ids(uses@)),
                ),
            forall|r: u64|
                !(#[trigger] ids(defs@).contains(r)) ==> (final(self).ref_index().contains_key(r)
                    <==> old(self).ref_index().contains_key(r)) && (old(self).ref_index().contains_key(r) ==> final(self).ref_index()[r] == old(self).ref_index()[r]),
            (match first_poison(old(self).ref_index(), ids(uses@)) {
                Some(e) => res@.len() == 1 && res@[0].0 == seq && res@[0].1 == Some(
                    Err::<Value, Exception>(e),
                ),
                None => res@.len() == 0,
            }),
            old(self).purged_below_min() && seq >= old(self).min_seq() ==> final(self).purged_below_min(),
    {
        let ghost refs0 = self.invocation_for_ref@;
        let ghost invs0 = self.invocations@;
        let ghost u = ids(uses@);
        let mut results: Vec<(u64, Outcome)> = Vec::new();
        self.seq_lower_bound = seq;

        let mut poison: Option<Exception> = None;
        let mut i: usize = 0;
        while i < uses.len()
            invariant
                i <= uses@.len(),
                u == ids(uses@),
                self.first_incomplete_seqs == old(self).first_incomplete_seqs,
                self.min_incomplete_seq == old(self).min_incomplete_seq,
                self.invocation_for_ref == old(self).invocation_for_ref,
                self.invocation_for_ref@ == refs0,
                self.marked_for_deletion == old(self).marked_for_deletion,
                self.seq_lower_bound == seq,
                invs0 == old(self).invocations@,
                self.invocations@.dom() == invs0.dom(),
                forall|s: u64|
                    invs0.contains_key(s) ==> #[trigger] self.invocations@.contains_key(s) && (
                    self.invocations@[s].seq == invs0[s].seq) && (self.invocations@[s].defs
                        == invs0[s].defs) && (self.invocations@[s].result == invs0[s].result) && (
                    self.invocations@[s].users@ == (if pending_before(refs0, u, i as int, s)
                        && !invs0[s].users@.contains(seq) {
                        invs0[s].users@.push(seq)
                    } else {
                        invs0[s].users@
                    })),
                (match poison {
                    None => results@.len() == 0 && (forall|j: int|
                        0 <= j < i ==> !errored_at(refs0, #[trigger] u[j])),
                    Some(e) => results@.len() == 1 && results@[0].0 == seq && results@[0].1
                        == Some(Err::<Value, Exception>(e)) && exists|j: int|
                        0 <= j < i && #[trigger] errored_at(refs0, u[j]) && refs0[u[j]]
                            == RefStatus::Errored(e) && (forall|k: int|
                            0 <= k < j ==> !errored_at(refs0, #[trigger] u[k])),
                }),
            decreases uses@.len() - i,
        {
            let id = uses[i].id;
            proof {
                assert(u[i as int] == uses@[i as int].id);
            }
            let ghost pre = self.invocations@;
            let mut pending_target: Option<u64> = None;
            match self.invocation_for_ref.get(&id) {
                Some(RefStatus::Errored(exception)) => {
                    if poison.is_none() {
                        let e = exception.clone();
                        poison = Some(e.clone());
                        results.push((seq, Some(Err(e))));
                        proof {
                            assert(errored_at(refs0, u[i as int]));
                        }
                    }
                },
                Some(RefStatus::Invoked(invoked_seq)) => {
                    pending_target = Some(*invoked_seq);
                },
                None => {},
            }
            match pending_target {
                Some(starget) => {
                    self.add_user_to(starget, seq);
                    proof {
                        assert(refs0.contains_key(u[i as int]) && refs0[u[i as int]]
                            == RefStatus::Invoked(starget));
                        assert forall|s: u64| invs0.contains_key(s) implies #[trigger] self.invocations@.contains_key(
                            s,
                        ) && (self.invocations@[s].seq == invs0[s].seq) && (
                        self.invocations@[s].defs == invs0[s].defs) && (
                        self.invocations@[s].result == invs0[s].result) && (
                        self.invocations@[s].users@ == (if pending_before(
                            refs0,
                            u,
                            i + 1,
                            s,
                        ) && !invs0[s].users@.contains(seq) {
                            invs0[s].users@.push(seq)
                        } else {
                            invs0[s].users@
                        })) by {
                            if s == starget {
                                assert(pending_before(refs0, u, i + 1, s));
                                if !invs0[s].users@.contains(seq) {
                                    if pending_before(refs0, u, i as int, s) {
                                        assert(pre[s].users@ == invs0[s].users@.push(seq));
                                        assert(pre[s].users@.contains(seq)) by {
                                            assert(pre[s].users@[pre[s].users@.len() - 1] == seq);
                                        }
                                    }
                                }
                            } else {
                                assert(pending_before(refs0, u, i + 1, s) == pending_before(
                                    refs0,
                                    u,
                                    i as int,
                                    s,
                                )) by {
                                    if pending_before(refs0, u, i + 1, s) {
                                        let j = choose|j: int|
                                            0 <= j < i + 1 && refs0.contains_key(u[j])
                                                && refs0[u[j]] == RefStatus::Invoked(s);
                                        assert(j != i as int);
                                        assert(pending_before(refs0, u, i as int, s));
                                    }
                                }
                            }
                        }
                    }
                },
                None => {
                    proof {
                        assert forall|s: u64|
                            invs0.contains_key(s) implies (pending_before(refs0, u, i + 1, s)
                            == pending_before(refs0, u, i as int, s)) by {
                            if pending_before(refs0, u, i + 1, s) {
                                let j = choose|j: int|
                                    0 <= j < i + 1 && refs0.contains_key(u[j]) && refs0[u[j]]
                                        == RefStatus::Invoked(s);
                                assert(j != i as int);
                                assert(pending_before(refs0, u, i as int, s));
                            }
                        }
                    }
                },
            }
            i = i + 1;
        }
        proof {
            assert(i as int == u.len());
            match &poison {
                None => {
                    lemma_first_poison_none(refs0, u);
                },
                Some(e) => {
                    let j = choose|j: int|
                        0 <= j < i && #[trigger] errored_at(refs0, u[j]) && refs0[u[j]]
                            == RefStatus::Errored(*e) && (forall|k: int|
                            0 <= k < j ==> !errored_at(refs0, #[trigger] u[k]));
                    lemma_first_poison_some(refs0, u, j);
                },
            }
        }
        let ghost p = first_poison(refs0, u);
        let ghost invs1 = self.invocations@;

        let mut k: usize = 0;
        while k < defs.len()
            invariant
                k <= defs@.len(),
                self.first_incomplete_seqs == old(self).first_incomplete_seqs,
                self.min_incomplete_seq == old(self).min_incomplete_seq,
                self.marked_for_deletion == old(self).marked_for_deletion,
                self.seq_lower_bound == seq,
                self.invocations@ == invs1,
                (match poison {
                    Some(e) => p == Some(e),
                    None => p is None,
                }),
                self.invocation_for_ref@ == insert_defs(
                    refs0,
                    defs@.take(k as int),
                    submit_ref_status(seq, p),
                ),
            decreases defs@.len() - k,
        {
            let status = match &poison {
                Some(e) => RefStatus::Errored(
                    Exception {
                        origin_seq: seq,
                        cause_seq: e.cause_seq,
                        error: e.error.clone(),
                    },
                ),
                None => RefStatus::Invoked(seq),
            };
            proof {
                assert(status == submit_ref_status(seq, p));
            }
            let id = defs[k].id;
            let ghost refs_pre = self.invocation_for_ref@;
            self.invocation_for_ref.insert(id, status);
            proof {
                assert(self.invocation_for_ref@ == refs_pre.insert(id, status));
                assert(defs@.take(k + 1).drop_last() =~= defs@.take(k as int));
                assert(defs@.take(k + 1).last() == defs@[k as int]);
                assert(self.invocation_for_ref@ == insert_defs(
                    refs0,
                    defs@.take(k + 1),
                    submit_ref_status(seq, p),
                ));
            }
            k = k + 1;
        }
        proof {
            assert(defs@.take(defs@.len() as int) =~= defs@);
            lemma_insert_defs_props(refs0, defs@, submit_ref_status(seq, p));
        }

        let result_field: Outcome = match poison {
            Some(e) => Some(
                Err(Exception { origin_seq: seq, cause_seq: e.cause_seq, error: e.error }),
            ),
            None => None,
        };
        proof {
            assert(result_field == submit_outcome(seq, p));
        }
        let invocation = Invocation { seq, defs, result: result_field, users: Vec::new() };
        self.invocations.insert(seq, invocation);
        proof {
            assert(self.invocations@.dom() =~= invs0.dom().insert(seq));
            assert(self.invocations@[seq].users@ =~= Seq::<u64>::empty());
            assert forall|s: u64|
                s != seq && invs0.contains_key(s) implies uses_pending_on(refs0, u, s)
                == pending_before(refs0, u, u.len() as int, s) by {
                if uses_pending_on(refs0, u, s) {
                    let j = choose|j: int|
                        0 <= j < u.len() && refs0.contains_key(u[j]) && refs0[u[j]]
                            == RefStatus::Invoked(s);
                    assert(pending_before(refs0, u, u.len() as int, s));
                }
                if pending_before(refs0, u, u.len() as int, s) {
                    let j = choose|j: int|
                        0 <= j < u.len() && refs0.contains_key(u[j]) && refs0[u[j]]
                            == RefStatus::Invoked(s);
                    assert(uses_pending_on(refs0, u, s));
                }
            }
            if old(self).purged_below_min() && seq >= old(self).min_seq() {
                assert forall|s: u64| s < self.min_seq() implies !self.invs().contains_key(
                    s,
                ) by {
                    assert(!invs0.contains_key(s));
                }
            }
        }
        results
    }

    /// Merge `refs` into the deletion-pending set, then forget every pending
    /// reference that is safe to forget: one still indexed as pending whose
    /// defining invocation is already purged behind the global minimum, or
    /// one whose status records a failure the submitter no longer needs.
    /// References whose definer is still live, and references the index does
    /// not know, stay pending for a later attempt.
    pub fn delete_invocations_for_refs(&mut self, refs: Vec<Ref>)
        requires
            old(self).wf(),
        ensures
            final(self).wf(),
            final(self).marks() == old(self).marks(),
            final(self).min_seq() == old(self).min_seq(),
            final(self).invs() == old(self).invs(),
            final(self).lower_bound() == old(self).lower_bound(),
            forall|r: u64|
                #[trigger] final(self).marked_set().contains(r) <==> ((old(self).marked_set().contains(r) || ids(refs@).contains(r)) && !droppable(
                    old(self).ref_index(),
                    old(self).min_seq(),
                    r,
                )),
            forall|r: u64|
                (old(self).marked_set().contains(r) || ids(refs@).contains(r)) && droppable(
                    old(self).ref_index(),
                    old(self).min_seq(),
                    r,
                ) ==> !(#[trigger] final(self).ref_index().contains_key(r)),
            forall|r: u64|
                !((old(self).marked_set().contains(r) || ids(refs@).contains(r)) && droppable(
                    old(self).ref_index(),
                    old(self).min_seq(),
                    r,
                )) ==> (#[trigger] final(self).ref_index().contains_key(r) <==> old(self).ref_index().contains_key(r)) && (old(self).ref_index().contains_key(r) ==> final(self).ref_index()[r] == old(self).ref_index()[r]),
    {
        let ghost marked0 = self.marked_for_deletion@;
        let ghost refs0 = self.invocation_for_ref@;
        let ghost minv = self.min_incomplete_seq;

        let mut i: usize = 0;
        while i < refs.len()
            invariant
                i <= refs@.len(),
                self.first_incomplete_seqs == old(self).first_incomplete_seqs,
                self.min_incomplete_seq == old(self).min_incomplete_seq,
                self.invocations == old(self).invocations,
                self.invocation_for_ref == old(self).invocation_for_ref,
                self.seq_lower_bound == old(self).seq_lower_bound,
                self.marked_for_deletion@ == merge_ids(marked0, refs@.take(i as int)),
            decreases refs@.len() - i,
        {
            let id = refs[i].id;
            let ghost m_pre = self.marked_for_deletion@;
            if !vec_contains(&self.marked_for_deletion, id) {
                self.marked_for_deletion.push(id);
            }
            proof {
                assert(refs@.take(i + 1).drop_last() =~= refs@.take(i as int));
                assert(refs@.take(i + 1).last() == refs@[i as int]);
                assert(self.marked_for_deletion@ == merge_ids(marked0, refs@.take(i + 1)));
            }
            i = i + 1;
        }
        proof {
            assert(refs@.take(refs@.len() as int) =~= refs@);
            lemma_merge_ids_props(marked0, refs@);
        }
        let ghost w = self.marked_for_deletion@;

        let mut kept: Vec<u64> = Vec::new();
        let mut j: usize = 0;
        while j < self.marked_for_deletion.len()
            invariant
                j <= self.marked_for_deletion@.len(),
                self.first_incomplete_seqs == old(self).first_incomplete_seqs,
                self.min_incomplete_seq == old(self).min_incomplete_seq,
                self.min_incomplete_seq == minv,
                self.invocations == old(self).invocations,
                self.seq_lower_bound == old(self).seq_lower_bound,
                self.marked_for_deletion@ == w,
                w.no_duplicates(),
                self.invocation_for_ref@ == sweep_refs(refs0, minv, w.take(j as int)),
                kept@ == sweep_kept(refs0, minv, w.take(j as int)),
            decreases self.marked_for_deletion@.len() - j,
        {
            let r = self.marked_for_deletion[j];
            proof {
                assert(w.take(j as int).no_duplicates()) by {
                    assert(forall|x: int|
                        0 <= x < w.take(j as int).len() ==> w.take(j as int)[x] == w[x]);
                }
                assert(!w.take(j as int).contains(r)) by {
                    if w.take(j as int).contains(r) {
                        let x = choose|x: int| 0 <= x < j && w.take(j as int)[x] == r;
                        assert(w[x] == w[j as int] && x != j as int);
                    }
                }
                lemma_sweep_at(refs0, minv, w.take(j as int), r);
                assert((self.invocation_for_ref@.contains_key(r) <==> refs0.contains_key(r)) && (
                refs0.contains_key(r) ==> self.invocation_for_ref@[r] == refs0[r]));
            }
            let mut keep = true;
            match self.invocation_for_ref.get(&r) {
                Some(RefStatus::Invoked(s)) => {
                    if *s < self.min_incomplete_seq {
                        keep = false;
                    }
                },
                Some(RefStatus::Errored(_)) => {
                    keep = false;
                },
                None => {},
            }
            proof {
                assert(keep == !droppable(refs0, minv, r));
            }
            let ghost refs_pre = self.invocation_for_ref@;
            if keep {
                kept.push(r);
            } else {
                self.invocation_for_ref.remove(&r);
                proof {
                    assert(self.invocation_for_ref@ == refs_pre.remove(r));
                }
            }
            proof {
                assert(w.take(j + 1).drop_last() =~= w.take(j as int));
                assert(w.take(j + 1).last() == w[j as int]);
                assert(self.invocation_for_ref@ == sweep_refs(refs0, minv, w.take(j + 1)));
                assert(kept@ == sweep_kept(refs0, minv, w.take(j + 1)));
            }
            j = j + 1;
        }
        proof {
            assert(w.take(w.len() as int) =~= w);
            lemma_sweep_kept_nodup(refs0, minv, w);
        }
        self.marked_for_deletion = kept;
        proof {
            lemma_merge_ids_props(marked0, refs@);
            assert forall|r: u64|
                #[trigger] self.marked_set().contains(r) <==> ((old(self).marked_set().contains(r) || ids(refs@).contains(r)) && !droppable(
                refs0,
                minv,
                r,
            )) by {
                lemma_sweep_at(refs0, minv, w, r);
                assert(self.marked_set().contains(r) <==> sweep_kept(
                    refs0,
                    minv,
                    w,
                ).contains(r));
                assert(old(self).marked_set().contains(r) <==> marked0.contains(r));
            }
            assert forall|r: u64|
                (old(self).marked_set().contains(r) || ids(refs@).contains(r)) && droppable(
                    refs0,
                    minv,
                    r,
                ) implies !(#[trigger] self.ref_index().contains_key(r)) by {
                lemma_sweep_at(refs0, minv, w, r);
                assert(w.contains(r));
            }
            assert forall|r: u64|
                !((old(self).marked_set().contains(r) || ids(refs@).contains(r)) && droppable(
                    old(self).ref_index(),
                    old(self).min_seq(),
                    r,
                )) implies (#[trigger] self.ref_index().contains_key(r) <==> old(self).ref_index().contains_key(r)) && (old(self).ref_index().contains_key(r)
                ==> self.ref_index()[r] == old(self).ref_index()[r]) by {
                assert(refs0 == old(self).ref_index());
                assert(minv == old(self).min_seq());
                lemma_sweep_at(refs0, minv, w, r);
                if w.contains(r) && droppable(refs0, minv, r) {
                    assert(marked0.contains(r) || ids(refs@).contains(r));
                    assert(false);
                }
                assert(self.ref_index() == sweep_refs(refs0, minv, w));
                assert(!(w.contains(r) && droppable(refs0, minv, r)));
                assert((sweep_refs(refs0, minv, w).contains_key(r) <==> refs0.contains_key(r)) && (
                refs0.contains_key(r) ==> sweep_refs(refs0, minv, w)[r] == refs0[r]));
            }
        }
    }

    /// Mark `rank` as completed up to but excluding `seq`, recompute the
    /// global low-water-mark, and walk the half-open range from the previous
    /// to the new global minimum: every live entry there leaves the ledger. A
    /// failed entry, already reported when its failure propagated, is not
    /// reported again; its index entries still pending on it are removed,
    /// except those awaiting an explicit deletion pass. Every other entry is
    /// reported now — the one point at which a successful or never-poisoned
    /// result becomes final.
    #[verifier::loop_isolation(false)]
    pub fn rank_completed(&mut self, rank: usize, seq: u64) -> (res: Vec<(u64, Outcome)>)
        requires
            old(self).wf(),
            rank < old(self).marks().len(),
        ensures
            final(self).wf(),
            final(self).marks() == old(self).marks().update(rank as int, seq),
            final(self).marks().contains(final(self).min_seq()),
            forall|i: int|
                0 <= i < final(self).marks().len() ==> final(self).min_seq() <= final(self).marks()[i],
            old(self).marks()[rank as int] <= seq ==> final(self).min_seq() >= old(self).min_seq(),
            final(self).marked_set() == old(self).marked_set(),
            final(self).lower_bound() == old(self).lower_bound(),
            res@ == report_range(old(self).invs(), old(self).min_seq(), final(self).min_seq()),
            forall|s: u64|
                #[trigger] final(self).invs().contains_key(s) <==> (old(self).invs().contains_key(
                    s,
                ) && !(old(self).min_seq() <= s < final(self).min_seq())),
            forall|s: u64|
                #[trigger] final(self).invs().contains_key(s) ==> final(self).invs()[s] == old(self).invs()[s],
            forall|r: u64|
                purged_ref(
                    old(self).invs(),
                    old(self).ref_index(),
                    old(self).marked_set(),
                    old(self).min_seq(),
                    final(self).min_seq(),
                    r,
                ) ==> !(#[trigger] final(self).ref_index().contains_key(r)),
            forall|r: u64|
                !purged_ref(
                    old(self).invs(),
                    old(self).ref_index(),
                    old(self).marked_set(),
                    old(self).min_seq(),
                    final(self).min_seq(),
                    r,
                ) ==> (#[trigger] final(self).ref_index().contains_key(r) <==> old(self).ref_index().contains_key(r)) && (old(self).ref_index().contains_key(r) ==> final(self).ref_index()[r] == old(self).ref_index()[r]),
            old(self).purged_below_min() ==> final(self).purged_below_min(),
    {
        let ghost invs0 = self.invocations@;
        let ghost refs0 = self.invocation_for_ref@;
        let ghost markedv = self.marked_for_deletion@;
        let ghost oldmarks = self.first_incomplete_seqs@;
        self.first_incomplete_seqs.set(rank, seq);
        let ghost tracker1 = self.first_incomplete_seqs;
        let prev = self.min_incomplete_seq;
        let newmin = self.first_incomplete_seqs.min();
        self.min_incomplete_seq = newmin;
        proof {
            if oldmarks[rank as int] <= seq {
                let marks1 = self.first_incomplete_seqs@;
                let j = choose|j: int| 0 <= j < marks1.len() && marks1[j] == newmin;
                if j == rank as int {
                    assert(newmin == seq);
                    assert(prev <= oldmarks[rank as int]);
                } else {
                    assert(marks1[j] == oldmarks[j]);
                    assert(prev <= oldmarks[j]);
                }
            }
        }
        let mut results: Vec<(u64, Outcome)> = Vec::new();
        let mut i: u64 = prev;
        while i < newmin
            invariant
                prev <= i,
                i <= newmin || i == prev,
                self.min_incomplete_seq == newmin,
                self.first_incomplete_seqs == tracker1,
                self.marked_for_deletion@ == markedv,
                self.seq_lower_bound == old(self).seq_lower_bound,
                results@ == report_range(invs0, prev, i),
                self.invocations@ == remove_range(invs0, prev, i),
                self.invocation_for_ref@ == purge_refs(invs0, refs0, markedv.to_set(), prev, i),
            decreases newmin - i,
        {
            let ghost pre_map = self.invocations@;
            match self.invocations.remove(&i) {
                Some(invocation) => {
                    proof {
                        assert(self.invocations@ == pre_map.remove(i));
                        lemma_remove_range_at(invs0, prev, i, i);
                        assert(invocation == invs0[i]);
                        assert(self.invocations@ == remove_range(invs0, prev, (i + 1) as u64));
                    }
                    let failed = match &invocation.result {
                        Some(Err(_)) => true,
                        _ => false,
                    };
                    if failed {
                        let ghost refs_at_entry = self.invocation_for_ref@;
                        let mut d: usize = 0;
                        while d < invocation.defs.len()
                            invariant
                                d <= invocation.defs@.len(),
                                self.invocations@ == remove_range(invs0, prev, (i + 1) as u64),
                                self.min_incomplete_seq == newmin,
                                self.first_incomplete_seqs == tracker1,
                                self.marked_for_deletion@ == markedv,
                                self.seq_lower_bound == old(self).seq_lower_bound,
                                self.invocation_for_ref@ == purge_defs(
                                    refs_at_entry,
                                    i,
                                    invocation.defs@.take(d as int),
                                    markedv.to_set(),
                                ),
                            decreases invocation.defs@.len() - d,
                        {
                            let id = invocation.defs[d].id;
                            let mut remove_it = false;
                            match self.invocation_for_ref.get(&id) {
                                Some(RefStatus::Invoked(s2)) => {
                                    if *s2 == i {
                                        remove_it = true;
                                    }
                                },
                                _ => {},
                            }
                            if remove_it && !vec_contains(&self.marked_for_deletion, id) {
                                let ghost rp = self.invocation_for_ref@;
                                self.invocation_for_ref.remove(&id);
                                proof {
                                    assert(self.invocation_for_ref@ == rp.remove(id));
                                }
                            }
                            proof {
                                assert(invocation.defs@.take(d + 1).drop_last()
                                    =~= invocation.defs@.take(d as int));
                                assert(invocation.defs@.take(d + 1).last()
                                    == invocation.defs@[d as int]);
                                assert(self.invocation_for_ref@ == purge_defs(
                                    refs_at_entry,
                                    i,
                                    invocation.defs@.take(d + 1),
                                    markedv.to_set(),
                                ));
                            }
                            d = d + 1;
                        }
                        proof {
                            assert(invocation.defs@.take(invocation.defs@.len() as int)
                                =~= invocation.defs@);
                            assert(self.invocation_for_ref@ == purge_refs(
                                invs0,
                                refs0,
                                markedv.to_set(),
                                prev,
                                (i + 1) as u64,
                            ));
                            lemma_report_range_snoc(invs0, prev, i);
                            assert(results@ == report_range(invs0, prev, (i + 1) as u64));
                        }
                    } else {
                        results.push((i, invocation.result));
                        proof {
                            lemma_report_range_snoc(invs0, prev, i);
                            assert(results@ == report_range(invs0, prev, (i + 1) as u64));
                            assert(self.invocation_for_ref@ == purge_refs(
                                invs0,
                                refs0,
                                markedv.to_set(),
                                prev,
                                (i + 1) as u64,
                            ));
                        }
                    }
                },
                None => {
                    proof {
                        assert(self.invocations@ == pre_map.remove(i));
                        lemma_remove_range_at(invs0, prev, i, i);
                        assert(!invs0.contains_key(i));
                        assert(self.invocations@ == remove_range(invs0, prev, (i + 1) as u64));
                        lemma_report_range_snoc(invs0, prev, i);
                        assert(results@ == report_range(invs0, prev, (i + 1) as u64));
                        assert(self.invocation_for_ref@ == purge_refs(
                            invs0,
                            refs0,
                            markedv.to_set(),
                            prev,
                            (i + 1) as u64,
                        ));
                    }
                },
            }
            i = i + 1;
        }
        proof {
            if prev > newmin {
                assert(results@ == report_range(invs0, prev, newmin));
                assert(self.invocations@ == remove_range(invs0, prev, newmin));
                assert(self.invocation_for_ref@ == purge_refs(
                    invs0,
                    refs0,
                    markedv.to_set(),
                    prev,
                    newmin,
                ));
            }
            assert forall|s: u64|
                #[trigger] self.invocations@.contains_key(s) <==> (invs0.contains_key(s) && !(prev
                    <= s < newmin)) by {
                lemma_remove_range_at(invs0, prev, newmin, s);
            }
            assert forall|s: u64|
                #[trigger] self.invocations@.contains_key(s) implies self.invocations@[s]
                == invs0[s] by {
                lemma_remove_range_at(invs0, prev, newmin, s);
            }
            assert forall|r: u64|
                purged_ref(invs0, refs0, markedv.to_set(), prev, newmin, r) implies !(
            #[trigger] self.invocation_for_ref@.contains_key(r)) by {
                lemma_purge_refs_at(invs0, refs0, markedv.to_set(), prev, newmin, r);
            }
            assert forall|r: u64|
                !purged_ref(invs0, refs0, markedv.to_set(), prev, newmin, r) implies (
            #[trigger] self.invocation_for_ref@.contains_key(r) <==> refs0.contains_key(r)) && (
            refs0.contains_key(r) ==> self.invocation_for_ref@[r] == refs0[r]) by {
                lemma_purge_refs_at(invs0, refs0, markedv.to_set(), prev, newmin, r);
            }
            if old(self).purged_below_min() {
                assert forall|s: u64| s < newmin implies !self.invocations@.contains_key(s) by {
                    lemma_remove_range_at(invs0, prev, newmin, s);
                    if s < prev {
                        assert(!old(self).invs().contains_key(s));
                        assert(invs0 == old(self).invs());
                    }
                }
            }
        }
        results
    }

    /// Propagate a worker failure for `seq` to every live invocation that
    /// depends on it, directly or transitively. The walk keeps a visited set,
    /// so even an unexpected cycle only costs skipped repeat work. Every
    /// reference still pending on a visited invocation is overwritten with
    /// this cause — a reference since redefined by a later, unreached
    /// invocation is left alone. Each visited live invocation records the
    /// failure, rewritten to name its own sequence number (an earlier failure
    /// stands), and one (sequence, outcome) pair per such invocation is
    /// returned. A sequence with no live entry is skipped: it was settled and
    /// reported already.
    #[verifier::loop_isolation(false)]
    #[verifier::rlimit(60)]
    pub fn propagate_exception(&mut self, seq: u64, exception: Exception) -> (res: Vec<
        (u64, Outcome),
    >)
        requires
            old(self).wf(),
        ensures
            final(self).wf(),
            final(self).marks() == old(self).marks(),
            final(self).min_seq() == old(self).min_seq(),
            final(self).marked_set() == old(self).marked_set(),
            final(self).lower_bound() == old(self).lower_bound(),
            final(self).invs().dom() == old(self).invs().dom(),
            forall|s: u64|
                #[trigger] reachable(old(self).invs(), seq, s) ==> final(self).invs().contains_key(
                    s,
                ) && final(self).invs()[s] == (Invocation {
                    seq: old(self).invs()[s].seq,
                    defs: old(self).invs()[s].defs,
                    result: outcome_after_exception(
                        old(self).invs()[s].result,
                        old(self).invs()[s].seq,
                        exception,
                    ),
                    users: old(self).invs()[s].users,
                }),
            forall|s: u64|
                old(self).invs().contains_key(s) && !reachable(old(self).invs(), seq, s) ==> (
                #[trigger] final(self).invs()[s]) == old(self).invs()[s],
            forall|r: u64|
                ref_hit(old(self).invs(), old(self).ref_index(), seq, r) ==> (#[trigger] final(self).ref_index().contains_key(r)) && final(self).ref_index()[r] == RefStatus::Errored(
                    exception,
                ),
            forall|r: u64|
                !ref_hit(old(self).invs(), old(self).ref_index(), seq, r) ==> (#[trigger] final(self).ref_index().contains_key(r) <==> old(self).ref_index().contains_key(r)) && (old(self).ref_index().contains_key(r) ==> final(self).ref_index()[r] == old(self).ref_index()[r]),
            forall|i: int|
                0 <= i < res@.len() ==> reachable(old(self).invs(), seq, #[trigger] res@[i].0)
                    && res@[i].1 == final(self).invs()[res@[i].0].result,
            forall|i: int, j: int|
                0 <= i < res@.len() && 0 <= j < res@.len() && i != j ==> res@[i].0 != res@[j].0,
            forall|s: u64|
                #[trigger] reachable(old(self).invs(), seq, s) ==> exists|i: int|
                    0 <= i < res@.len() && res@[i].0 == s,
            old(self).purged_below_min() ==> final(self).purged_below_min(),
    {
        let ghost m0 = self.invocations@;
        let ghost refs0 = self.invocation_for_ref@;
        proof {
            assert(self.invocations@.dom().finite());
        }
        let mut results: Vec<(u64, Outcome)> = Vec::new();
        let mut queue: Vec<u64> = Vec::new();
        queue.push(seq);
        proof {
            assert(queue@[0] == seq);
            assert(queue@.contains(seq));
        }
        let mut visited: Vec<u64> = Vec::new();
        while queue.len() > 0
            invariant
                self.first_incomplete_seqs == old(self).first_incomplete_seqs,
                self.min_incomplete_seq == old(self).min_incomplete_seq,
                self.marked_for_deletion == old(self).marked_for_deletion,
                self.seq_lower_bound == old(self).seq_lower_bound,
                self.invocations@.dom() == m0.dom(),
                visited@.no_duplicates(),
                visited@.contains(seq) || queue@.contains(seq),
                forall|x: u64|
                    queue@.contains(x) || visited@.contains(x) ==> enqueued_from(m0, seq, x),
                forall|s: u64|
                    #[trigger] visited@.contains(s) && m0.contains_key(s)
                        ==> self.invocations@[s] == (Invocation {
                        seq: m0[s].seq,
                        defs: m0[s].defs,
                        result: outcome_after_exception(m0[s].result, m0[s].seq, exception),
                        users: m0[s].users,
                    }),
                forall|s: u64|
                    m0.contains_key(s) && !visited@.contains(s) ==> (
                    #[trigger] self.invocations@[s]) == m0[s],
                forall|s: u64, x: u64|
                    visited@.contains(s) && m0.contains_key(s) && #[trigger] m0[s].users@.contains(
                        x,
                    ) ==> visited@.contains(x) || queue@.contains(x),
                refs_marked_so_far(m0, refs0, visited@, self.invocation_for_ref@, exception),
                forall|i: int|
                    0 <= i < results@.len() ==> visited@.contains(#[trigger] results@[i].0)
                        && m0.contains_key(results@[i].0) && results@[i].1
                        == outcome_after_exception(
                        m0[results@[i].0].result,
                        m0[results@[i].0].seq,
                        exception,
                    ),
                forall|i: int, j: int|
                    0 <= i < results@.len() && 0 <= j < results@.len() && i != j
                        ==> results@[i].0 != results@[j].0,
                forall|s: u64|
                    #[trigger] visited@.contains(s) && m0.contains_key(s) ==> exists|i: int|
                        0 <= i < results@.len() && results@[i].0 == s,
            decreases m0.dom().difference(visited@.to_set()).len(), queue@.len(),
        {
            let ghost queue0 = queue@;
            let ghost visited0 = visited@;
            let s = queue.pop().unwrap();
            proof {
                assert(queue@ == queue0.drop_last() && s == queue0.last());
                assert(queue0.contains(s)) by {
                    assert(queue0[queue0.len() - 1] == s);
                }
                assert forall|x: u64| queue@.contains(x) implies queue0.contains(x) by {
                    let j = choose|j: int| 0 <= j < queue@.len() && queue@[j] == x;
                    assert(queue0[j] == x);
                }
            }
            if !vec_contains(&visited, s) {
                visited.push(s);
                proof {
                    assert(visited@ == visited0.push(s));
                    assert forall|x: u64| #[trigger]
                        visited@.contains(x) <==> visited0.contains(x) || x == s by {
                        lemma_push_contains(visited0, s, x);
                    }
                    assert(visited@.to_set() =~= visited0.to_set().insert(s));
                    assert(visited@.no_duplicates()) by {
                        assert forall|i: int, j: int|
                            0 <= i < visited@.len() && 0 <= j < visited@.len() && i != j implies
                        visited@[i] != visited@[j] by {
                            if i < visited0.len() && j < visited0.len() {
                                assert(visited@[i] == visited0[i] && visited@[j] == visited0[j]);
                            } else if i < visited0.len() {
                                assert(visited@[i] == visited0[i] && visited@[j] == s);
                                if visited@[i] == visited@[j] {
                                    assert(visited0.contains(s));
                                }
                            } else {
                                assert(visited@[i] == s && visited@[j] == visited0[j]);
                                if visited@[i] == visited@[j] {
                                    assert(visited0.contains(s));
                                }
                            }
                        }
                    }
                }
                let ghost pre_map = self.invocations@;
                let ghost refs_entry = self.invocation_for_ref@;
                match self.invocations.remove(&s) {
                    Some(mut invocation) => {
                        proof {
                            assert(pre_map.contains_key(s));
                            assert(m0.contains_key(s));
                            assert(invocation == m0[s]);
                            assert(self.invocations@ == pre_map.remove(s));
                            assert(enqueued_from(m0, seq, s));
                            lemma_enqueued_live_reachable(m0, seq, s);
                        }
                        let mut d: usize = 0;
                        while d < invocation.defs.len()
                            invariant
                                d <= invocation.defs@.len(),
                                self.invocations@ == pre_map.remove(s),
                                self.first_incomplete_seqs == old(self).first_incomplete_seqs,
                                self.min_incomplete_seq == old(self).min_incomplete_seq,
                                self.marked_for_deletion == old(self).marked_for_deletion,
                                self.seq_lower_bound == old(self).seq_lower_bound,
                                self.invocation_for_ref@ == mark_defs(
                                    refs_entry,
                                    s,
                                    invocation.defs@.take(d as int),
                                    exception,
                                ),
                            decreases invocation.defs@.len() - d,
                        {
                            let id = invocation.defs[d].id;
                            let mut hit = false;
                            match self.invocation_for_ref.get(&id) {
                                Some(RefStatus::Invoked(s2)) => {
                                    if *s2 == s {
                                        hit = true;
                                    }
                                },
                                _ => {},
                            }
                            if hit {
                                let ghost rp = self.invocation_for_ref@;
                                self.invocation_for_ref.insert(
                                    id,
                                    RefStatus::Errored(exception.clone()),
                                );
                                proof {
                                    assert(self.invocation_for_ref@ == rp.insert(
                                        id,
                                        RefStatus::Errored(exception),
                                    ));
                                }
                            }
                            proof {
                                assert(invocation.defs@.take(d + 1).drop_last()
                                    =~= invocation.defs@.take(d as int));
                                assert(invocation.defs@.take(d + 1).last()
                                    == invocation.defs@[d as int]);
                                assert(self.invocation_for_ref@ == mark_defs(
                                    refs_entry,
                                    s,
                                    invocation.defs@.take(d + 1),
                                    exception,
                                ));
                            }
                            d = d + 1;
                        }
                        proof {
                            assert(invocation.defs@.take(invocation.defs@.len() as int)
                                =~= invocation.defs@);
                            assert(self.invocation_for_ref@ == mark_defs(
                                refs_entry,
                                s,
                                invocation.defs@,
                                exception,
                            ));
                        }
                        invocation.set_exception(&exception);
                        let ghost results_pre = results@;
                        results.push((s, clone_outcome(&invocation.result)));
                        let ghost qbase = queue@;
                        let ghost results1 = results@;
                        let ghost refs_after = self.invocation_for_ref@;
                        let mut u: usize = 0;
                        while u < invocation.users.len()
                            invariant
                                u <= invocation.users@.len(),
                                self.invocations@ == pre_map.remove(s),
                                self.invocation_for_ref@ == refs_after,
                                self.first_incomplete_seqs == old(self).first_incomplete_seqs,
                                self.min_incomplete_seq == old(self).min_incomplete_seq,
                                self.marked_for_deletion == old(self).marked_for_deletion,
                                self.seq_lower_bound == old(self).seq_lower_bound,
                                results@ == results1,
                                forall|x: u64|
                                    qbase.contains(x) ==> #[trigger] queue@.contains(x),
                                forall|k: int|
                                    0 <= k < u ==> queue@.contains(
                                        #[trigger] invocation.users@[k],
                                    ),
                                forall|x: u64|
                                    #[trigger] queue@.contains(x) ==> qbase.contains(x) || (
                                    exists|k: int|
                                        0 <= k < u && invocation.users@[k] == x),
                            decreases invocation.users@.len() - u,
                        {
                            let ghost qpre = queue@;
                            queue.push(invocation.users[u]);
                            proof {
                                assert forall|x: u64| #[trigger]
                                    queue@.contains(x) <==> qpre.contains(x) || x
                                        == invocation.users@[u as int] by {
                                    lemma_push_contains(qpre, invocation.users@[u as int], x);
                                }
                            }
                            u = u + 1;
                        }
                        self.invocations.insert(s, invocation);
                        proof {
                            let vs1 = visited@;
                            let inv1 = Invocation {
                                seq: m0[s].seq,
                                defs: m0[s].defs,
                                result: outcome_after_exception(m0[s].result, m0[s].seq, exception),
                                users: m0[s].users,
                            };
                            assert(self.invocations@ == pre_map.remove(s).insert(s, inv1));
                            assert(self.invocations@.dom() =~= m0.dom());
                            assert forall|t: u64|
                                #[trigger] vs1.contains(t) && m0.contains_key(t) implies
                            self.invocations@[t] == (Invocation {
                                seq: m0[t].seq,
                                defs: m0[t].defs,
                                result: outcome_after_exception(m0[t].result, m0[t].seq, exception),
                                users: m0[t].users,
                            }) by {
                                if t != s {
                                    assert(visited0.contains(t));
                                    assert(pre_map[t] == self.invocations@[t]);
                                }
                            }
                            assert forall|t: u64|
                                m0.contains_key(t) && !vs1.contains(t) implies (
                            #[trigger] self.invocations@[t]) == m0[t] by {
                                assert(t != s);
                                assert(!visited0.contains(t));
                            }
                            assert forall|x: u64|
                                queue@.contains(x) || vs1.contains(x) implies enqueued_from(
                                m0,
                                seq,
                                x,
                            ) by {
                                if queue@.contains(x) {
                                    if qbase.contains(x) {
                                        assert(queue0.contains(x));
                                    } else {
                                        let k = choose|k: int|
                                            0 <= k < invocation.users@.len()
                                                && invocation.users@[k] == x;
                                        assert(m0[s].users@.contains(x)) by {
                                            assert(m0[s].users@[k] == x);
                                        }
                                        assert(reachable(m0, seq, s));
                                    }
                                } else {
                                    if x != s {
                                        assert(visited0.contains(x));
                                    } else {
                                        assert(queue0.contains(s));
                                    }
                                }
                            }
                            assert forall|t: u64, x: u64|
                                vs1.contains(t) && m0.contains_key(t)
                                    && #[trigger] m0[t].users@.contains(x) implies vs1.contains(x)
                                || queue@.contains(x) by {
                                if t == s {
                                    let k = choose|k: int|
                                        0 <= k < m0[s].users@.len() && m0[s].users@[k] == x;
                                    assert(invocation.users@ == m0[s].users@);
                                    assert(queue@.contains(invocation.users@[k]));
                                } else {
                                    assert(visited0.contains(t));
                                    if visited0.contains(x) {
                                    } else {
                                        assert(queue0.contains(x));
                                        if x == s {
                                        } else {
                                            lemma_drop_last_contains(queue0, x);
                                            assert(qbase.contains(x));
                                        }
                                    }
                                }
                            }
                            assert forall|r: u64|
                                hit_so_far(m0, refs0, vs1, r) implies (
                            #[trigger] self.invocation_for_ref@.contains_key(r))
                                && self.invocation_for_ref@[r] == RefStatus::Errored(
                                exception,
                            ) by {
                                let s2 = choose|s2: u64|
                                    #[trigger] vs1.contains(s2) && m0.contains_key(s2) && ids(
                                        m0[s2].defs@,
                                    ).contains(r) && refs0.contains_key(r) && refs0[r]
                                        == RefStatus::Invoked(s2);
                                lemma_mark_defs_at(refs_entry, s, invocation.defs@, exception, r);
                                if s2 == s {
                                    assert(!hit_so_far(m0, refs0, visited0, r)) by {
                                        if hit_so_far(m0, refs0, visited0, r) {
                                            let s3 = choose|s3: u64|
                                                #[trigger] visited0.contains(s3)
                                                    && m0.contains_key(s3) && ids(
                                                    m0[s3].defs@,
                                                ).contains(r) && refs0.contains_key(r) && refs0[r]
                                                    == RefStatus::Invoked(s3);
                                            assert(s3 == s);
                                            assert(visited0.contains(s));
                                        }
                                    }
                                    assert(refs_entry.contains_key(r) && refs_entry[r]
                                        == RefStatus::Invoked(s));
                                    assert(invocation.defs@ == m0[s].defs@);
                                } else {
                                    assert(visited0.contains(s2));
                                    assert(hit_so_far(m0, refs0, visited0, r));
                                    assert(refs_entry.contains_key(r) && refs_entry[r]
                                        == RefStatus::Errored(exception));
                                }
                            }
                            assert forall|r: u64|
                                !hit_so_far(m0, refs0, vs1, r) implies (
                            #[trigger] self.invocation_for_ref@.contains_key(r)
                                <==> refs0.contains_key(r)) && (refs0.contains_key(r)
                                ==> self.invocation_for_ref@[r] == refs0[r]) by {
                                assert(!hit_so_far(m0, refs0, visited0, r)) by {
                                    if hit_so_far(m0, refs0, visited0, r) {
                                        let s3 = choose|s3: u64|
                                            #[trigger] visited0.contains(s3) && m0.contains_key(s3)
                                                && ids(m0[s3].defs@).contains(r)
                                                && refs0.contains_key(r) && refs0[r]
                                                == RefStatus::Invoked(s3);
                                        assert(vs1.contains(s3));
                                    }
                                }
                                lemma_mark_defs_at(refs_entry, s, invocation.defs@, exception, r);
                                if refs_entry.contains_key(r) && refs_entry[r]
                                    == RefStatus::Invoked(s) && ids(invocation.defs@).contains(r) {
                                    assert(refs0.contains_key(r) && refs0[r] == RefStatus::Invoked(
                                        s,
                                    ));
                                    assert(hit_so_far(m0, refs0, vs1, r)) by {
                                        assert(vs1.contains(s) && m0.contains_key(s) && ids(
                                            m0[s].defs@,
                                        ).contains(r));
                                    }
                                    assert(false);
                                }
                            }
                            assert(refs_marked_so_far(
                                m0,
                                refs0,
                                visited@,
                                self.invocation_for_ref@,
                                exception,
                            ));
                            assert forall|i: int|
                                0 <= i < results@.len() implies vs1.contains(
                                #[trigger] results@[i].0,
                            ) && m0.contains_key(results@[i].0) && results@[i].1
                                == outcome_after_exception(
                                m0[results@[i].0].result,
                                m0[results@[i].0].seq,
                                exception,
                            ) by {
                                if i < results_pre.len() {
                                    assert(results@[i] == results_pre[i]);
                                }
                            }
                            assert forall|i: int, j: int|
                                0 <= i < results@.len() && 0 <= j < results@.len() && i != j implies
                            results@[i].0 != results@[j].0 by {
                                if i < results_pre.len() {
                                    assert(results@[i] == results_pre[i]);
                                }
                                if j < results_pre.len() {
                                    assert(results@[j] == results_pre[j]);
                                }
                                if i < results_pre.len() && j < results_pre.len() {
                                } else if i < results_pre.len() {
                                    assert(results@[j].0 == s);
                                    assert(visited0.contains(results@[i].0));
                                } else if j < results_pre.len() {
                                    assert(results@[i].0 == s);
                                    assert(visited0.contains(results@[j].0));
                                }
                            }
                            assert forall|t: u64|
                                #[trigger] vs1.contains(t) && m0.contains_key(t) implies exists|
                                i: int,
                            |
                                0 <= i < results@.len() && results@[i].0 == t by {
                                if t == s {
                                    assert(results@[results@.len() - 1].0 == s);
                                } else {
                                    assert(visited0.contains(t));
                                    let i = choose|i: int|
                                        0 <= i < results_pre.len() && results_pre[i].0 == t;
                                    assert(results@[i] == results_pre[i]);
                                    assert(results@[i].0 == t);
                                }
                            }
                            assert(m0.dom().difference(vs1.to_set()) =~= m0.dom().difference(
                                visited0.to_set(),
                            ).remove(s));
                            assert(m0.dom().difference(visited0.to_set()).contains(s));
                            assert(m0.dom().difference(visited0.to_set()).finite());
                        }
                    },
                    None => {
                        proof {
                            assert(self.invocations@ == pre_map.remove(s));
                            assert(!pre_map.contains_key(s));
                            assert(!m0.contains_key(s));
                            assert(self.invocations@ =~= pre_map);
                            let vs1 = visited@;
                            assert forall|x: u64|
                                queue@.contains(x) || vs1.contains(x) implies enqueued_from(
                                m0,
                                seq,
                                x,
                            ) by {
                                if queue@.contains(x) {
                                    assert(queue0.contains(x));
                                } else if x != s {
                                    assert(visited0.contains(x));
                                } else {
                                    assert(queue0.contains(s));
                                }
                            }
                            assert forall|t: u64, x: u64|
                                vs1.contains(t) && m0.contains_key(t)
                                    && #[trigger] m0[t].users@.contains(x) implies vs1.contains(x)
                                || queue@.contains(x) by {
                                assert(t != s);
                                assert(visited0.contains(t));
                                if !visited0.contains(x) {
                                    assert(queue0.contains(x));
                                    if x != s {
                                        lemma_drop_last_contains(queue0, x);
                                    }
                                }
                            }
                            assert forall|r: u64|
                                hit_so_far(m0, refs0, vs1, r) implies hit_so_far(
                                m0,
                                refs0,
                                visited0,
                                r,
                            ) by {
                                let s2 = choose|s2: u64|
                                    #[trigger] vs1.contains(s2) && m0.contains_key(s2) && ids(
                                        m0[s2].defs@,
                                    ).contains(r) && refs0.contains_key(r) && refs0[r]
                                        == RefStatus::Invoked(s2);
                                assert(s2 != s);
                                assert(visited0.contains(s2));
                            }
                            assert forall|r: u64|
                                hit_so_far(m0, refs0, visited0, r) implies hit_so_far(
                                m0,
                                refs0,
                                vs1,
                                r,
                            ) by {
                                let s2 = choose|s2: u64|
                                    #[trigger] visited0.contains(s2) && m0.contains_key(s2) && ids(
                                        m0[s2].defs@,
                                    ).contains(r) && refs0.contains_key(r) && refs0[r]
                                        == RefStatus::Invoked(s2);
                                assert(vs1.contains(s2));
                            }
                            assert forall|r: u64|
                                hit_so_far(m0, refs0, vs1, r) implies (
                            #[trigger] self.invocation_for_ref@.contains_key(r))
                                && self.invocation_for_ref@[r] == RefStatus::Errored(
                                exception,
                            ) by {
                                assert(hit_so_far(m0, refs0, visited0, r));
                                assert(self.invocation_for_ref@ == refs_entry);
                            }
                            assert forall|r: u64|
                                !hit_so_far(m0, refs0, vs1, r) implies (
                            #[trigger] self.invocation_for_ref@.contains_key(r)
                                <==> refs0.contains_key(r)) && (refs0.contains_key(r)
                                ==> self.invocation_for_ref@[r] == refs0[r]) by {
                                assert(!hit_so_far(m0, refs0, visited0, r));
                                assert(self.invocation_for_ref@ == refs_entry);
                            }
                            assert(refs_marked_so_far(
                                m0,
                                refs0,
                                visited@,
                                self.invocation_for_ref@,
                                exception,
                            ));
                            assert(m0.dom().difference(vs1.to_set()) =~= m0.dom().difference(
                                visited0.to_set(),
                            ));
                        }
                    },
                }
            } else {
                proof {
                    assert forall|x: u64|
                        queue@.contains(x) || visited@.contains(x) implies enqueued_from(
                        m0,
                        seq,
                        x,
                    ) by {
                        if queue@.contains(x) {
                            assert(queue0.contains(x));
                        }
                    }
                    assert(visited@.contains(seq) || queue@.contains(seq)) by {
                        if !visited@.contains(seq) && queue0.contains(seq) {
                            if seq != s {
                                lemma_drop_last_contains(queue0, seq);
                            }
                        }
                    }
                    assert forall|t: u64, x: u64|
                        visited@.contains(t) && m0.contains_key(t) && #[trigger] m0[t].users@.contains(
                            x,
                        ) implies visited@.contains(x) || queue@.contains(x) by {
                        if !visited@.contains(x) {
                            assert(queue0.contains(x));
                            if x != s {
                                lemma_drop_last_contains(queue0, x);
                            } else {
                                assert(visited@.contains(s));
                            }
                        }
                    }
                    assert(refs_marked_so_far(
                        m0,
                        refs0,
                        visited@,
                        self.invocation_for_ref@,
                        exception,
                    ));
                }
            }
            proof {
                assert(visited@.contains(seq) || queue@.contains(seq)) by {
                    if !visited@.contains(seq) {
                        assert(queue0.contains(seq));
                        assert(seq != s) by {
                            if seq == s {
                                assert(visited@.contains(s));
                            }
                        }
                        lemma_drop_last_contains(queue0, seq);
                        assert(queue0.drop_last().contains(seq));
                    }
                }
            }
        }
        proof {
            let vsf = visited@;
            assert forall|s: u64| #[trigger] reachable(m0, seq, s) implies vsf.contains(s) by {
                assert(vsf.contains(seq)) by {
                    assert(queue@.len() == 0);
                }
                crate::reach::lemma_reachable_in_closed(m0, vsf.to_set(), seq, s);
            }
            assert forall|s: u64| #[trigger] vsf.contains(s) && m0.contains_key(s) implies
            reachable(m0, seq, s) by {
                lemma_enqueued_live_reachable(m0, seq, s);
            }
            assert forall|r: u64|
                ref_hit(m0, refs0, seq, r) implies hit_so_far(m0, refs0, vsf, r) by {
                let s = choose|s: u64|
                    #[trigger] reachable(m0, seq, s) && ids(m0[s].defs@).contains(r)
                        && refs0.contains_key(r) && refs0[r] == RefStatus::Invoked(s);
                assert(vsf.contains(s) && m0.contains_key(s));
            }
            assert forall|r: u64|
                hit_so_far(m0, refs0, vsf, r) implies ref_hit(m0, refs0, seq, r) by {
                let s = choose|s: u64|
                    #[trigger] vsf.contains(s) && m0.contains_key(s) && ids(m0[s].defs@).contains(
                        r,
                    ) && refs0.contains_key(r) && refs0[r] == RefStatus::Invoked(s);
                assert(reachable(m0, seq, s));
            }
            if old(self).purged_below_min() {
                assert forall|s: u64|
                    s < self.min_seq() implies !self.invocations@.contains_key(s) by {
                    assert(!old(self).invs().contains_key(s));
                    assert(m0 == old(self).invs());
                }
            }
        }
        results
    }

    /// The sequence numbers of every live invocation that depends on `seq`,
    /// directly or transitively, `seq` itself included when live. Empty when
    /// `seq` has no live entry.
    #[verifier::loop_isolation(false)]
    pub fn iter_users_transitive(&self, seq: u64) -> (res: Vec<u64>)
        ensures
            res@.no_duplicates(),
            forall|s: u64| #[trigger] res@.contains(s) <==> reachable(self.invs(), seq, s),
    {
        let ghost m0 = self.invocations@;
        proof {
            assert(self.invocations@.dom().finite());
        }
        let mut results: Vec<u64> = Vec::new();
        let mut queue: Vec<u64> = Vec::new();
        queue.push(seq);
        proof {
            assert(queue@[0] == seq);
            assert(queue@.contains(seq));
        }
        let mut visited: Vec<u64> = Vec::new();
        while queue.len() > 0
            invariant
                visited@.no_duplicates(),
                visited@.contains(seq) || queue@.contains(seq),
                forall|x: u64|
                    queue@.contains(x) || visited@.contains(x) ==> enqueued_from(m0, seq, x),
                forall|s: u64, x: u64|
                    visited@.contains(s) && m0.contains_key(s) && #[trigger] m0[s].users@.contains(
                        x,
                    ) ==> visited@.contains(x) || queue@.contains(x),
                results@.no_duplicates(),
                forall|i: int|
                    0 <= i < results@.len() ==> visited@.contains(#[trigger] results@[i])
                        && m0.contains_key(results@[i]),
                forall|s: u64|
                    #[trigger] visited@.contains(s) && m0.contains_key(s) ==> results@.contains(s),
            decreases m0.dom().difference(visited@.to_set()).len(), queue@.len(),
        {
            let ghost queue0 = queue@;
            let ghost visited0 = visited@;
            let s = queue.pop().unwrap();
            proof {
                assert(queue@ == queue0.drop_last() && s == queue0.last());
                assert(queue0.contains(s)) by {
                    assert(queue0[queue0.len() - 1] == s);
                }
                assert forall|x: u64| queue@.contains(x) implies queue0.contains(x) by {
                    let j = choose|j: int| 0 <= j < queue@.len() && queue@[j] == x;
                    assert(queue0[j] == x);
                }
            }
            if !vec_contains(&visited, s) {
                visited.push(s);
                proof {
                    assert(visited@ == visited0.push(s));
                    assert forall|x: u64| #[trigger]
                        visited@.contains(x) <==> visited0.contains(x) || x == s by {
                        lemma_push_contains(visited0, s, x);
                    }
                    assert(visited@.to_set() =~= visited0.to_set().insert(s));
                    assert(visited@.no_duplicates()) by {
                        assert forall|i: int, j: int|
                            0 <= i < visited@.len() && 0 <= j < visited@.len() && i != j implies
                        visited@[i] != visited@[j] by {
                            if i < visited0.len() && j < visited0.len() {
                                assert(visited@[i] == visited0[i] && visited@[j] == visited0[j]);
                            } else if i < visited0.len() {
                                assert(visited@[i] == visited0[i] && visited@[j] == s);
                                if visited@[i] == visited@[j] {
                                    assert(visited0.contains(s));
                                }
                            } else {
                                assert(visited@[i] == s && visited@[j] == visited0[j]);
                                if visited@[i] == visited@[j] {
                                    assert(visited0.contains(s));
                                }
                            }
                        }
                    }
                }
                match self.invocations.get(&s) {
                    Some(invocation) => {
                        proof {
                            assert(m0.contains_key(s));
                            assert(*invocation == m0[s]);
                        }
                        let ghost results0 = results@;
                        results.push(s);
                        proof {
                            assert forall|x: u64| #[trigger]
                                results@.contains(x) <==> results0.contains(x) || x == s by {
                                lemma_push_contains(results0, s, x);
                            }
                            assert(!results0.contains(s)) by {
                                if results0.contains(s) {
                                    let j = choose|j: int|
                                        0 <= j < results0.len() && results0[j] == s;
                                    assert(visited0.contains(results0[j]));
                                }
                            }
                            assert(results@.no_duplicates()) by {
                                assert forall|i: int, j: int|
                                    0 <= i < results@.len() && 0 <= j < results@.len() && i
                                        != j implies results@[i] != results@[j] by {
                                    if i < results0.len() && j < results0.len() {
                                        assert(results@[i] == results0[i] && results@[j]
                                            == results0[j]);
                                    } else if i < results0.len() {
                                        assert(results@[i] == results0[i] && results@[j] == s);
                                        if results@[i] == results@[j] {
                                            assert(results0.contains(s));
                                        }
                                    } else {
                                        assert(results@[i] == s && results@[j] == results0[j]);
                                        if results@[i] == results@[j] {
                                            assert(results0.contains(s));
                                        }
                                    }
                                }
                            }
                        }
                        let ghost qbase = queue@;
                        let mut u: usize = 0;
                        while u < invocation.users.len()
                            invariant
                                u <= invocation.users@.len(),
                                forall|x: u64|
                                    qbase.contains(x) ==> #[trigger] queue@.contains(x),
                                forall|k: int|
                                    0 <= k < u ==> queue@.contains(
                                        #[trigger] invocation.users@[k],
                                    ),
                                forall|x: u64|
                                    #[trigger] queue@.contains(x) ==> qbase.contains(x) || (
                                    exists|k: int| 0 <= k < u && invocation.users@[k] == x),
                            decreases invocation.users@.len() - u,
                        {
                            let ghost qpre = queue@;
                            queue.push(invocation.users[u]);
                            proof {
                                assert forall|x: u64| #[trigger]
                                    queue@.contains(x) <==> qpre.contains(x) || x
                                        == invocation.users@[u as int] by {
                                    lemma_push_contains(qpre, invocation.users@[u as int], x);
                                }
                            }
                            u = u + 1;
                        }
                        proof {
                            let vs1 = visited@;
                            assert(enqueued_from(m0, seq, s));
                            lemma_enqueued_live_reachable(m0, seq, s);
                            assert forall|x: u64|
                                queue@.contains(x) || vs1.contains(x) implies enqueued_from(
                                m0,
                                seq,
                                x,
                            ) by {
                                if queue@.contains(x) {
                                    if qbase.contains(x) {
                                        assert(queue0.contains(x));
                                    } else {
                                        let k = choose|k: int|
                                            0 <= k < invocation.users@.len()
                                                && invocation.users@[k] == x;
                                        assert(m0[s].users@.contains(x)) by {
                                            assert(m0[s].users@[k] == x);
                                        }
                                        assert(reachable(m0, seq, s));
                                    }
                                } else {
                                    if x != s {
                                        assert(visited0.contains(x));
                                    } else {
                                        assert(queue0.contains(s));
                                    }
                                }
                            }
                            assert forall|t: u64, x: u64|
                                vs1.contains(t) && m0.contains_key(t)
                                    && #[trigger] m0[t].users@.contains(x) implies vs1.contains(x)
                                || queue@.contains(x) by {
                                if t == s {
                                    let k = choose|k: int|
                                        0 <= k < m0[s].users@.len() && m0[s].users@[k] == x;
                                    assert(invocation.users@ == m0[s].users@);
                                    assert(queue@.contains(invocation.users@[k]));
                                } else {
                                    assert(visited0.contains(t));
                                    if !visited0.contains(x) {
                                        assert(queue0.contains(x));
                                        if x != s {
                                            lemma_drop_last_contains(queue0, x);
                                            assert(qbase.contains(x));
                                        }
                                    }
                                }
                            }
                            assert(m0.dom().difference(vs1.to_set()) =~= m0.dom().difference(
                                visited0.to_set(),
                            ).remove(s));
                            assert(m0.dom().difference(visited0.to_set()).contains(s));
                            assert(m0.dom().difference(visited0.to_set()).finite());
                        }
                    },
                    None => {
                        proof {
                            assert(!m0.contains_key(s));
                            let vs1 = visited@;
                            assert forall|x: u64|
                                queue@.contains(x) || vs1.contains(x) implies enqueued_from(
                                m0,
                                seq,
                                x,
                            ) by {
                                if queue@.contains(x) {
                                    assert(queue0.contains(x));
                                } else if x != s {
                                    assert(visited0.contains(x));
                                } else {
                                    assert(queue0.contains(s));
                                }
                            }
                            assert forall|t: u64, x: u64|
                                vs1.contains(t) && m0.contains_key(t)
                                    && #[trigger] m0[t].users@.contains(x) implies vs1.contains(x)
                                || queue@.contains(x) by {
                                assert(t != s);
                                assert(visited0.contains(t));
                                if !visited0.contains(x) {
                                    assert(queue0.contains(x));
                                    if x != s {
                                        lemma_drop_last_contains(queue0, x);
                                    }
                                }
                            }
                            assert(m0.dom().difference(vs1.to_set()) =~= m0.dom().difference(
                                visited0.to_set(),
                            ));
                        }
                    },
                }
            } else {
                proof {
                    assert forall|x: u64|
                        queue@.contains(x) || visited@.contains(x) implies enqueued_from(
                        m0,
                        seq,
                        x,
                    ) by {
                        if queue@.contains(x) {
                            assert(queue0.contains(x));
                        }
                    }
                    assert forall|t: u64, x: u64|
                        visited@.contains(t) && m0.contains_key(t) && #[trigger] m0[t].users@.contains(
                            x,
                        ) implies visited@.contains(x) || queue@.contains(x) by {
                        if !visited@.contains(x) {
                            assert(queue0.contains(x));
                            if x != s {
                                lemma_drop_last_contains(queue0, x);
                            } else {
                                assert(visited@.contains(s));
                            }
                        }
                    }
                }
            }
            proof {
                assert(visited@.contains(seq) || queue@.contains(seq)) by {
                    if !visited@.contains(seq) {
                        assert(queue0.contains(seq));
                        assert(seq != s) by {
                            if seq == s {
                                assert(visited@.contains(s));
                            }
                        }
                        lemma_drop_last_contains(queue0, seq);
                    }
                }
            }
        }
        proof {
            let vsf = visited@;
            assert forall|s: u64| #[trigger] reachable(m0, seq, s) implies vsf.contains(s) by {
                assert(vsf.contains(seq)) by {
                    assert(queue@.len() == 0);
                }
                crate::reach::lemma_reachable_in_closed(m0, vsf.to_set(), seq, s);
            }
            assert forall|s: u64| #[trigger]
                results@.contains(s) <==> reachable(m0, seq, s) by {
                if results@.contains(s) {
                    let i = choose|i: int| 0 <= i < results@.len() && results@[i] == s;
                    assert(vsf.contains(results@[i]));
                    lemma_enqueued_live_reachable(m0, seq, s);
                }
                if reachable(m0, seq, s) {
                    assert(vsf.contains(s));
                    crate::reach::lemma_reachable_live(m0, seq, s);
                    assert(m0.contains_key(s));
                }
            }
        }
        results
    }
}

} // verus!
