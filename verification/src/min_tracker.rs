//! A fixed-size vector of per-rank low-water-marks that can report the
//! minimum mark in one lookup. A multiset of the current marks is kept as a
//! sorted association list from mark to occurrence count; replacing a rank's
//! mark decrements the count of the old mark and increments the count of the
//! new one, so the smallest key of the count table is always the minimum of
//! the vector.

use vstd::prelude::*;

verus! {

/// How many times `k` occurs in `s`.
pub open spec fn occ(s: Seq<u64>, k: u64) -> nat
    decreases s.len(),
{
    if s.len() == 0 {
        0
    } else {
        (if s[0] == k {
            1nat
        } else {
            0nat
        }) + occ(s.drop_first(), k)
    }
}

pub proof fn lemma_occ_le_len(s: Seq<u64>, k: u64)
    ensures
        occ(s, k) <= s.len(),
    decreases s.len(),
{
    if s.len() > 0 {
        lemma_occ_le_len(s.drop_first(), k);
    }
}

pub proof fn lemma_occ_contains(s: Seq<u64>, k: u64)
    ensures
        occ(s, k) > 0 <==> s.contains(k),
    decreases s.len(),
{
    if s.len() > 0 {
        lemma_occ_contains(s.drop_first(), k);
        if s[0] != k && s.contains(k) {
            let i = choose|i: int| 0 <= i < s.len() && s[i] == k;
            assert(s.drop_first()[i - 1] == k);
        }
        if s.drop_first().contains(k) {
            let i = choose|i: int| 0 <= i < s.drop_first().len() && s.drop_first()[i] == k;
            assert(s[i + 1] == k);
        }
    }
}

pub proof fn lemma_occ_update(s: Seq<u64>, i: int, v: u64, k: u64)
    requires
        0 <= i < s.len(),
    ensures
        occ(s.update(i, v), k) + (if s[i] == k {
            1nat
        } else {
            0nat
        }) == occ(s, k) + (if v == k {
            1nat
        } else {
            0nat
        }),
    decreases s.len(),
{
    if i == 0 {
        assert(s.update(0, v).drop_first() =~= s.drop_first());
    } else {
        assert(s.update(i, v).drop_first() =~= s.drop_first().update(i - 1, v));
        lemma_occ_update(s.drop_first(), i - 1, v, k);
    }
}

/// How many occurrences the association list `s` records for `k`.
pub open spec fn count_in(s: Seq<(u64, usize)>, k: u64) -> nat
    decreases s.len(),
{
    if s.len() == 0 {
        0
    } else if s[0].0 == k {
        s[0].1 as nat
    } else {
        count_in(s.drop_first(), k)
    }
}

spec fn entries_sorted(s: Seq<(u64, usize)>) -> bool {
    forall|i: int, j: int| 0 <= i < j < s.len() ==> s[i].0 < s[j].0
}

proof fn lemma_count_in_at(s: Seq<(u64, usize)>, i: int)
    requires
        entries_sorted(s),
        0 <= i < s.len(),
    ensures
        count_in(s, s[i].0) == s[i].1 as nat,
    decreases s.len(),
{
    if i > 0 {
        assert(s[0].0 != s[i].0);
        assert(s.drop_first()[i - 1] == s[i]);
        assert(entries_sorted(s.drop_first())) by {
            assert(forall|x: int, y: int|
                0 <= x < y < s.drop_first().len() ==> s.drop_first()[x] == s[x + 1]
                    && s.drop_first()[y] == s[y + 1]);
        }
        lemma_count_in_at(s.drop_first(), i - 1);
    }
}

proof fn lemma_count_in_absent(s: Seq<(u64, usize)>, k: u64)
    requires
        forall|i: int| 0 <= i < s.len() ==> s[i].0 != k,
    ensures
        count_in(s, k) == 0,
    decreases s.len(),
{
    if s.len() > 0 {
        assert(forall|i: int|
            0 <= i < s.drop_first().len() ==> s.drop_first()[i] == s[i + 1]);
        lemma_count_in_absent(s.drop_first(), k);
    }
}

/// Multiset of values as a sorted association list from value to a positive
/// occurrence count.
#[derive(Debug)]
pub struct ValueCounts {
    entries: Vec<(u64, usize)>,
}

impl ValueCounts {
    pub closed spec fn wf(&self) -> bool {
        &&& entries_sorted(self.entries@)
        &&& forall|i: int| 0 <= i < self.entries@.len() ==> self.entries@[i].1 > 0
    }

    pub closed spec fn count(&self, k: u64) -> nat {
        count_in(self.entries@, k)
    }

    pub fn new() -> (r: Self)
        ensures
            r.wf(),
            forall|k: u64| r.count(k) == 0,
    {
        ValueCounts { entries: Vec::new() }
    }

    /// Index of the first entry whose key is `>= k`, or the length if none.
    fn lower_bound_index(&self, k: u64) -> (r: usize)
        requires
            self.wf(),
        ensures
            r <= self.entries@.len(),
            forall|i: int| 0 <= i < r ==> self.entries@[i].0 < k,
            forall|i: int| r <= i < self.entries@.len() ==> self.entries@[i].0 >= k,
    {
        let mut i: usize = 0;
        while i < self.entries.len()
            invariant
                self.wf(),
                i <= self.entries@.len(),
                forall|j: int| 0 <= j < i ==> self.entries@[j].0 < k,
            decreases self.entries@.len() - i,
        {
            if self.entries[i].0 >= k {
                return i;
            }
            i = i + 1;
        }
        i
    }

    pub fn increment(&mut self, v: u64)
        requires
            old(self).wf(),
            old(self).count(v) < usize::MAX,
        ensures
            final(self).wf(),
            forall|k: u64|
                final(self).count(k) == old(self).count(k) + (if k == v {
                    1nat
                } else {
                    0nat
                }),
    {
        let i = self.lower_bound_index(v);
        let ghost s0 = self.entries@;
        if i < self.entries.len() && self.entries[i].0 == v {
            proof {
                lemma_count_in_at(s0, i as int);
            }
            let c = self.entries[i].1;
            self.entries[i] = (v, c + 1);
            proof {
                let s1 = self.entries@;
                assert forall|k: u64| #![auto]
                    count_in(s1, k) == count_in(s0, k) + (if k == v {
                        1nat
                    } else {
                        0nat
                    }) by {
                    lemma_update_entry_count(s0, i as int, (v, (c + 1) as usize), k);
                }
            }
        } else {
            proof {
                assert forall|j: int| 0 <= j < s0.len() implies s0[j].0 != v by {
                    if j >= i as int && i < s0.len() && j > i as int {
                        assert(s0[i as int].0 < s0[j].0);
                    }
                }
                lemma_count_in_absent(s0, v);
            }
            self.entries.insert(i, (v, 1));
            proof {
                let s1 = self.entries@;
                assert forall|k: u64| #![auto]
                    count_in(s1, k) == count_in(s0, k) + (if k == v {
                        1nat
                    } else {
                        0nat
                    }) by {
                    lemma_insert_entry_count(s0, i as int, (v, 1usize), k);
                }
                assert(entries_sorted(s1)) by {
                    assert(forall|x: int|
                        0 <= x < s1.len() ==> s1[x] == (if x < i as int {
                            s0[x]
                        } else if x == i as int {
                            (v, 1usize)
                        } else {
                            s0[x - 1]
                        }));
                }
            }
        }
    }

    pub fn decrement(&mut self, v: u64)
        requires
            old(self).wf(),
            old(self).count(v) >= 1,
        ensures
            final(self).wf(),
            forall|k: u64|
                final(self).count(k) + (if k == v {
                    1nat
                } else {
                    0nat
                }) == old(self).count(k),
    {
        let i = self.lower_bound_index(v);
        let ghost s0 = self.entries@;
        proof {
            if i as int == s0.len() || s0[i as int].0 != v {
                assert forall|j: int| 0 <= j < s0.len() implies s0[j].0 != v by {
                    if j > i as int {
                        assert(s0[i as int].0 < s0[j].0);
                    }
                }
                lemma_count_in_absent(s0, v);
            }
        }
        let c = self.entries[i].1;
        proof {
            lemma_count_in_at(s0, i as int);
        }
        if c == 1 {
            self.entries.remove(i);
            proof {
                let s1 = self.entries@;
                assert forall|k: u64| #![auto]
                    count_in(s1, k) + (if k == v {
                        1nat
                    } else {
                        0nat
                    }) == count_in(s0, k) by {
                    lemma_remove_entry_count(s0, i as int, k);
                }
                assert(entries_sorted(s1)) by {
                    assert(forall|x: int|
                        0 <= x < s1.len() ==> s1[x] == (if x < i as int {
                            s0[x]
                        } else {
                            s0[x + 1]
                        }));
                }
            }
        } else {
            self.entries[i] = (v, c - 1);
            proof {
                let s1 = self.entries@;
                assert forall|k: u64| #![auto]
                    count_in(s1, k) + (if k == v {
                        1nat
                    } else {
                        0nat
                    }) == count_in(s0, k) by {
                    lemma_update_entry_count(s0, i as int, (v, (c - 1) as usize), k);
                }
            }
        }
    }

    pub fn min_key(&self) -> (r: u64)
        requires
            self.wf(),
            exists|k: u64| self.count(k) > 0,
        ensures
            self.count(r) > 0,
            forall|k: u64| self.count(k) > 0 ==> r <= k,
    {
        proof {
            let k0 = choose|k: u64| self.count(k) > 0;
            if self.entries@.len() == 0 {
                assert(count_in(self.entries@, k0) == 0);
            }
            lemma_count_in_at(self.entries@, 0);
            assert forall|k: u64| self.count(k) > 0 implies self.entries@[0].0 <= k by {
                lemma_count_positive_has_entry(self.entries@, k);
            }
        }
        self.entries[0].0
    }
}

proof fn lemma_count_positive_has_entry(s: Seq<(u64, usize)>, k: u64)
    requires
        count_in(s, k) > 0,
    ensures
        exists|i: int| 0 <= i < s.len() && s[i].0 == k,
    decreases s.len(),
{
    if s.len() > 0 && s[0].0 != k {
        lemma_count_positive_has_entry(s.drop_first(), k);
        let i = choose|i: int| 0 <= i < s.drop_first().len() && s.drop_first()[i].0 == k;
        assert(s[i + 1].0 == k);
    }
}

proof fn lemma_update_entry_count(s: Seq<(u64, usize)>, i: int, e: (u64, usize), k: u64)
    requires
        entries_sorted(s),
        0 <= i < s.len(),
        e.0 == s[i].0,
    ensures
        count_in(s.update(i, e), k) == (if k == e.0 {
            e.1 as nat
        } else {
            count_in(s, k)
        }),
    decreases s.len(),
{
    let s1 = s.update(i, e);
    assert(entries_sorted(s1)) by {
        assert(forall|x: int| 0 <= x < s1.len() ==> s1[x].0 == s[x].0);
    }
    if k == e.0 {
        lemma_count_in_at(s1, i);
    } else if i == 0 {
        assert(s1.drop_first() =~= s.drop_first());
    } else {
        assert(s1.drop_first() =~= s.drop_first().update(i - 1, e));
        assert(entries_sorted(s.drop_first())) by {
            assert(forall|x: int|
                0 <= x < s.drop_first().len() ==> s.drop_first()[x] == s[x + 1]);
        }
        lemma_update_entry_count(s.drop_first(), i - 1, e, k);
    }
}

proof fn lemma_insert_entry_count(s: Seq<(u64, usize)>, i: int, e: (u64, usize), k: u64)
    requires
        0 <= i <= s.len(),
    ensures
        count_in(s.insert(i, e), k) == (if k == e.0 {
            if exists|j: int| 0 <= j < i && s[j].0 == k {
                count_in(s, k)
            } else {
                e.1 as nat
            }
        } else {
            count_in(s, k)
        }),
    decreases s.len(),
{
    let s1 = s.insert(i, e);
    if i == 0 {
        assert(s1[0] == e);
        assert(s1.drop_first() =~= s);
        if k == e.0 {
            assert(count_in(s1, k) == e.1 as nat);
        }
    } else {
        assert(s1[0] == s[0]);
        assert(s1.drop_first() =~= s.drop_first().insert(i - 1, e));
        lemma_insert_entry_count(s.drop_first(), i - 1, e, k);
        if s[0].0 != k && k == e.0 {
            assert((exists|j: int| 0 <= j < i - 1 && s.drop_first()[j].0 == k) <==> (exists|j: int|
                0 <= j < i && s[j].0 == k)) by {
                if exists|j: int| 0 <= j < i - 1 && s.drop_first()[j].0 == k {
                    let j = choose|j: int| 0 <= j < i - 1 && s.drop_first()[j].0 == k;
                    assert(s[j + 1].0 == k);
                }
                if exists|j: int| 0 <= j < i && s[j].0 == k {
                    let j = choose|j: int| 0 <= j < i && s[j].0 == k;
                    assert(j > 0);
                    assert(s.drop_first()[j - 1].0 == k);
                }
            }
        }
    }
}

proof fn lemma_remove_entry_count(s: Seq<(u64, usize)>, i: int, k: u64)
    requires
        entries_sorted(s),
        0 <= i < s.len(),
    ensures
        count_in(s.remove(i), k) == (if k == s[i].0 {
            0nat
        } else {
            count_in(s, k)
        }),
    decreases s.len(),
{
    let s1 = s.remove(i);
    assert(entries_sorted(s1)) by {
        assert(forall|x: int|
            0 <= x < s1.len() ==> s1[x] == (if x < i {
                s[x]
            } else {
                s[x + 1]
            }));
    }
    if k == s[i].0 {
        assert(forall|x: int| 0 <= x < s1.len() ==> s1[x].0 != k);
        lemma_count_in_absent(s1, k);
    } else if i == 0 {
        assert(s1 =~= s.drop_first());
    } else {
        assert(s1.drop_first() =~= s.drop_first().remove(i - 1));
        assert(entries_sorted(s.drop_first())) by {
            assert(forall|x: int|
                0 <= x < s.drop_first().len() ==> s.drop_first()[x] == s[x + 1]);
        }
        lemma_remove_entry_count(s.drop_first(), i - 1, k);
    }
}

/// A vector of marks that tracks its own minimum through a multiset of the
/// current values.
#[derive(Debug)]
pub struct MinVector {
    data: Vec<u64>,
    value_counts: ValueCounts,
}

impl View for MinVector {
    type V = Seq<u64>;

    closed spec fn view(&self) -> Seq<u64> {
        self.data@
    }
}

impl MinVector {
    pub closed spec fn wf(&self) -> bool {
        &&& self.value_counts.wf()
        &&& forall|k: u64| self.value_counts.count(k) == occ(self.data@, k)
    }

    pub fn new(data: Vec<u64>) -> (r: Self)
        ensures
            r.wf(),
            r@ == data@,
    {
        let mut value_counts = ValueCounts::new();
        let mut i: usize = 0;
        while i < data.len()
            invariant
                i <= data@.len(),
                value_counts.wf(),
                forall|k: u64| value_counts.count(k) == occ(data@.take(i as int), k),
            decreases data@.len() - i,
        {
            proof {
                lemma_occ_le_len(data@.take(i as int), data@[i as int]);
            }
            value_counts.increment(data[i]);
            proof {
                assert forall|k: u64| #![auto]
                    occ(data@.take(i + 1), k) == occ(data@.take(i as int), k) + (if data@[i as int]
                        == k {
                        1nat
                    } else {
                        0nat
                    }) by {
                    assert(data@.take(i + 1) =~= data@.take(i as int).push(data@[i as int]));
                    lemma_occ_push(data@.take(i as int), data@[i as int], k);
                }
            }
            i = i + 1;
        }
        proof {
            assert(data@.take(data@.len() as int) =~= data@);
        }
        MinVector { data, value_counts }
    }

    pub fn len(&self) -> (r: usize)
        ensures
            r == self@.len(),
    {
        self.data.len()
    }

    pub fn get(&self, index: usize) -> (r: u64)
        requires
            index < self@.len(),
        ensures
            r == self@[index as int],
    {
        self.data[index]
    }

    pub fn vec(&self) -> (r: &Vec<u64>)
        ensures
            r@ == self@,
    {
        &self.data
    }

    /// Replace the mark at `index`: the count of the old mark goes down by
    /// one and the count of the new mark up by one.
    pub fn set(&mut self, index: usize, value: u64)
        requires
            old(self).wf(),
            index < old(self)@.len(),
        ensures
            final(self).wf(),
            final(self)@ == old(self)@.update(index as int, value),
    {
        let ghost s0 = self.data@;
        let n: usize = self.data.len();
        let old_value = self.data[index];
        proof {
            lemma_occ_contains(s0, old_value);
            assert(s0.contains(old_value)) by {
                assert(s0[index as int] == old_value);
            }
            lemma_occ_le_len(s0, value);
            if value != old_value && occ(s0, value) == n as nat {
                lemma_occ_all_means_equal(s0, value);
                assert(s0[index as int] == value);
                assert(false);
            }
            assert(self.value_counts.count(old_value) == occ(s0, old_value));
            assert(self.value_counts.count(old_value) >= 1);
        }
        self.value_counts.decrement(old_value);
        proof {
            assert(old(self).value_counts.count(value) == occ(s0, value));
            assert(self.value_counts.count(value) + (if value == old_value {
                1nat
            } else {
                0nat
            }) == occ(s0, value));
            assert(self.value_counts.count(value) < usize::MAX);
        }
        self.data[index] = value;
        self.value_counts.increment(value);
        proof {
            assert(self.data@ == s0.update(index as int, value));
            assert forall|k: u64| self.value_counts.count(k) == occ(self.data@, k) by {
                lemma_occ_update(s0, index as int, value, k);
                assert(old(self).value_counts.count(k) == occ(s0, k));
            }
        }
    }

    /// The smallest mark currently held by any rank.
    pub fn min(&self) -> (r: u64)
        requires
            self.wf(),
            self@.len() > 0,
        ensures
            self@.contains(r),
            forall|i: int| 0 <= i < self@.len() ==> r <= self@[i],
    {
        proof {
            assert(self@.contains(self@[0])) by {
                assert(self@[0] == self@[0]);
            }
            lemma_occ_contains(self.data@, self@[0]);
            assert(self.value_counts.count(self@[0]) > 0);
        }
        let r = self.value_counts.min_key();
        proof {
            lemma_occ_contains(self.data@, r);
            assert forall|i: int| 0 <= i < self@.len() implies r <= self@[i] by {
                assert(self@.contains(self@[i]));
                lemma_occ_contains(self.data@, self@[i]);
                assert(self.value_counts.count(self@[i]) > 0);
            }
        }
        r
    }
}

proof fn lemma_occ_push(s: Seq<u64>, v: u64, k: u64)
    ensures
        occ(s.push(v), k) == occ(s, k) + (if v == k {
            1nat
        } else {
            0nat
        }),
    decreases s.len(),
{
    let t = s.push(v);
    assert(t.len() == s.len() + 1);
    assert(occ(t, k) == (if t[0] == k {
        1nat
    } else {
        0nat
    }) + occ(t.drop_first(), k));
    if s.len() == 0 {
        assert(t[0] == v);
        assert(t.drop_first() =~= Seq::<u64>::empty());
        assert(occ(t.drop_first(), k) == 0);
    } else {
        assert(t[0] == s[0]);
        assert(t.drop_first() =~= s.drop_first().push(v));
        lemma_occ_push(s.drop_first(), v, k);
    }
}

/// A value that occurs as many times as the sequence is long fills the whole
/// sequence.
proof fn lemma_occ_all_means_equal(s: Seq<u64>, k: u64)
    requires
        occ(s, k) == s.len(),
    ensures
        forall|i: int| 0 <= i < s.len() ==> s[i] == k,
    decreases s.len(),
{
    if s.len() > 0 {
        lemma_occ_le_len(s.drop_first(), k);
        lemma_occ_all_means_equal(s.drop_first(), k);
        assert(forall|i: int| 1 <= i < s.len() ==> s[i] == s.drop_first()[i - 1]);
    }
}

} // verus!
