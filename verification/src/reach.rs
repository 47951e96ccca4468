//! Reachability along dependency edges of the live ledger. Invocation `b`
//! depends on invocation `a` when `b` appears among `a`'s users; failure
//! propagation must reach every live invocation connected to the failing one
//! by a chain of such edges through live entries.

use vstd::prelude::*;

use crate::invocation::Invocation;

verus! {

/// A non-empty chain of live ledger entries in which each entry lists the
/// next as a user.
pub open spec fn is_live_path(m: Map<u64, Invocation>, p: Seq<u64>) -> bool {
    &&& p.len() > 0
    &&& (forall|i: int| 0 <= i < p.len() ==> m.contains_key(#[trigger] p[i]))
    &&& (forall|i: int| 0 <= i < p.len() - 1 ==> m[#[trigger] p[i]].users@.contains(p[i + 1]))
}

/// Invocation `b` is `a` itself or a direct or transitive dependent of `a`,
/// connected through live entries.
pub open spec fn reachable(m: Map<u64, Invocation>, a: u64, b: u64) -> bool {
    exists|p: Seq<u64>| is_live_path(m, p) && p.first() == a && p.last() == b
}

pub proof fn lemma_reachable_refl(m: Map<u64, Invocation>, a: u64)
    requires
        m.contains_key(a),
    ensures
        reachable(m, a, a),
{
    let p = seq![a];
    assert(is_live_path(m, p));
    assert(p.first() == a && p.last() == a);
}

pub proof fn lemma_reachable_step(m: Map<u64, Invocation>, a: u64, b: u64, c: u64)
    requires
        reachable(m, a, b),
        m[b].users@.contains(c),
        m.contains_key(c),
    ensures
        reachable(m, a, c),
{
    let p = choose|p: Seq<u64>| is_live_path(m, p) && p.first() == a && p.last() == b;
    let q = p.push(c);
    assert(is_live_path(m, q)) by {
        assert(forall|i: int| 0 <= i < p.len() ==> q[i] == p[i]);
        assert(q[q.len() - 1] == c);
        assert forall|i: int| 0 <= i < q.len() - 1 implies m[#[trigger] q[i]].users@.contains(
            q[i + 1],
        ) by {
            if i < p.len() - 1 {
                assert(m[p[i]].users@.contains(p[i + 1]));
            } else {
                assert(q[i] == b && q[i + 1] == c);
            }
        }
    }
    assert(q.first() == a && q.last() == c);
}

/// Everything reachable from a member of a set that is closed under the
/// dependency edges of `m` is itself a member.
pub proof fn lemma_reachable_in_closed(m: Map<u64, Invocation>, s: Set<u64>, a: u64, b: u64)
    requires
        s.contains(a),
        reachable(m, a, b),
        forall|x: u64, u: u64|
            s.contains(x) && m.contains_key(x) && #[trigger] m[x].users@.contains(u)
                ==> s.contains(u),
    ensures
        s.contains(b),
{
    let p = choose|p: Seq<u64>| is_live_path(m, p) && p.first() == a && p.last() == b;
    lemma_path_end_in_closed(m, s, p);
}

/// Everything the propagation walk may place on its queue: the starting
/// sequence itself, or a user named by some invocation reachable from it.
pub open spec fn enqueued_from(m: Map<u64, Invocation>, start: u64, x: u64) -> bool {
    x == start || exists|s: u64| #[trigger] reachable(m, start, s) && m[s].users@.contains(x)
}

/// A live enqueued sequence is reachable.
pub proof fn lemma_enqueued_live_reachable(m: Map<u64, Invocation>, start: u64, x: u64)
    requires
        enqueued_from(m, start, x),
        m.contains_key(x),
    ensures
        reachable(m, start, x),
{
    if x == start {
        lemma_reachable_refl(m, x);
    } else {
        let s = choose|s: u64| #[trigger] reachable(m, start, s) && m[s].users@.contains(x);
        lemma_reachable_step(m, start, s, x);
    }
}

/// Both ends of a reachability chain are live.
pub proof fn lemma_reachable_live(m: Map<u64, Invocation>, a: u64, b: u64)
    requires
        reachable(m, a, b),
    ensures
        m.contains_key(a),
        m.contains_key(b),
{
    let p = choose|p: Seq<u64>| is_live_path(m, p) && p.first() == a && p.last() == b;
    assert(m.contains_key(p[0]));
    assert(m.contains_key(p[p.len() - 1]));
}

pub proof fn lemma_push_contains(vs: Seq<u64>, s: u64, x: u64)
    ensures
        vs.push(s).contains(x) <==> vs.contains(x) || x == s,
{
    if vs.contains(x) {
        let j = choose|j: int| 0 <= j < vs.len() && vs[j] == x;
        assert(vs.push(s)[j] == x);
    }
    if x == s {
        assert(vs.push(s)[vs.len() as int] == x);
    }
    if vs.push(s).contains(x) {
        let j = choose|j: int| 0 <= j < vs.push(s).len() && vs.push(s)[j] == x;
        if j < vs.len() {
            assert(vs[j] == x);
        }
    }
}

pub proof fn lemma_drop_last_contains(q: Seq<u64>, x: u64)
    requires
        q.len() > 0,
        q.contains(x),
        x != q.last(),
    ensures
        q.drop_last().contains(x),
{
    let j = choose|j: int| 0 <= j < q.len() && q[j] == x;
    assert(j != q.len() - 1);
    assert(q.drop_last()[j] == x);
}

proof fn lemma_path_end_in_closed(m: Map<u64, Invocation>, s: Set<u64>, p: Seq<u64>)
    requires
        is_live_path(m, p),
        s.contains(p.first()),
        forall|x: u64, u: u64|
            s.contains(x) && m.contains_key(x) && #[trigger] m[x].users@.contains(u)
                ==> s.contains(u),
    ensures
        s.contains(p.last()),
    decreases p.len(),
{
    if p.len() > 1 {
        let q = p.drop_last();
        assert(is_live_path(m, q)) by {
            assert(forall|i: int| 0 <= i < q.len() ==> q[i] == p[i]);
        }
        lemma_path_end_in_closed(m, s, q);
        assert(m[p[p.len() - 2]].users@.contains(p[p.len() - 1]));
        assert(q.last() == p[p.len() - 2]);
    }
}

} // verus!
