//! Sorted, duplicate-free sequences of day positions: the mathematical
//! model of one (entity, day) partition, with the set operations the
//! scoring code performs on it and the gap-hour measure.

use vstd::prelude::*;

verus! {

/// Strictly increasing: sorted and free of duplicates.
pub open spec fn strictly_sorted(s: Seq<u8>) -> bool {
    forall|i: int, j: int| 0 <= i < j < s.len() ==> s[i] < s[j]
}

/// Gap-hours of a sorted, duplicate-free position sequence: the number of
/// positions strictly between the first and the last that are not present.
pub open spec fn gap_spec(s: Seq<u8>) -> int {
    if s.len() < 2 {
        0
    } else {
        s.last() - s.first() + 1 - s.len()
    }
}

/// Insert `p` into a sorted, duplicate-free sequence, keeping it so.
pub open spec fn sorted_insert(s: Seq<u8>, p: u8) -> Seq<u8>
    decreases s.len(),
{
    if s.len() == 0 {
        seq![p]
    } else if p < s[0] {
        seq![p] + s
    } else if p == s[0] {
        s
    } else {
        seq![s[0]] + sorted_insert(s.drop_first(), p)
    }
}

/// Remove `p` from a sorted, duplicate-free sequence (no-op when absent).
pub open spec fn sorted_remove(s: Seq<u8>, p: u8) -> Seq<u8>
    decreases s.len(),
{
    if s.len() == 0 {
        s
    } else if s[0] == p {
        s.drop_first()
    } else {
        seq![s[0]] + sorted_remove(s.drop_first(), p)
    }
}

/// In a strictly sorted sequence the span covers every element.
pub proof fn lemma_sorted_span(s: Seq<u8>)
    requires
        strictly_sorted(s),
        s.len() >= 1,
    ensures
        s.last() - s.first() + 1 >= s.len(),
        s.first() <= s.last(),
        s.len() <= 256,
    decreases s.len(),
{
    if s.len() > 1 {
        let t = s.drop_last();
        lemma_sorted_span(t);
        assert(t.last() == s[s.len() - 2]);
        assert(s[s.len() - 2] < s[s.len() - 1]);
    }
}

/// Facts about `sorted_insert` on a strictly sorted sequence.
pub proof fn lemma_sorted_insert(s: Seq<u8>, p: u8)
    requires
        strictly_sorted(s),
    ensures
        strictly_sorted(sorted_insert(s, p)),
        forall|x: u8| sorted_insert(s, p).contains(x) <==> (s.contains(x) || x == p),
        sorted_insert(s, p).len() == if s.contains(p) { s.len() } else { s.len() + 1 },
        s.len() > 0 ==> sorted_insert(s, p).first() == (if p < s.first() { p } else { s.first() }),
        s.len() > 0 ==> sorted_insert(s, p).last() == (if p > s.last() { p } else { s.last() }),
        s.len() == 0 ==> sorted_insert(s, p) == seq![p],
    decreases s.len(),
{
    let r = sorted_insert(s, p);
    if s.len() == 0 {
        assert(r =~= seq![p]);
        assert forall|x: u8| r.contains(x) <==> (s.contains(x) || x == p) by {
            if r.contains(x) {
                assert(r[0] == p);
            }
            if x == p {
                assert(r[0] == x);
            }
        }
    } else if p < s[0] {
        assert forall|i: int, j: int| 0 <= i < j < r.len() implies r[i] < r[j] by {
            if i == 0 {
                assert(r[j] == s[j - 1]);
                assert(s[0] <= s[j - 1]);
            } else {
                assert(r[i] == s[i - 1] && r[j] == s[j - 1]);
            }
        }
        assert forall|x: u8| r.contains(x) <==> (s.contains(x) || x == p) by {
            if r.contains(x) {
                let i = choose|i: int| 0 <= i < r.len() && r[i] == x;
                if i > 0 {
                    assert(s[i - 1] == x);
                }
            }
            if s.contains(x) {
                let i = choose|i: int| 0 <= i < s.len() && s[i] == x;
                assert(r[i + 1] == x);
            }
            if x == p {
                assert(r[0] == x);
            }
        }
        assert(!s.contains(p)) by {
            if s.contains(p) {
                let i = choose|i: int| 0 <= i < s.len() && s[i] == p;
                assert(s[0] <= s[i]);
            }
        }
        assert(r.last() == s.last());
        if p > s.last() {
            assert(s[0] <= s[s.len() - 1]);
        }
    } else if p == s[0] {
        assert(s.contains(p));
        if p > s.last() {
            assert(s[0] <= s[s.len() - 1]);
        }
    } else {
        let t = s.drop_first();
        assert(strictly_sorted(t)) by {
            assert forall|i: int, j: int| 0 <= i < j < t.len() implies t[i] < t[j] by {
                assert(t[i] == s[i + 1] && t[j] == s[j + 1]);
            }
        }
        lemma_sorted_insert(t, p);
        let rt = sorted_insert(t, p);
        assert(r == seq![s[0]] + rt);
        assert forall|x: u8| r.contains(x) <==> (s.contains(x) || x == p) by {
            if r.contains(x) {
                let i = choose|i: int| 0 <= i < r.len() && r[i] == x;
                if i == 0 {
                    assert(s[0] == x);
                } else {
                    assert(rt[i - 1] == x);
                    assert(rt.contains(x));
                    if t.contains(x) {
                        let k = choose|k: int| 0 <= k < t.len() && t[k] == x;
                        assert(s[k + 1] == x);
                    }
                }
            }
            if s.contains(x) {
                let i = choose|i: int| 0 <= i < s.len() && s[i] == x;
                if i == 0 {
                    assert(r[0] == x);
                } else {
                    assert(t[i - 1] == x);
                    assert(t.contains(x));
                    assert(rt.contains(x));
                    let k = choose|k: int| 0 <= k < rt.len() && rt[k] == x;
                    assert(r[k + 1] == x);
                }
            }
            if x == p {
                assert(rt.contains(x));
                let k = choose|k: int| 0 <= k < rt.len() && rt[k] == x;
                assert(r[k + 1] == x);
            }
        }
        assert forall|i: int, j: int| 0 <= i < j < r.len() implies r[i] < r[j] by {
            if i == 0 {
                assert(r[j] == rt[j - 1]);
                assert(rt.contains(rt[j - 1]));
                if t.contains(rt[j - 1]) {
                    let k = choose|k: int| 0 <= k < t.len() && t[k] == rt[j - 1];
                    assert(s[0] < s[k + 1]);
                }
            } else {
                assert(r[i] == rt[i - 1] && r[j] == rt[j - 1]);
            }
        }
        assert(s.contains(p) <==> t.contains(p)) by {
            if s.contains(p) {
                let i = choose|i: int| 0 <= i < s.len() && s[i] == p;
                assert(i != 0);
                assert(t[i - 1] == p);
            }
            if t.contains(p) {
                let i = choose|i: int| 0 <= i < t.len() && t[i] == p;
                assert(s[i + 1] == p);
            }
        }
        if t.len() > 0 {
            assert(r.last() == rt.last());
            assert(t.last() == s.last());
        } else {
            assert(rt == seq![p]);
            assert(s.len() == 1);
        }
    }
}

/// Facts about `sorted_remove` on a strictly sorted sequence.
#[verifier::rlimit(40)]
pub proof fn lemma_sorted_remove(s: Seq<u8>, p: u8)
    requires
        strictly_sorted(s),
    ensures
        strictly_sorted(sorted_remove(s, p)),
        forall|x: u8| sorted_remove(s, p).contains(x) <==> (s.contains(x) && x != p),
        sorted_remove(s, p).len() == if s.contains(p) { s.len() - 1 } else { s.len() as int },
        !s.contains(p) ==> sorted_remove(s, p) == s,
        s.contains(p) && s.len() >= 2 ==> sorted_remove(s, p).first() == (if s[0] == p { s[1] } else { s[0] }),
        s.contains(p) && s.len() >= 2 ==> sorted_remove(s, p).last() == (if s.last() == p { s[s.len() - 2] } else { s.last() }),
    decreases s.len(),
{
    let r = sorted_remove(s, p);
    if s.len() == 0 {
    } else if s[0] == p {
        assert(r == s.drop_first());
        assert forall|i: int, j: int| 0 <= i < j < r.len() implies r[i] < r[j] by {
            assert(r[i] == s[i + 1] && r[j] == s[j + 1]);
        }
        assert forall|x: u8| r.contains(x) <==> (s.contains(x) && x != p) by {
            if r.contains(x) {
                let i = choose|i: int| 0 <= i < r.len() && r[i] == x;
                assert(s[i + 1] == x);
                assert(s[0] < s[i + 1]);
            }
            if s.contains(x) && x != p {
                let i = choose|i: int| 0 <= i < s.len() && s[i] == x;
                assert(r[i - 1] == x);
            }
        }
        assert(s.contains(p)) by {
            assert(s[0] == p);
        }
        if s.len() >= 2 {
            assert(r.last() == s.last());
            if s.last() == p {
                assert(s[0] < s[s.len() - 1]);
            }
        }
    } else {
        let t = s.drop_first();
        assert(strictly_sorted(t)) by {
            assert forall|i: int, j: int| 0 <= i < j < t.len() implies t[i] < t[j] by {
                assert(t[i] == s[i + 1] && t[j] == s[j + 1]);
            }
        }
        lemma_sorted_remove(t, p);
        let rt = sorted_remove(t, p);
        assert(r == seq![s[0]] + rt);
        assert(s.contains(p) <==> t.contains(p)) by {
            if s.contains(p) {
                let i = choose|i: int| 0 <= i < s.len() && s[i] == p;
                assert(i != 0);
                assert(t[i - 1] == p);
            }
            if t.contains(p) {
                let i = choose|i: int| 0 <= i < t.len() && t[i] == p;
                assert(s[i + 1] == p);
            }
        }
        assert forall|x: u8| r.contains(x) <==> (s.contains(x) && x != p) by {
            if r.contains(x) {
                let i = choose|i: int| 0 <= i < r.len() && r[i] == x;
                if i == 0 {
                    assert(s[0] == x);
                } else {
                    assert(rt[i - 1] == x);
                    assert(rt.contains(x));
                    assert(t.contains(x));
                    let k = choose|k: int| 0 <= k < t.len() && t[k] == x;
                    assert(s[k + 1] == x);
                }
            }
            if s.contains(x) && x != p {
                let i = choose|i: int| 0 <= i < s.len() && s[i] == x;
                if i == 0 {
                    assert(r[0] == x);
                } else {
                    assert(t[i - 1] == x);
                    assert(t.contains(x));
                    assert(rt.contains(x));
                    let k = choose|k: int| 0 <= k < rt.len() && rt[k] == x;
                    assert(r[k + 1] == x);
                }
            }
        }
        assert forall|i: int, j: int| 0 <= i < j < r.len() implies r[i] < r[j] by {
            if i == 0 {
                assert(r[j] == rt[j - 1]);
                assert(rt.contains(rt[j - 1]));
                assert(t.contains(rt[j - 1]));
                let k = choose|k: int| 0 <= k < t.len() && t[k] == rt[j - 1];
                assert(s[0] < s[k + 1]);
            } else {
                assert(r[i] == rt[i - 1] && r[j] == rt[j - 1]);
            }
        }
        if !s.contains(p) {
            assert(r =~= s);
        }
        if s.contains(p) && s.len() >= 2 {
            assert(t.len() >= 1);
            if t.len() >= 2 {
                assert(rt.len() >= 1);
                assert(r.last() == rt.last());
                assert(t.last() == s.last());
                assert(t[t.len() - 2] == s[s.len() - 2]);
            } else {
                assert(t[0] == p);
                assert(rt.len() == 0);
                assert(r =~= seq![s[0]]);
            }
        }
    }
}

/// Index of the first element that is not below `p` (the length when
/// every element is below `p`).
pub fn lower_bound(v: &[u8], p: u8) -> (i: usize)
    requires
        strictly_sorted(v@),
    ensures
        i <= v@.len(),
        forall|k: int| 0 <= k < i ==> v@[k] < p,
        i < v@.len() ==> v@[i as int] >= p,
        v@.contains(p) <==> (i < v@.len() && v@[i as int] == p),
{
    let mut lo: usize = 0;
    let mut hi: usize = v.len();
    while lo < hi
        invariant
            lo <= hi <= v@.len(),
            strictly_sorted(v@),
            forall|k: int| 0 <= k < lo ==> v@[k] < p,
            forall|k: int| hi <= k < v@.len() ==> v@[k] >= p,
        decreases hi - lo,
    {
        let mid = lo + (hi - lo) / 2;
        if v[mid] < p {
            lo = mid + 1;
        } else {
            hi = mid;
        }
    }
    proof {
        if v@.contains(p) {
            let k = choose|k: int| 0 <= k < v@.len() && v@[k] == p;
            if k > lo as int {
                assert(v@[lo as int] < v@[k]);
            }
        }
    }
    lo
}

/// Bridge between `sorted_insert` and the vector insertion at the lower
/// bound.
pub proof fn lemma_sorted_insert_at(s: Seq<u8>, p: u8, i: int)
    requires
        strictly_sorted(s),
        0 <= i <= s.len(),
        forall|k: int| 0 <= k < i ==> s[k] < p,
        i < s.len() ==> s[i] >= p,
    ensures
        sorted_insert(s, p) == (if i < s.len() && s[i] == p { s } else { s.insert(i, p) }),
    decreases s.len(),
{
    if s.len() == 0 {
        assert(s.insert(i, p) =~= seq![p]);
    } else if p < s[0] {
        assert(i == 0);
        assert(s.insert(0, p) =~= seq![p] + s);
    } else if p == s[0] {
        assert(i == 0);
    } else {
        assert(i >= 1);
        let t = s.drop_first();
        assert(strictly_sorted(t)) by {
            assert forall|a: int, b: int| 0 <= a < b < t.len() implies t[a] < t[b] by {
                assert(t[a] == s[a + 1] && t[b] == s[b + 1]);
            }
        }
        lemma_sorted_insert_at(t, p, i - 1);
        if i < s.len() && s[i] == p {
            assert(t[i - 1] == p);
            assert(seq![s[0]] + t =~= s);
        } else {
            assert(seq![s[0]] + t.insert(i - 1, p) =~= s.insert(i, p));
        }
    }
}

/// Insert `p` into the sorted, duplicate-free vector `v`.
pub fn insert_sorted(v: &mut Vec<u8>, p: u8)
    requires
        strictly_sorted(old(v)@),
    ensures
        final(v)@ == sorted_insert(old(v)@, p),
        strictly_sorted(final(v)@),
{
    let i = lower_bound(v.as_slice(), p);
    proof {
        lemma_sorted_insert_at(v@, p, i as int);
        lemma_sorted_insert(v@, p);
    }
    if i < v.len() && v[i] == p {
    } else {
        v.insert(i, p);
    }
}


/// Bridge between `sorted_remove` and the vector removal at the lower
/// bound.
pub proof fn lemma_sorted_remove_at(s: Seq<u8>, p: u8, i: int)
    requires
        strictly_sorted(s),
        0 <= i <= s.len(),
        forall|k: int| 0 <= k < i ==> s[k] < p,
        i < s.len() ==> s[i] >= p,
    ensures
        sorted_remove(s, p) == (if i < s.len() && s[i] == p { s.remove(i) } else { s }),
    decreases s.len(),
{
    if s.len() == 0 {
    } else if s[0] == p {
        assert(i == 0);
        assert(s.remove(0) =~= s.drop_first());
    } else {
        let t = s.drop_first();
        assert(strictly_sorted(t)) by {
            assert forall|a: int, b: int| 0 <= a < b < t.len() implies t[a] < t[b] by {
                assert(t[a] == s[a + 1] && t[b] == s[b + 1]);
            }
        }
        if i == 0 {
            assert(s[0] > p);
            assert forall|k: int| 0 <= k < t.len() implies t[k] != p by {
                assert(t[k] == s[k + 1]);
                assert(s[0] < s[k + 1]);
            }
            lemma_sorted_remove_absent(t, p);
            assert(seq![s[0]] + t =~= s);
        } else {
            lemma_sorted_remove_at(t, p, i - 1);
            if i < s.len() && s[i] == p {
                assert(t[i - 1] == p);
                assert(seq![s[0]] + t.remove(i - 1) =~= s.remove(i));
            } else {
                assert(seq![s[0]] + t =~= s);
            }
        }
    }
}

proof fn lemma_sorted_remove_absent(s: Seq<u8>, p: u8)
    requires
        forall|k: int| 0 <= k < s.len() ==> s[k] != p,
    ensures
        sorted_remove(s, p) == s,
    decreases s.len(),
{
    if s.len() > 0 {
        let t = s.drop_first();
        assert forall|k: int| 0 <= k < t.len() implies t[k] != p by {
            assert(t[k] == s[k + 1]);
        }
        lemma_sorted_remove_absent(t, p);
        assert(seq![s[0]] + t =~= s);
    }
}

/// Remove `p` from the sorted, duplicate-free vector `v`.
pub fn remove_sorted(v: &mut Vec<u8>, p: u8)
    requires
        strictly_sorted(old(v)@),
    ensures
        final(v)@ == sorted_remove(old(v)@, p),
        strictly_sorted(final(v)@),
{
    let i = lower_bound(v.as_slice(), p);
    proof {
        lemma_sorted_remove_at(v@, p, i as int);
        lemma_sorted_remove(v@, p);
    }
    if i < v.len() && v[i] == p {
        v.remove(i);
    }
}

} // verus!
