//! Finite sums of integers, the arithmetic under every total in the wizard.

use vstd::prelude::*;

verus! {

/// The sum of the entries of `s`.
pub open spec fn total(s: Seq<int>) -> int
    decreases s.len(),
{
    if s.len() == 0 {
        0
    } else {
        total(s.drop_last()) + s.last()
    }
}

/// Replacing one entry changes the sum by the difference of the two entries.
pub proof fn lemma_total_update(s: Seq<int>, k: int, v: int)
    requires
        0 <= k < s.len(),
    ensures
        total(s.update(k, v)) == total(s) - s[k] + v,
    decreases s.len(),
{
    let t = s.update(k, v);
    if k == s.len() - 1 {
        assert(t.drop_last() =~= s.drop_last());
    } else {
        assert(t.drop_last() =~= s.drop_last().update(k, v));
        lemma_total_update(s.drop_last(), k, v);
    }
}

/// Appending an entry adds it.
pub proof fn lemma_total_push(s: Seq<int>, v: int)
    ensures
        total(s.push(v)) == total(s) + v,
{
    assert(s.push(v).drop_last() =~= s);
}

/// The sum of a longer prefix adds the next entry.
pub proof fn lemma_total_take(s: Seq<int>, k: int)
    requires
        0 <= k < s.len(),
    ensures
        total(s.take(k + 1)) == total(s.take(k)) + s[k],
{
    assert(s.take(k + 1).drop_last() =~= s.take(k));
}

/// Two sequences that are ordered entry by entry are ordered by their sums.
pub proof fn lemma_total_le(s: Seq<int>, t: Seq<int>)
    requires
        s.len() == t.len(),
        forall|i: int| 0 <= i < s.len() ==> s[i] <= #[trigger] t[i],
    ensures
        total(s) <= total(t),
    decreases s.len(),
{
    if s.len() > 0 {
        assert forall|i: int| 0 <= i < s.drop_last().len() implies s.drop_last()[i]
            <= #[trigger] t.drop_last()[i] by {
            assert(s[i] <= t[i]);
        }
        lemma_total_le(s.drop_last(), t.drop_last());
    }
}

/// A sum of entries between `0` and `cap` lies between `0` and `cap` times the count,
/// and is at least any single entry.
pub proof fn lemma_total_bounds(s: Seq<int>, cap: int)
    requires
        forall|i: int| 0 <= i < s.len() ==> 0 <= #[trigger] s[i] <= cap,
    ensures
        0 <= total(s) <= cap * s.len(),
        forall|i: int| 0 <= i < s.len() ==> #[trigger] s[i] <= total(s),
    decreases s.len(),
{
    if s.len() > 0 {
        let p = s.drop_last();
        assert forall|i: int| 0 <= i < p.len() implies 0 <= #[trigger] p[i] <= cap by {
            assert(0 <= s[i] <= cap);
        }
        lemma_total_bounds(p, cap);
        assert(cap * s.len() == cap * p.len() + cap) by (nonlinear_arith)
            requires
                s.len() == p.len() + 1,
        ;
        assert forall|i: int| 0 <= i < s.len() implies #[trigger] s[i] <= total(s) by {
            if i < p.len() {
                assert(p[i] <= total(p));
            }
        }
    }
}

/// A sum of zeros is zero.
pub proof fn lemma_total_zero(s: Seq<int>)
    requires
        forall|i: int| 0 <= i < s.len() ==> #[trigger] s[i] == 0,
    ensures
        total(s) == 0,
    decreases s.len(),
{
    if s.len() > 0 {
        assert forall|i: int| 0 <= i < s.drop_last().len() implies #[trigger] s.drop_last()[i]
            == 0 by {
            assert(s[i] == 0);
        }
        lemma_total_zero(s.drop_last());
    }
}

/// The sum of `n` ones is `n`.
pub proof fn lemma_total_ones(n: nat)
    ensures
        total(Seq::new(n, |i: int| 1int)) == n,
    decreases n,
{
    let s = Seq::new(n, |i: int| 1int);
    if n > 0 {
        assert(s.drop_last() =~= Seq::new((n - 1) as nat, |i: int| 1int));
        lemma_total_ones((n - 1) as nat);
    }
}

/// Sums of two sequences, entry by entry, add up.
pub proof fn lemma_total_add(s: Seq<int>, a: Seq<int>, b: Seq<int>)
    requires
        s.len() == a.len() == b.len(),
        forall|i: int| 0 <= i < s.len() ==> #[trigger] s[i] == a[i] + b[i],
    ensures
        total(s) == total(a) + total(b),
    decreases s.len(),
{
    if s.len() > 0 {
        let t = s.drop_last();
        assert forall|i: int| 0 <= i < t.len() implies #[trigger] t[i] == a.drop_last()[i]
            + b.drop_last()[i] by {
            assert(s[i] == a[i] + b[i]);
        }
        lemma_total_add(t, a.drop_last(), b.drop_last());
    }
}

} // verus!
