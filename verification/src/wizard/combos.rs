//! Sets of stores of a given size, in lexicographic order.

use vstd::prelude::*;

verus! {

/// The ways to extend `prefix` by `k` candidates from position `from` on, in
/// lexicographic order of their positions.
pub open spec fn subsets(cands: Seq<usize>, prefix: Seq<usize>, k: nat, from: nat) -> Seq<Seq<usize>>
    decreases k, cands.len() - from,
{
    if k == 0 {
        seq![prefix]
    } else if from >= cands.len() {
        Seq::empty()
    } else {
        subsets(cands, prefix.push(cands[from as int]), (k - 1) as nat, from + 1) + subsets(
            cands,
            prefix,
            k,
            from + 1,
        )
    }
}

/// The number of ways to pick `k` of `n`.
pub open spec fn binomial(n: nat, k: nat) -> nat
    decreases n,
{
    if k == 0 {
        1
    } else if n == 0 {
        0
    } else {
        binomial((n - 1) as nat, (k - 1) as nat) + binomial((n - 1) as nat, k)
    }
}

/// Neighbouring binomials in a row of Pascal's triangle.
pub proof fn lemma_binomial_step(n: nat, k: nat)
    requires
        k <= n,
    ensures
        (k + 1) * binomial(n, k + 1) == (n - k) * binomial(n, k),
    decreases n,
{
    if n > 0 {
        let m = (n - 1) as nat;
        let b = binomial(m, k) as int;
        if k < n {
            lemma_binomial_step(m, k);
        } else {
            lemma_binomial_zero(m, k);
            lemma_binomial_zero(m, k + 1);
        }
        assert((k + 1) * binomial(n, k + 1) == n * b) by (nonlinear_arith)
            requires
                binomial(n, k + 1) == b + binomial(m, k + 1),
                (k + 1) * binomial(m, k + 1) == (m - k) * b,
                m == n - 1,
        ;
        if k > 0 {
            let j = (k - 1) as nat;
            lemma_binomial_step(m, j);
            assert((n - k) * binomial(n, k) == n * b) by (nonlinear_arith)
                requires
                    binomial(n, k) == binomial(m, j) + b,
                    (j + 1) * b == (m - j) * binomial(m, j),
                    m == n - 1,
                    j == k - 1,
            ;
        } else {
            assert((n - k) * binomial(n, k) == n * b) by (nonlinear_arith)
                requires
                    k == 0,
                    binomial(n, k) == 1,
                    b == 1,
            ;
        }
    } else {
        lemma_binomial_zero(n, k + 1);
    }
}

/// No set is larger than what it is picked from.
pub proof fn lemma_binomial_zero(n: nat, k: nat)
    requires
        k > n,
    ensures
        binomial(n, k) == 0,
    decreases n,
{
    if n > 0 {
        lemma_binomial_zero((n - 1) as nat, (k - 1) as nat);
        lemma_binomial_zero((n - 1) as nat, k);
    }
}

/// There are as many sets of `k` candidates as the binomial says.
pub proof fn law_subsets_count(cands: Seq<usize>, prefix: Seq<usize>, k: nat, from: nat)
    requires
        from <= cands.len(),
    ensures
        subsets(cands, prefix, k, from).len() == binomial((cands.len() - from) as nat, k),
    decreases k, cands.len() - from,
{
    if k > 0 && from < cands.len() {
        law_subsets_count(cands, prefix.push(cands[from as int]), (k - 1) as nat, from + 1);
        law_subsets_count(cands, prefix, k, from + 1);
    }
}

/// Strictly ascending positions between `from` and `n`.
pub open spec fn picks(positions: Seq<int>, from: int, n: int) -> bool {
    &&& forall|i: int| 0 <= i < positions.len() ==> from <= #[trigger] positions[i] < n
    &&& forall|i: int, j: int|
        0 <= i < j < positions.len() ==> #[trigger] positions[i] < #[trigger] positions[j]
}

/// Every pick of `k` positions is among the subsets.
pub proof fn law_subsets_complete(
    cands: Seq<usize>,
    prefix: Seq<usize>,
    from: nat,
    positions: Seq<int>,
)
    requires
        picks(positions, from as int, cands.len() as int),
    ensures
        subsets(cands, prefix, positions.len(), from).contains(
            prefix + positions.map_values(|i: int| cands[i]),
        ),
    decreases positions.len(), cands.len() - from,
{
    let all = subsets(cands, prefix, positions.len(), from);
    let want = prefix + positions.map_values(|i: int| cands[i]);
    if positions.len() == 0 {
        assert(want =~= prefix);
        assert(all[0] == want);
    } else {
        assert(positions[0] < cands.len());
        let k1 = (positions.len() - 1) as nat;
        let with = subsets(cands, prefix.push(cands[from as int]), k1, from + 1);
        let without = subsets(cands, prefix, positions.len(), from + 1);
        if positions[0] == from {
            let tail = positions.skip(1);
            law_subsets_complete(cands, prefix.push(cands[from as int]), from + 1, tail);
            assert(prefix.push(cands[from as int]) + tail.map_values(|i: int| cands[i]) =~= want);
            let i = choose|i: int| 0 <= i < with.len() && with[i] == want;
            assert(all[i] == want);
        } else {
            assert forall|i: int| 0 <= i < positions.len() implies from + 1 <= #[trigger] positions[i] by {
                if i > 0 {
                    assert(positions[0] < positions[i]);
                }
            }
            law_subsets_complete(cands, prefix, from + 1, positions);
            let i = choose|i: int| 0 <= i < without.len() && without[i] == want;
            assert(all[with.len() + i] == want);
        }
    }
}

/// Too few candidates are left for a pick.
pub proof fn lemma_subsets_none(cands: Seq<usize>, prefix: Seq<usize>, k: nat, from: nat)
    requires
        from <= cands.len(),
        k > cands.len() - from,
    ensures
        subsets(cands, prefix, k, from).len() == 0,
{
    law_subsets_count(cands, prefix, k, from);
    lemma_binomial_zero((cands.len() - from) as nat, k);
}

/// Every subset starts with one of the candidates that leave enough others.
pub proof fn lemma_subsets_first(
    cands: Seq<usize>,
    prefix: Seq<usize>,
    k: nat,
    from: nat,
    s: Seq<usize>,
) -> (a: nat)
    requires
        k > 0,
        from <= cands.len(),
        subsets(cands, prefix, k, from).contains(s),
    ensures
        from <= a <= cands.len() - k,
        subsets(cands, prefix.push(cands[a as int]), (k - 1) as nat, a + 1).contains(s),
    decreases cands.len() - from,
{
    let all = subsets(cands, prefix, k, from);
    let i = choose|i: int| 0 <= i < all.len() && all[i] == s;
    if k > cands.len() - from {
        lemma_subsets_none(cands, prefix, k, from);
        from
    } else {
        let with = subsets(cands, prefix.push(cands[from as int]), (k - 1) as nat, from + 1);
        let without = subsets(cands, prefix, k, from + 1);
        if i < with.len() {
            assert(with[i] == s);
            from
        } else {
            assert(without[i - with.len()] == s);
            lemma_subsets_first(cands, prefix, k, from + 1, s)
        }
    }
}

/// Subsets extend the prefix by `k` candidates.
pub proof fn lemma_subsets_members(
    cands: Seq<usize>,
    prefix: Seq<usize>,
    k: nat,
    from: nat,
    s: Seq<usize>,
)
    requires
        subsets(cands, prefix, k, from).contains(s),
    ensures
        s.len() == prefix.len() + k,
        forall|p: int|
            0 <= p < s.len() ==> prefix.contains(#[trigger] s[p]) || cands.contains(s[p]),
    decreases k, cands.len() - from,
{
    let all = subsets(cands, prefix, k, from);
    let i = choose|i: int| 0 <= i < all.len() && all[i] == s;
    if k == 0 {
        assert(s == prefix);
    } else if from < cands.len() {
        let longer = prefix.push(cands[from as int]);
        let with = subsets(cands, longer, (k - 1) as nat, from + 1);
        let without = subsets(cands, prefix, k, from + 1);
        if i < with.len() {
            assert(with[i] == s);
            lemma_subsets_members(cands, longer, (k - 1) as nat, from + 1, s);
            assert forall|p: int| 0 <= p < s.len() implies prefix.contains(#[trigger] s[p])
                || cands.contains(s[p]) by {
                if longer.contains(s[p]) {
                    let j = choose|j: int| 0 <= j < longer.len() && longer[j] == s[p];
                    if j < prefix.len() {
                        assert(prefix[j] == s[p]);
                    } else {
                        assert(cands[from as int] == s[p]);
                    }
                }
            }
        } else {
            assert(without[i - with.len()] == s);
            lemma_subsets_members(cands, prefix, k, from + 1, s);
        }
    }
}

} // verus!
