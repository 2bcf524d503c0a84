//! Rows of a table.

use vstd::prelude::*;

verus! {

/// The rows as plain values.
pub open spec fn views<T: View>(v: Seq<T>) -> Seq<T::V> {
    v.map_values(|t: T| t@)
}

pub proof fn lemma_views_push<T: View>(v: Seq<T>, t: T)
    ensures
        views(v.push(t)) == views(v).push(t@),
{
    assert(views(v.push(t)) =~= views(v).push(t@));
}

/// One more row under a filter.
pub proof fn lemma_filter_step<A>(s: Seq<A>, i: int, p: spec_fn(A) -> bool)
    requires
        0 <= i < s.len(),
    ensures
        s.take(i + 1).filter(p) == if p(s[i]) {
            s.take(i).filter(p).push(s[i])
        } else {
            s.take(i).filter(p)
        },
{
    reveal(Seq::filter);
    assert(s.take(i + 1).drop_last() =~= s.take(i));
    assert(s.take(i + 1).last() == s[i]);
}

pub proof fn lemma_filter_empty<A>(p: spec_fn(A) -> bool)
    ensures
        Seq::<A>::empty().filter(p) == Seq::<A>::empty(),
{
    reveal(Seq::filter);
}

/// A filter that lets through less may go alone.
pub proof fn lemma_filter_twice<A>(s: Seq<A>, p: spec_fn(A) -> bool, q: spec_fn(A) -> bool)
    requires
        forall|a: A| #[trigger] q(a) ==> p(a),
    ensures
        s.filter(p).filter(q) == s.filter(q),
    decreases s.len(),
{
    reveal(Seq::filter);
    if s.len() > 0 {
        lemma_filter_twice(s.drop_last(), p, q);
        let rest = s.drop_last().filter(p);
        assert(rest.push(s.last()).drop_last() =~= rest);
    }
}

/// A filter on one more row.
pub proof fn lemma_filter_push<A>(s: Seq<A>, a: A, p: spec_fn(A) -> bool)
    ensures
        s.push(a).filter(p) == if p(a) {
            s.filter(p).push(a)
        } else {
            s.filter(p)
        },
{
    reveal(Seq::filter);
    assert(s.push(a).drop_last() =~= s);
}

/// Keeps the rows that `keep` keeps.
pub(crate) fn retain_rows<T: View, F: Fn(&T) -> bool>(
    rows: &mut Vec<T>,
    keep: F,
    Ghost(p): Ghost<spec_fn(T::V) -> bool>,
)
    requires
        forall|t: T| call_requires(keep, (&t,)),
        forall|t: T, b: bool| call_ensures(keep, (&t,), b) ==> b == p(t@),
    ensures
        views(final(rows)@) == views(old(rows)@).filter(p),
{
    let ghost all = views(rows@);
    let mut i: usize = 0;
    let ghost mut done: int = 0;
    proof {
        lemma_filter_empty(p);
        assert(all.take(0) =~= Seq::empty());
        assert(views(rows@.take(0)) =~= Seq::empty());
        assert(views(rows@.skip(0)) =~= all.skip(0));
    }
    while i < rows.len()
        invariant
            forall|t: T| call_requires(keep, (&t,)),
            forall|t: T, b: bool| call_ensures(keep, (&t,), b) ==> b == p(t@),
            0 <= done <= all.len(),
            i <= rows@.len(),
            rows@.len() - i == all.len() - done,
            views(rows@.take(i as int)) == all.take(done).filter(p),
            views(rows@.skip(i as int)) == all.skip(done),
        decreases rows@.len() - i,
    {
        let ghost before = rows@;
        proof {
            lemma_filter_step(all, done, p);
            assert(views(before.skip(i as int))[0] == before[i as int]@);
            assert(all.skip(done)[0] == all[done]);
        }
        if keep(&rows[i]) {
            i += 1;
            proof {
                assert(before.take(i as int) =~= before.take(i - 1).push(before[i - 1]));
                lemma_views_push(before.take(i - 1), before[i - 1]);
                assert(views(before.skip(i as int)) =~= views(before.skip(i - 1)).skip(1));
                assert(all.skip(done + 1) =~= all.skip(done).skip(1));
            }
        } else {
            rows.remove(i);
            proof {
                assert(rows@.take(i as int) =~= before.take(i as int));
                assert(rows@.skip(i as int) =~= before.skip(i + 1));
                assert(views(before.skip(i + 1)) =~= views(before.skip(i as int)).skip(1));
                assert(all.skip(done + 1) =~= all.skip(done).skip(1));
            }
        }
        proof {
            done = done + 1;
        }
    }
    proof {
        assert(rows@.take(i as int) =~= rows@);
        assert(all.take(done) =~= all);
    }
}

} // verus!
