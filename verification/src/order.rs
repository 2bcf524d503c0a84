//! Stable sorting by an integer key.

use vstd::prelude::*;

verus! {

/// `s` with `x` put behind every entry of its tail that does not have a greater key.
pub open spec fn insert_stable<A>(s: Seq<A>, x: A, key: spec_fn(A) -> int) -> Seq<A>
    decreases s.len(),
{
    if s.len() == 0 || key(s.last()) <= key(x) {
        s.push(x)
    } else {
        insert_stable(s.drop_last(), x, key).push(s.last())
    }
}

/// `s` in ascending order of the key; entries with equal keys keep their order.
pub open spec fn stable_sorted<A>(s: Seq<A>, key: spec_fn(A) -> int) -> Seq<A>
    decreases s.len(),
{
    if s.len() == 0 {
        s
    } else {
        insert_stable(stable_sorted(s.drop_last(), key), s.last(), key)
    }
}

pub open spec fn ascending<A>(s: Seq<A>, key: spec_fn(A) -> int) -> bool {
    forall|i: int, j: int| 0 <= i <= j < s.len() ==> key(#[trigger] s[i]) <= key(#[trigger] s[j])
}

pub proof fn lemma_insert_stable<A>(s: Seq<A>, x: A, key: spec_fn(A) -> int)
    ensures
        insert_stable(s, x, key).to_multiset() == s.to_multiset().insert(x),
        insert_stable(s, x, key).len() == s.len() + 1,
        ascending(s, key) ==> ascending(insert_stable(s, x, key), key),
        forall|y: A| #[trigger]
            insert_stable(s, x, key).contains(y) <==> s.contains(y) || y == x,
    decreases s.len(),
{
    broadcast use vstd::seq_lib::group_to_multiset_ensures;

    let r = insert_stable(s, x, key);
    if s.len() == 0 || key(s.last()) <= key(x) {
        assert forall|y: A| #[trigger] r.contains(y) <==> s.contains(y) || y == x by {
            if s.contains(y) {
                let i = choose|i: int| 0 <= i < s.len() && s[i] == y;
                assert(r[i] == y);
            }
            assert(r[s.len() as int] == x);
        }
    } else {
        let p = s.drop_last();
        lemma_insert_stable(p, x, key);
        let q = insert_stable(p, x, key);
        assert(s =~= p.push(s.last()));
        assert(r.to_multiset() =~= s.to_multiset().insert(x));
        if ascending(s, key) {
            assert(ascending(p, key));
            assert forall|i: int, j: int| 0 <= i <= j < r.len() implies key(#[trigger] r[i])
                <= key(#[trigger] r[j]) by {
                if j < q.len() {
                    assert(r[i] == q[i] && r[j] == q[j]);
                } else if i < q.len() {
                    assert(q.contains(q[i]));
                    if q[i] != x {
                        let k = choose|k: int| 0 <= k < p.len() && p[k] == q[i];
                        assert(s[k] == q[i]);
                    }
                }
            }
        }
        assert forall|y: A| #[trigger] r.contains(y) <==> s.contains(y) || y == x by {
            if r.contains(y) {
                let i = choose|i: int| 0 <= i < r.len() && r[i] == y;
                if i < q.len() {
                    assert(q[i] == y);
                    assert(q.contains(y));
                    if y != x {
                        let k = choose|k: int| 0 <= k < p.len() && p[k] == y;
                        assert(s[k] == y);
                    }
                } else {
                    assert(s[s.len() - 1] == y);
                }
            }
            if s.contains(y) || y == x {
                if y != x {
                    let k = choose|k: int| 0 <= k < s.len() && s[k] == y;
                    if k < p.len() {
                        assert(p[k] == y);
                        assert(q.contains(y));
                        let i = choose|i: int| 0 <= i < q.len() && q[i] == y;
                        assert(r[i] == y);
                    } else {
                        assert(r[r.len() - 1] == y);
                    }
                } else {
                    assert(q.contains(y));
                    let i = choose|i: int| 0 <= i < q.len() && q[i] == y;
                    assert(r[i] == y);
                }
            }
        }
    }
}

/// Sorting keeps the entries and orders them.
pub proof fn law_stable_sorted<A>(s: Seq<A>, key: spec_fn(A) -> int)
    ensures
        stable_sorted(s, key).to_multiset() == s.to_multiset(),
        stable_sorted(s, key).len() == s.len(),
        ascending(stable_sorted(s, key), key),
        forall|y: A| #[trigger] stable_sorted(s, key).contains(y) <==> s.contains(y),
    decreases s.len(),
{
    broadcast use vstd::seq_lib::group_to_multiset_ensures;

    if s.len() > 0 {
        let p = s.drop_last();
        law_stable_sorted(p, key);
        lemma_insert_stable(stable_sorted(p, key), s.last(), key);
        assert(s =~= p.push(s.last()));
        assert forall|y: A| #[trigger] stable_sorted(s, key).contains(y) <==> s.contains(y) by {
            if s.contains(y) {
                let k = choose|k: int| 0 <= k < s.len() && s[k] == y;
                if k < p.len() {
                    assert(p[k] == y);
                    assert(p.contains(y));
                }
                assert(stable_sorted(p, key).contains(y) || y == s.last());
            }
            if stable_sorted(s, key).contains(y) {
                if stable_sorted(p, key).contains(y) {
                    assert(p.contains(y));
                    let k = choose|k: int| 0 <= k < p.len() && p[k] == y;
                    assert(s[k] == y);
                } else {
                    assert(s[s.len() - 1] == y);
                }
            }
        }
    }
}

/// Sorting commutes with a map that keeps the keys.
pub proof fn lemma_sorted_map<A, B>(
    s: Seq<A>,
    key: spec_fn(A) -> int,
    f: spec_fn(A) -> B,
    key2: spec_fn(B) -> int,
)
    requires
        forall|i: int| 0 <= i < s.len() ==> key2(f(#[trigger] s[i])) == key(s[i]),
    ensures
        stable_sorted(s, key).map_values(f) == stable_sorted(s.map_values(f), key2),
    decreases s.len(),
{
    let m = s.map_values(f);
    if s.len() == 0 {
        assert(stable_sorted(s, key).map_values(f) =~= m);
    } else {
        let p = s.drop_last();
        assert forall|i: int| 0 <= i < p.len() implies key2(f(#[trigger] p[i])) == key(p[i]) by {
            assert(p[i] == s[i]);
        }
        lemma_sorted_map(p, key, f, key2);
        assert(m.drop_last() =~= p.map_values(f));
        let t = stable_sorted(p, key);
        law_stable_sorted(p, key);
        assert forall|i: int| 0 <= i < t.len() implies key2(f(#[trigger] t[i])) == key(t[i]) by {
            assert(t.contains(t[i]));
            assert(p.contains(t[i]));
            let k = choose|k: int| 0 <= k < p.len() && p[k] == t[i];
            assert(s[k] == t[i]);
        }
        assert(s[s.len() - 1] == s.last());
        lemma_insert_map(t, s.last(), key, f, key2);
    }
}

proof fn lemma_insert_map<A, B>(
    s: Seq<A>,
    x: A,
    key: spec_fn(A) -> int,
    f: spec_fn(A) -> B,
    key2: spec_fn(B) -> int,
)
    requires
        forall|i: int| 0 <= i < s.len() ==> key2(f(#[trigger] s[i])) == key(s[i]),
        key2(f(x)) == key(x),
    ensures
        insert_stable(s, x, key).map_values(f) == insert_stable(s.map_values(f), f(x), key2),
    decreases s.len(),
{
    let m = s.map_values(f);
    if s.len() > 0 {
        assert(m.drop_last() =~= s.drop_last().map_values(f));
        assert(m.last() == f(s.last()));
        assert(s[s.len() - 1] == s.last());
    }
    if s.len() == 0 || key(s.last()) <= key(x) {
        assert(s.push(x).map_values(f) =~= m.push(f(x)));
    } else {
        let p = s.drop_last();
        assert forall|i: int| 0 <= i < p.len() implies key2(f(#[trigger] p[i])) == key(p[i]) by {
            assert(p[i] == s[i]);
        }
        lemma_insert_map(p, x, key, f, key2);
        assert(insert_stable(p, x, key).push(s.last()).map_values(f) =~= insert_stable(
            p,
            x,
            key,
        ).map_values(f).push(f(s.last())));
    }
}

/// Values with a rank to sort by.
pub trait Ranked: Sized {
    spec fn rank(&self) -> int;

    fn get_rank(&self) -> (r: u64)
        ensures
            r == self.rank(),
    ;
}

/// The rank as a sorting key.
pub open spec fn by_rank<T: Ranked>() -> spec_fn(T) -> int {
    |t: T| t.rank()
}

/// Sorts by rank, keeping the order of equals.
pub fn sort_by_rank<T: Ranked>(v: Vec<T>) -> (sorted: Vec<T>)
    ensures
        sorted@ == stable_sorted(v@, by_rank::<T>()),
{
    let ghost whole = v@;
    let ghost key = by_rank::<T>();
    let mut rest = v;
    let mut sorted: Vec<T> = Vec::new();
    assert(whole.take(0) =~= Seq::empty());
    assert(whole.skip(0) =~= whole);
    while rest.len() > 0
        invariant
            key == by_rank::<T>(),
            rest@.len() <= whole.len(),
            rest@ == whole.skip(whole.len() - rest@.len()),
            sorted@ == stable_sorted(whole.take(whole.len() - rest@.len()), key),
        decreases rest@.len(),
    {
        let ghost done = whole.len() - rest@.len();
        let x = rest.remove(0);
        let ghost head = sorted@;
        let r: u64 = x.get_rank();
        let mut pos: usize = sorted.len();
        assert(head.take(pos as int) =~= head);
        assert(head.skip(pos as int) =~= Seq::empty());
        assert(insert_stable(head, x, key) =~= insert_stable(head.take(pos as int), x, key)
            + head.skip(pos as int));
        while pos > 0 && sorted[pos - 1].get_rank() > r
            invariant
                key == by_rank::<T>(),
                head == sorted@,
                r == x.rank(),
                pos <= head.len(),
                insert_stable(head, x, key) == insert_stable(head.take(pos as int), x, key)
                    + head.skip(pos as int),
            decreases pos,
        {
            proof {
                let t = head.take(pos as int);
                assert(t.drop_last() =~= head.take(pos - 1));
                assert(t.last() == head[pos - 1]);
                assert(head.skip(pos - 1) =~= seq![head[pos - 1]] + head.skip(pos as int));
                assert(insert_stable(t, x, key) == insert_stable(t.drop_last(), x, key).push(
                    t.last(),
                ));
                assert(insert_stable(head.take(pos - 1), x, key) + head.skip(pos - 1)
                    =~= insert_stable(t, x, key) + head.skip(pos as int));
            }
            pos -= 1;
        }
        proof {
            let t = head.take(pos as int);
            if pos > 0 {
                assert(t.last() == head[pos - 1]);
            }
            assert(insert_stable(t, x, key) == t.push(x));
            assert(head.insert(pos as int, x) =~= t.push(x) + head.skip(pos as int));
            let w = whole.take(done + 1);
            assert(w.drop_last() =~= whole.take(done));
            assert(w.last() == x);
            assert(rest@ =~= whole.skip(done + 1));
        }
        sorted.insert(pos, x);
    }
    assert(whole.take(whole.len() as int) =~= whole);
    sorted
}

} // verus!
