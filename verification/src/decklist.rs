//! Decklists and lists of card names.

use crate::text::{
    from_chars, is_white, parse_number, parse_u32, slice, texts, to_chars, trim, trimmed, white,
};
use vstd::prelude::*;

verus! {

/// Where the first white space stands, from `from` on.
pub open spec fn first_white(s: Seq<char>, from: int) -> Option<int>
    decreases s.len() - from,
{
    if from < 0 || from >= s.len() {
        None
    } else if is_white(s[from]) {
        Some(from)
    } else {
        first_white(s, from + 1)
    }
}

/// A line without its leading quantity, and without white space around it.
pub open spec fn without_quantity(line: Seq<char>) -> Seq<char> {
    let t = trim(line);
    match first_white(t, 0) {
        Some(i) if parse_number(t.take(i)) is Some => trim(t.skip(i + 1)),
        _ => t,
    }
}

/// A line such as "1 Snakeskin Veil" without its quantity: "Snakeskin Veil".
pub fn strip_quantity(line: &str) -> (name: String)
    ensures
        name@ == without_quantity(line@),
{
    let t = trimmed(&to_chars(line));
    let mut i: usize = 0;
    while i < t.len() && !white(t[i])
        invariant
            i <= t@.len(),
            first_white(t@, 0) == first_white(t@, i as int),
        decreases t@.len() - i,
    {
        i += 1;
    }
    if i < t.len() {
        let first = slice(&t, 0, i);
        assert(first@ =~= t@.take(i as int));
        if parse_u32(&first).is_some() {
            let rest = slice(&t, i + 1, t.len());
            assert(rest@ =~= t@.skip(i + 1));
            return from_chars(&trimmed(&rest));
        }
    }
    from_chars(&t)
}

/// The lines of a text.
pub open spec fn lines(s: Seq<char>) -> Seq<Seq<char>>
    decreases s.len(),
{
    if s.len() == 0 {
        seq![Seq::empty()]
    } else {
        let rest = lines(s.drop_last());
        if s.last() == '\n' {
            rest.push(Seq::empty())
        } else {
            rest.update(rest.len() - 1, rest.last().push(s.last()))
        }
    }
}

/// The card names on the lines: those that are not blank, without quantities.
pub open spec fn names_on(lines: Seq<Seq<char>>) -> Seq<Seq<char>>
    decreases lines.len(),
{
    if lines.len() == 0 {
        Seq::empty()
    } else {
        let rest = names_on(lines.drop_last());
        if trim(lines.last()).len() > 0 {
            rest.push(without_quantity(trim(lines.last())))
        } else {
            rest
        }
    }
}

/// Adds the name on a line, if there is one.
fn push_name(names: &mut Vec<String>, line: &Vec<char>)
    ensures
        texts(final(names)@) == if trim(line@).len() > 0 {
            texts(old(names)@).push(without_quantity(trim(line@)))
        } else {
            texts(old(names)@)
        },
{
    let t = trimmed(line);
    if t.len() > 0 {
        let name = strip_quantity(&from_chars(&t));
        names.push(name);
        assert(texts(names@) =~= texts(old(names)@).push(name@));
    }
}

/// The card names of a decklist, one per line, with their quantities stripped.
pub fn parse_decklist(contents: &str) -> (names: Vec<String>)
    ensures
        texts(names@) == names_on(lines(contents@)),
{
    let v = to_chars(contents);
    let mut names: Vec<String> = Vec::new();
    let mut line: Vec<char> = Vec::new();
    let mut i: usize = 0;
    proof {
        assert(v@.take(0) =~= Seq::empty());
        assert(line@ =~= Seq::empty());
        let one = lines(v@.take(0));
        assert(one.drop_last() =~= Seq::empty());
        assert(texts(names@) =~= Seq::empty());
    }
    while i < v.len()
        invariant
            v@ == contents@,
            i <= v@.len(),
            lines(v@.take(i as int)).len() > 0,
            line@ == lines(v@.take(i as int)).last(),
            texts(names@) == names_on(lines(v@.take(i as int)).drop_last()),
        decreases v@.len() - i,
    {
        let ghost before = lines(v@.take(i as int));
        let ghost after = lines(v@.take(i + 1));
        proof {
            let t = v@.take(i + 1);
            assert(t.drop_last() =~= v@.take(i as int));
            assert(t.last() == v@[i as int]);
        }
        if v[i] == '\n' {
            push_name(&mut names, &line);
            line = Vec::new();
            proof {
                assert(after.drop_last() =~= before);
                assert(line@ =~= Seq::empty());
            }
        } else {
            line.push(v[i]);
            proof {
                assert(after.drop_last() =~= before.drop_last());
            }
        }
        i += 1;
    }
    push_name(&mut names, &line);
    assert(v@.take(i as int) =~= v@);
    names
}

/// The cards of an input that is not a file: the one name.
pub fn single_card(input: &str) -> (names: Vec<String>)
    ensures
        texts(names@) == seq![trim(input@)],
{
    let mut names: Vec<String> = Vec::new();
    names.push(from_chars(&trimmed(&to_chars(input))));
    assert(texts(names@) =~= seq![trim(input@)]);
    names
}

/// `a` comes before `b` in the order of code points.
pub open spec fn text_before(a: Seq<char>, b: Seq<char>) -> bool
    decreases a.len(),
{
    if b.len() == 0 {
        false
    } else if a.len() == 0 {
        true
    } else if a[0] != b[0] {
        a[0] < b[0]
    } else {
        text_before(a.skip(1), b.skip(1))
    }
}

/// How two texts are ordered.
#[derive(PartialEq, Eq, Structural, Clone, Copy)]
pub enum Order {
    Before,
    Same,
    After,
}

pub open spec fn order_of(a: Seq<char>, b: Seq<char>) -> Order {
    if a == b {
        Order::Same
    } else if text_before(a, b) {
        Order::Before
    } else {
        Order::After
    }
}

/// How two texts are ordered.
pub fn order_texts(a: &str, b: &str) -> (order: Order)
    ensures
        order == order_of(a@, b@),
{
    let v = to_chars(a);
    let w = to_chars(b);
    let mut i: usize = 0;
    assert(v@.skip(0) =~= v@);
    assert(w@.skip(0) =~= w@);
    while i < v.len() && i < w.len()
        invariant
            v@ == a@,
            w@ == b@,
            i <= v@.len(),
            i <= w@.len(),
            forall|k: int| 0 <= k < i ==> v@[k] == w@[k],
            text_before(v@, w@) == text_before(v@.skip(i as int), w@.skip(i as int)),
        decreases v@.len() - i,
    {
        let ghost s = v@.skip(i as int);
        let ghost t = w@.skip(i as int);
        assert(s[0] == v@[i as int] && t[0] == w@[i as int]);
        if v[i] != w[i] {
            return if v[i] < w[i] {
                Order::Before
            } else {
                Order::After
            };
        }
        assert(s.skip(1) =~= v@.skip(i + 1));
        assert(t.skip(1) =~= w@.skip(i + 1));
        i += 1;
    }
    if v.len() == w.len() {
        assert(v@ =~= w@);
        Order::Same
    } else if v.len() < w.len() {
        Order::Before
    } else {
        Order::After
    }
}

/// A text does not come before itself.
pub proof fn lemma_not_before_self(a: Seq<char>)
    ensures
        !text_before(a, a),
    decreases a.len(),
{
    if a.len() > 0 {
        lemma_not_before_self(a.skip(1));
    }
}

/// Of two different texts, one comes before the other.
proof fn lemma_before_total(a: Seq<char>, b: Seq<char>)
    requires
        a != b,
        !text_before(a, b),
    ensures
        text_before(b, a),
    decreases a.len(),
{
    if a.len() > 0 && b.len() > 0 && a[0] == b[0] {
        if a.skip(1) == b.skip(1) {
            assert(a =~= seq![a[0]] + a.skip(1));
            assert(b =~= seq![b[0]] + b.skip(1));
            assert(a =~= b);
        }
        lemma_before_total(a.skip(1), b.skip(1));
    } else if a.len() == 0 && b.len() == 0 {
        assert(a =~= b);
    }
}

pub proof fn lemma_before_chain(a: Seq<char>, b: Seq<char>, c: Seq<char>)
    requires
        text_before(a, b),
        text_before(b, c),
    ensures
        text_before(a, c),
    decreases a.len(),
{
    if a.len() > 0 && b.len() > 0 && c.len() > 0 && a[0] == b[0] && b[0] == c[0] {
        lemma_before_chain(a.skip(1), b.skip(1), c.skip(1));
    }
}

/// Not being before is transitive.
pub proof fn lemma_not_before_chain(a: Seq<char>, b: Seq<char>, c: Seq<char>)
    requires
        !text_before(b, a),
        !text_before(c, b),
    ensures
        !text_before(c, a),
{
    if text_before(c, a) && b != c {
        lemma_before_total(c, b);
        lemma_before_chain(b, c, a);
    }
}

/// In strictly ascending order, so without repeats.
pub open spec fn sorted_texts(s: Seq<Seq<char>>) -> bool {
    forall|i: int, j: int|
        0 <= i < j < s.len() ==> text_before(#[trigger] s[i], #[trigger] s[j])
}

/// The names sorted, each once: exactly the given names, in strictly ascending order.
pub open spec fn is_sorted_set(given: Seq<Seq<char>>, sorted: Seq<Seq<char>>) -> bool {
    &&& sorted_texts(sorted)
    &&& forall|x: Seq<char>| #[trigger] sorted.contains(x) <==> given.contains(x)
}

/// Puts a name where it belongs, unless it is there.
fn insert_name(sorted: &mut Vec<String>, name: &String)
    requires
        sorted_texts(texts(old(sorted)@)),
    ensures
        sorted_texts(texts(final(sorted)@)),
        forall|x: Seq<char>| #[trigger]
            texts(final(sorted)@).contains(x) <==> texts(old(sorted)@).contains(x) || x == name@,
{
    let ghost all = texts(sorted@);
    let mut at: usize = 0;
    while at < sorted.len()
        invariant
            all == texts(sorted@),
            *sorted == *old(sorted),
            sorted_texts(all),
            at <= sorted@.len(),
            forall|k: int| 0 <= k < at ==> text_before(#[trigger] all[k], name@),
        decreases sorted@.len() - at,
    {
        assert(all[at as int] == sorted@[at as int]@);
        match order_texts(&sorted[at], name) {
            Order::Before => {},
            Order::Same => {
                assert(all.contains(name@));
                return;
            },
            Order::After => {
                proof {
                    lemma_before_total(all[at as int], name@);
                    lemma_insert(all, at as int, name@);
                }
                let copy = name.clone();
                sorted.insert(at, copy);
                assert(texts(sorted@) =~= all.insert(at as int, name@));
                return;
            },
        }
        at += 1;
    }
    proof {
        lemma_insert(all, at as int, name@);
    }
    let copy = name.clone();
    sorted.push(copy);
    assert(texts(sorted@) =~= all.insert(at as int, name@));
}

proof fn lemma_insert(all: Seq<Seq<char>>, at: int, name: Seq<char>)
    requires
        sorted_texts(all),
        0 <= at <= all.len(),
        forall|k: int| 0 <= k < at ==> text_before(#[trigger] all[k], name),
        at < all.len() ==> text_before(name, all[at]),
    ensures
        sorted_texts(all.insert(at, name)),
        forall|x: Seq<char>| #[trigger]
            all.insert(at, name).contains(x) <==> all.contains(x) || x == name,
{
    let more = all.insert(at, name);
    assert forall|i: int, j: int| 0 <= i < j < more.len() implies text_before(
        #[trigger] more[i],
        #[trigger] more[j],
    ) by {
        let i0 = if i < at {
            i
        } else {
            i - 1
        };
        let j0 = if j < at {
            j
        } else {
            j - 1
        };
        if i == at {
            if j0 > at {
                assert(text_before(all[at], all[j0]));
                lemma_before_chain(name, all[at], all[j0]);
            }
        } else if j == at {
            assert(text_before(all[i0], name));
        } else {
            assert(text_before(all[i0], all[j0]));
        }
    }
    assert forall|x: Seq<char>| #[trigger] more.contains(x) <==> all.contains(x) || x == name by {
        if more.contains(x) {
            let i = choose|i: int| 0 <= i < more.len() && more[i] == x;
            if i < at {
                assert(all[i] == x);
            } else if i > at {
                assert(all[i - 1] == x);
            }
        }
        if all.contains(x) {
            let i = choose|i: int| 0 <= i < all.len() && all[i] == x;
            if i < at {
                assert(more[i] == x);
            } else {
                assert(more[i + 1] == x);
            }
        }
        assert(more[at] == name);
    }
}

/// The names sorted, each once.
pub fn sort_unique(names: &Vec<String>) -> (sorted: Vec<String>)
    ensures
        is_sorted_set(texts(names@), texts(sorted@)),
{
    let ghost given = texts(names@);
    let mut sorted: Vec<String> = Vec::new();
    let mut i: usize = 0;
    while i < names.len()
        invariant
            given == texts(names@),
            i <= names@.len(),
            sorted_texts(texts(sorted@)),
            forall|x: Seq<char>| #[trigger]
                texts(sorted@).contains(x) <==> given.take(i as int).contains(x),
        decreases names@.len() - i,
    {
        let ghost before = texts(sorted@);
        insert_name(&mut sorted, &names[i]);
        proof {
            let t0 = given.take(i as int);
            let t1 = given.take(i + 1);
            assert forall|x: Seq<char>| #[trigger] texts(sorted@).contains(x) <==> t1.contains(
                x,
            ) by {
                assert(before.contains(x) <==> t0.contains(x));
                if t1.contains(x) {
                    let k = choose|k: int| 0 <= k < t1.len() && t1[k] == x;
                    if k < i {
                        assert(t0[k] == x);
                    }
                }
                if t0.contains(x) {
                    let k = choose|k: int| 0 <= k < t0.len() && t0[k] == x;
                    assert(t1[k] == x);
                }
                assert(t1[i as int] == names@[i as int]@);
            }
        }
        i += 1;
    }
    assert(given.take(i as int) =~= given);
    sorted
}

/// Sorting the same names gives the same list.
pub proof fn law_sorted_set_unique(given: Seq<Seq<char>>, a: Seq<Seq<char>>, b: Seq<Seq<char>>)
    requires
        is_sorted_set(given, a),
        is_sorted_set(given, b),
    ensures
        a == b,
{
    lemma_same_lists(a, b);
}

proof fn lemma_same_lists(a: Seq<Seq<char>>, b: Seq<Seq<char>>)
    requires
        sorted_texts(a),
        sorted_texts(b),
        forall|x: Seq<char>| #[trigger] a.contains(x) <==> b.contains(x),
    ensures
        a == b,
    decreases a.len(),
{
    if a.len() == 0 {
        if b.len() > 0 {
            assert(b.contains(b[0]));
            assert(a.contains(b[0]));
        }
        assert(a =~= b);
    } else {
        assert(a.contains(a.last()));
        assert(b.contains(a.last()));
        let j = choose|j: int| 0 <= j < b.len() && b[j] == a.last();
        assert(b.contains(b.last()));
        assert(a.contains(b.last()));
        let i = choose|i: int| 0 <= i < a.len() && a[i] == b.last();
        if i < a.len() - 1 {
            assert(text_before(a[i], a[a.len() - 1]));
            if j < b.len() - 1 {
                assert(text_before(b[j], b[b.len() - 1]));
                lemma_before_chain(a.last(), b.last(), a.last());
                lemma_not_before_self(a.last());
            } else {
                lemma_not_before_self(a.last());
            }
        }
        assert(a.last() == b.last());
        let p = a.drop_last();
        let q = b.drop_last();
        assert forall|x: Seq<char>| #[trigger] p.contains(x) <==> q.contains(x) by {
            lemma_not_before_self(x);
            if p.contains(x) {
                let k = choose|k: int| 0 <= k < p.len() && p[k] == x;
                assert(a[k] == x);
                assert(a.contains(x));
                assert(b.contains(x));
                let m = choose|m: int| 0 <= m < b.len() && b[m] == x;
                if m == b.len() - 1 {
                    assert(text_before(a[k], a[a.len() - 1]));
                }
                assert(q[m] == x);
            }
            if q.contains(x) {
                let k = choose|k: int| 0 <= k < q.len() && q[k] == x;
                assert(b[k] == x);
                assert(b.contains(x));
                assert(a.contains(x));
                let m = choose|m: int| 0 <= m < a.len() && a[m] == x;
                if m == a.len() - 1 {
                    assert(text_before(b[k], b[b.len() - 1]));
                }
                assert(p[m] == x);
            }
        }
        lemma_same_lists(p, q);
        assert(a =~= p.push(a.last()));
        assert(b =~= q.push(b.last()));
    }
}

/// The store's name holds one of the filters, whatever the case.
pub open spec fn selected(name: Seq<char>, filters: Seq<Seq<char>>) -> bool {
    exists|i: int|
        0 <= i < filters.len() && crate::text::contains(
            crate::text::lowercase(name),
            crate::text::lowercase(trim(#[trigger] filters[i])),
        )
}

/// Does the store's name hold one of the filters, whatever the case?
pub fn is_selected(name: &str, filters: &Vec<String>) -> (b: bool)
    ensures
        b == selected(name@, texts(filters@)),
{
    let ghost all = texts(filters@);
    let lower = name.to_lowercase();
    let mut i: usize = 0;
    while i < filters.len()
        invariant
            all == texts(filters@),
            lower@ == crate::text::lowercase(name@),
            i <= filters@.len(),
            forall|k: int|
                0 <= k < i ==> !crate::text::contains(
                    lower@,
                    crate::text::lowercase(trim(#[trigger] all[k])),
                ),
        decreases filters@.len() - i,
    {
        assert(all[i as int] == filters@[i as int]@);
        let f = from_chars(&trimmed(&to_chars(&filters[i]))).to_lowercase();
        if crate::text::has(&lower, &f) {
            return true;
        }
        i += 1;
    }
    false
}

/// The first filter that no store's name holds.
pub open spec fn unmatched(names: Seq<Seq<char>>, filters: Seq<Seq<char>>, from: int) -> Option<int>
    decreases filters.len() - from,
{
    if from < 0 || from >= filters.len() {
        None
    } else if exists|i: int| 0 <= i < names.len() && selected(#[trigger] names[i], seq![filters[from]]) {
        unmatched(names, filters, from + 1)
    } else {
        Some(from)
    }
}

/// The first filter that no store's name holds.
pub fn find_unmatched(names: &Vec<String>, filters: &Vec<String>) -> (at: Option<usize>)
    ensures
        match unmatched(texts(names@), texts(filters@), 0) {
            Some(i) => at == Some(i as usize) && 0 <= i < filters@.len(),
            None => at is None,
        },
{
    let ghost ns = texts(names@);
    let ghost fs = texts(filters@);
    let mut f: usize = 0;
    while f < filters.len()
        invariant
            ns == texts(names@),
            fs == texts(filters@),
            f <= filters@.len(),
            unmatched(ns, fs, 0) == unmatched(ns, fs, f as int),
        decreases filters@.len() - f,
    {
        let mut one: Vec<String> = Vec::new();
        one.push(filters[f].clone());
        assert(texts(one@) =~= seq![fs[f as int]]);
        let mut hit: bool = false;
        let mut i: usize = 0;
        while i < names.len()
            invariant
                ns == texts(names@),
                f < fs.len(),
                texts(one@) == seq![fs[f as int]],
                i <= names@.len(),
                hit == exists|k: int|
                    0 <= k < i && selected(#[trigger] ns[k], seq![fs[f as int]]),
            decreases names@.len() - i,
        {
            assert(ns[i as int] == names@[i as int]@);
            if is_selected(&names[i], &one) {
                hit = true;
            }
            i += 1;
        }
        if !hit {
            return Some(f);
        }
        f += 1;
    }
    None
}

} // verus!
