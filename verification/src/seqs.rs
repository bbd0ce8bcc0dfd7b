//! Facts about sequences that the tables are reasoned with: deleting rows is
//! `filter`, and what holds of every two rows of a table survives a deletion.

use vstd::prelude::*;

verus! {

/// The relation `rel` holds of every two elements of `s`, the earlier one first.
pub open spec fn pairwise<A>(s: Seq<A>, rel: spec_fn(A, A) -> bool) -> bool {
    forall|i: int, j: int| #![trigger s[i], s[j]] 0 <= i < j < s.len() ==> rel(s[i], s[j])
}

pub proof fn lemma_filter_empty<A>(p: spec_fn(A) -> bool)
    ensures
        Seq::<A>::empty().filter(p) == Seq::<A>::empty(),
{
    reveal(Seq::filter);
}

pub proof fn lemma_filter_push<A>(s: Seq<A>, x: A, p: spec_fn(A) -> bool)
    ensures
        s.push(x).filter(p) == (if p(x) {
            s.filter(p).push(x)
        } else {
            s.filter(p)
        }),
{
    reveal(Seq::filter);
    assert(s.push(x).drop_last() =~= s);
}

/// Two predicates that agree on the elements of `s` select the same elements.
pub proof fn lemma_filter_same<A>(s: Seq<A>, p: spec_fn(A) -> bool, q: spec_fn(A) -> bool)
    requires
        forall|i: int| 0 <= i < s.len() ==> p(#[trigger] s[i]) == q(s[i]),
    ensures
        s.filter(p) == s.filter(q),
    decreases s.len(),
{
    reveal(Seq::filter);
    if s.len() > 0 {
        assert forall|i: int| 0 <= i < s.drop_last().len() implies p(
            #[trigger] s.drop_last()[i],
        ) == q(s.drop_last()[i]) by {
            assert(s.drop_last()[i] == s[i]);
        }
        lemma_filter_same(s.drop_last(), p, q);
        assert(s.last() == s[s.len() - 1]);
    }
}

/// A predicate that holds of every element removes nothing.
pub proof fn lemma_filter_all<A>(s: Seq<A>, p: spec_fn(A) -> bool)
    requires
        forall|i: int| 0 <= i < s.len() ==> p(#[trigger] s[i]),
    ensures
        s.filter(p) == s,
    decreases s.len(),
{
    reveal(Seq::filter);
    if s.len() > 0 {
        assert forall|i: int| 0 <= i < s.drop_last().len() implies p(
            #[trigger] s.drop_last()[i],
        ) by {
            assert(s.drop_last()[i] == s[i]);
        }
        lemma_filter_all(s.drop_last(), p);
        assert(s.last() == s[s.len() - 1]);
        assert(s.drop_last().push(s.last()) =~= s);
    } else {
        assert(s.filter(p) =~= s);
    }
}

/// A predicate that holds of no element leaves nothing.
pub proof fn lemma_filter_none<A>(s: Seq<A>, p: spec_fn(A) -> bool)
    requires
        forall|i: int| 0 <= i < s.len() ==> !p(#[trigger] s[i]),
    ensures
        s.filter(p) == Seq::<A>::empty(),
    decreases s.len(),
{
    reveal(Seq::filter);
    if s.len() > 0 {
        assert forall|i: int| 0 <= i < s.drop_last().len() implies !p(
            #[trigger] s.drop_last()[i],
        ) by {
            assert(s.drop_last()[i] == s[i]);
        }
        lemma_filter_none(s.drop_last(), p);
        assert(s.last() == s[s.len() - 1]);
    } else {
        assert(s.filter(p) =~= Seq::<A>::empty());
    }
}

/// Two selections in a row are one selection by both predicates.
pub proof fn lemma_filter_twice<A>(
    s: Seq<A>,
    p: spec_fn(A) -> bool,
    q: spec_fn(A) -> bool,
    both: spec_fn(A) -> bool,
)
    requires
        forall|i: int| 0 <= i < s.len() ==> both(#[trigger] s[i]) == (p(s[i]) && q(s[i])),
    ensures
        s.filter(p).filter(q) == s.filter(both),
    decreases s.len(),
{
    reveal(Seq::filter);
    if s.len() > 0 {
        assert forall|i: int| 0 <= i < s.drop_last().len() implies both(
            #[trigger] s.drop_last()[i],
        ) == (p(s.drop_last()[i]) && q(s.drop_last()[i])) by {
            assert(s.drop_last()[i] == s[i]);
        }
        lemma_filter_twice(s.drop_last(), p, q, both);
        assert(s.last() == s[s.len() - 1]);
        if p(s.last()) {
            lemma_filter_push(s.drop_last().filter(p), s.last(), q);
        }
    }
}

/// A predicate that holds of the first `n` elements and of no later one selects those.
pub proof fn lemma_filter_prefix<A>(s: Seq<A>, p: spec_fn(A) -> bool, n: int)
    requires
        0 <= n <= s.len(),
        forall|i: int| 0 <= i < n ==> p(#[trigger] s[i]),
        forall|i: int| n <= i < s.len() ==> !p(#[trigger] s[i]),
    ensures
        s.filter(p) == s.take(n),
{
    assert(s =~= s.take(n) + s.skip(n));
    Seq::filter_distributes_over_add(s.take(n), s.skip(n), p);
    lemma_filter_all(s.take(n), p);
    lemma_filter_none(s.skip(n), p);
    assert(s.take(n) + Seq::<A>::empty() =~= s.take(n));
}

/// A predicate that holds of no element before `n` and of all later ones selects the latter.
pub proof fn lemma_filter_suffix<A>(s: Seq<A>, p: spec_fn(A) -> bool, n: int)
    requires
        0 <= n <= s.len(),
        forall|i: int| 0 <= i < n ==> !p(#[trigger] s[i]),
        forall|i: int| n <= i < s.len() ==> p(#[trigger] s[i]),
    ensures
        s.filter(p) == s.skip(n),
{
    assert(s =~= s.take(n) + s.skip(n));
    Seq::filter_distributes_over_add(s.take(n), s.skip(n), p);
    lemma_filter_none(s.take(n), p);
    lemma_filter_all(s.skip(n), p);
    assert(Seq::<A>::empty() + s.skip(n) =~= s.skip(n));
}

/// A predicate that holds of the elements from `a` to `b` and of no other selects those.
pub proof fn lemma_filter_range<A>(s: Seq<A>, p: spec_fn(A) -> bool, a: int, b: int)
    requires
        0 <= a <= b <= s.len(),
        forall|i: int| 0 <= i < s.len() ==> p(#[trigger] s[i]) == (a <= i < b),
    ensures
        s.filter(p) == s.subrange(a, b),
{
    assert(s =~= s.take(a) + s.skip(a));
    Seq::filter_distributes_over_add(s.take(a), s.skip(a), p);
    lemma_filter_none(s.take(a), p);
    assert forall|i: int| 0 <= i < s.skip(a).len() implies p(#[trigger] s.skip(a)[i]) == (i < b
        - a) by {
        assert(s.skip(a)[i] == s[a + i]);
    }
    lemma_filter_prefix(s.skip(a), p, b - a);
    assert(Seq::<A>::empty() + s.skip(a).take(b - a) =~= s.subrange(a, b));
}

/// Every selected element is an element that the predicate holds of.
pub proof fn lemma_filter_member<A>(s: Seq<A>, p: spec_fn(A) -> bool, i: int)
    requires
        0 <= i < s.filter(p).len(),
    ensures
        p(s.filter(p)[i]),
        exists|k: int| 0 <= k < s.len() && #[trigger] s[k] == s.filter(p)[i],
    decreases s.len(),
{
    reveal(Seq::filter);
    if s.len() > 0 {
        let rest = s.drop_last();
        if i < rest.filter(p).len() {
            lemma_filter_member(rest, p, i);
            let k = choose|k: int| 0 <= k < rest.len() && #[trigger] rest[k] == rest.filter(p)[i];
            assert(s[k] == rest[k]);
        } else {
            assert(s[s.len() - 1] == s.filter(p)[i]);
        }
    }
}

/// Every element that the predicate holds of is selected.
pub proof fn lemma_filter_keeps<A>(s: Seq<A>, p: spec_fn(A) -> bool, k: int) -> (i: int)
    requires
        0 <= k < s.len(),
        p(s[k]),
    ensures
        0 <= i < s.filter(p).len(),
        s.filter(p)[i] == s[k],
    decreases s.len(),
{
    reveal(Seq::filter);
    let rest = s.drop_last();
    if k < rest.len() {
        assert(rest[k] == s[k]);
        let i = lemma_filter_keeps(rest, p, k);
        i
    } else {
        rest.filter(p).len() as int
    }
}

/// What holds of every two elements holds of every two selected ones.
pub proof fn lemma_filter_pairwise<A>(
    s: Seq<A>,
    p: spec_fn(A) -> bool,
    rel: spec_fn(A, A) -> bool,
)
    requires
        pairwise(s, rel),
    ensures
        pairwise(s.filter(p), rel),
    decreases s.len(),
{
    reveal(Seq::filter);
    if s.len() > 0 {
        let rest = s.drop_last();
        assert(pairwise(rest, rel)) by {
            assert forall|i: int, j: int|
                #![trigger rest[i], rest[j]]
                0 <= i < j < rest.len() implies rel(rest[i], rest[j]) by {
                assert(rest[i] == s[i] && rest[j] == s[j]);
            }
        }
        lemma_filter_pairwise(rest, p, rel);
        let f = s.filter(p);
        assert forall|i: int, j: int| #![trigger f[i], f[j]] 0 <= i < j < f.len() implies rel(
            f[i],
            f[j],
        ) by {
            if j < rest.filter(p).len() {
                assert(f[i] == rest.filter(p)[i] && f[j] == rest.filter(p)[j]);
            } else {
                assert(f[i] == rest.filter(p)[i]);
                lemma_filter_member(rest, p, i);
                let k = choose|k: int| 0 <= k < rest.len() && #[trigger] rest[k] == rest.filter(
                    p,
                )[i];
                assert(rest[k] == s[k]);
                assert(f[j] == s[s.len() - 1]);
            }
        }
    }
}

/// Extending a sequence keeps a pairwise relation when the new element is in
/// the relation with every earlier one.
pub proof fn lemma_push_pairwise<A>(s: Seq<A>, x: A, rel: spec_fn(A, A) -> bool)
    requires
        pairwise(s, rel),
        forall|i: int| 0 <= i < s.len() ==> rel(#[trigger] s[i], x),
    ensures
        pairwise(s.push(x), rel),
{
    let t = s.push(x);
    assert forall|i: int, j: int| #![trigger t[i], t[j]] 0 <= i < j < t.len() implies rel(
        t[i],
        t[j],
    ) by {
        assert(t[i] == s[i]);
        if j < s.len() {
            assert(t[j] == s[j]);
        }
    }
}

/// A conversion that keeps the relation keeps it pairwise.
pub proof fn lemma_map_pairwise<A>(s: Seq<A>, f: spec_fn(A) -> A, rel: spec_fn(A, A) -> bool)
    requires
        pairwise(s, rel),
        forall|x: A, y: A| #[trigger] rel(x, y) ==> rel(f(x), f(y)),
    ensures
        pairwise(s.map_values(f), rel),
{
    let t = s.map_values(f);
    assert forall|i: int, j: int| #![trigger t[i], t[j]] 0 <= i < j < t.len() implies rel(
        t[i],
        t[j],
    ) by {
        assert(rel(s[i], s[j]));
    }
}

/// The first element that the predicate holds of.
pub open spec fn first_where<A>(s: Seq<A>, p: spec_fn(A) -> bool) -> Option<A>
    decreases s.len(),
{
    if s.len() == 0 {
        None
    } else if p(s[0]) {
        Some(s[0])
    } else {
        first_where(s.drop_first(), p)
    }
}

pub proof fn lemma_first_at<A>(s: Seq<A>, p: spec_fn(A) -> bool, i: int)
    requires
        0 <= i < s.len(),
        p(s[i]),
        forall|k: int| 0 <= k < i ==> !p(#[trigger] s[k]),
    ensures
        first_where(s, p) == Some(s[i]),
    decreases i,
{
    if i > 0 {
        assert(!p(s[0]));
        let t = s.drop_first();
        assert forall|k: int| 0 <= k < i - 1 implies !p(#[trigger] t[k]) by {
            assert(t[k] == s[k + 1]);
        }
        lemma_first_at(t, p, i - 1);
    }
}

pub proof fn lemma_first_absent<A>(s: Seq<A>, p: spec_fn(A) -> bool)
    requires
        forall|k: int| 0 <= k < s.len() ==> !p(#[trigger] s[k]),
    ensures
        first_where(s, p) is None,
    decreases s.len(),
{
    if s.len() > 0 {
        assert(!p(s[0]));
        let t = s.drop_first();
        assert forall|k: int| 0 <= k < t.len() implies !p(#[trigger] t[k]) by {
            assert(t[k] == s[k + 1]);
        }
        lemma_first_absent(t, p);
    }
}

pub proof fn lemma_first_exists<A>(s: Seq<A>, p: spec_fn(A) -> bool, k: int)
    requires
        0 <= k < s.len(),
        p(s[k]),
    ensures
        first_where(s, p) is Some,
    decreases s.len(),
{
    if !p(s[0]) {
        assert(s.drop_first()[k - 1] == s[k]);
        lemma_first_exists(s.drop_first(), p, k - 1);
    }
}

pub proof fn lemma_first_found<A>(s: Seq<A>, p: spec_fn(A) -> bool) -> (i: int)
    requires
        first_where(s, p) is Some,
    ensures
        0 <= i < s.len(),
        p(s[i]),
        first_where(s, p) == Some(s[i]),
        forall|k: int| 0 <= k < i ==> !p(#[trigger] s[k]),
    decreases s.len(),
{
    if p(s[0]) {
        0
    } else {
        let t = s.drop_first();
        let j = lemma_first_found(t, p);
        assert(s[j + 1] == t[j]);
        assert forall|k: int| 0 <= k < j + 1 implies !p(#[trigger] s[k]) by {
            if k > 0 {
                assert(t[k - 1] == s[k]);
            }
        }
        j + 1
    }
}

/// Leaving out elements that the predicate does not hold of leaves the first one
/// that it does hold of.
pub proof fn lemma_first_filter<A>(s: Seq<A>, p: spec_fn(A) -> bool, q: spec_fn(A) -> bool)
    requires
        forall|i: int| 0 <= i < s.len() && p(#[trigger] s[i]) ==> q(s[i]),
    ensures
        first_where(s.filter(q), p) == first_where(s, p),
    decreases s.len(),
{
    if s.len() == 0 {
        lemma_filter_empty(q);
        assert(s =~= Seq::empty());
    } else {
        let rest = s.drop_first();
        assert forall|i: int| 0 <= i < rest.len() && p(#[trigger] rest[i]) implies q(rest[i]) by {
            assert(rest[i] == s[i + 1]);
        }
        lemma_first_filter(rest, p, q);
        let head = seq![s[0]];
        assert(s =~= head + rest);
        Seq::filter_distributes_over_add(head, rest, q);
        assert(head =~= Seq::<A>::empty().push(s[0]));
        lemma_filter_push(Seq::<A>::empty(), s[0], q);
        lemma_filter_empty(q);
        if q(s[0]) {
            let f = s.filter(q);
            assert(f =~= head + rest.filter(q));
            assert(f[0] == s[0]);
            assert(f.drop_first() =~= rest.filter(q));
        } else {
            assert(s.filter(q) =~= rest.filter(q));
        }
    }
}

/// The first element of a longer sequence is that of the shorter one, if it has one.
pub proof fn lemma_first_push<A>(s: Seq<A>, x: A, p: spec_fn(A) -> bool)
    ensures
        first_where(s.push(x), p) == (match first_where(s, p) {
            Some(y) => Some(y),
            None => if p(x) {
                Some(x)
            } else {
                None
            },
        }),
    decreases s.len(),
{
    if s.len() == 0 {
        assert(first_where(s.push(x).drop_first(), p) is None);
        assert(s.push(x)[0] == x);
    } else {
        assert(s.push(x)[0] == s[0]);
        assert(s.push(x).drop_first() =~= s.drop_first().push(x));
        lemma_first_push(s.drop_first(), x, p);
    }
}

/// The same relation under two names holds of the same lists.
pub proof fn lemma_same_pairwise<A>(
    s: Seq<A>,
    p: spec_fn(A, A) -> bool,
    q: spec_fn(A, A) -> bool,
)
    requires
        forall|a: A, b: A| #[trigger] p(a, b) == q(a, b),
    ensures
        pairwise(s, p) == pairwise(s, q),
{
    if pairwise(s, p) {
        assert forall|i: int, j: int| #![trigger s[i], s[j]] 0 <= i < j < s.len() implies q(
            s[i],
            s[j],
        ) by {
            assert(p(s[i], s[j]));
        }
    }
    if pairwise(s, q) {
        assert forall|i: int, j: int| #![trigger s[i], s[j]] 0 <= i < j < s.len() implies p(
            s[i],
            s[j],
        ) by {
            assert(q(s[i], s[j]));
        }
    }
}

} // verus!
