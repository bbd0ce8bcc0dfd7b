//! Putting rows in order.

use vstd::prelude::*;

use crate::seqs::pairwise;
use crate::storage::tables::rows;

verus! {

/// `s` with `x` put before those elements at its end that `x` goes before.
pub open spec fn place<A>(s: Seq<A>, x: A, before: spec_fn(A, A) -> bool) -> Seq<A>
    decreases s.len(),
{
    if s.len() > 0 && before(x, s.last()) {
        place(s.drop_last(), x, before).push(s.last())
    } else {
        s.push(x)
    }
}

/// `s` in the order in which `before` says what goes before what. Elements that
/// go neither before nor after each other stay as they were.
pub open spec fn arranged<A>(s: Seq<A>, before: spec_fn(A, A) -> bool) -> Seq<A>
    decreases s.len(),
{
    if s.len() == 0 {
        s
    } else {
        place(arranged(s.drop_last(), before), s.last(), before)
    }
}

/// `before` is the order of some ranking: what goes before one element goes
/// before it or before whatever else is ranked with it.
pub open spec fn ranks<A>(before: spec_fn(A, A) -> bool) -> bool {
    &&& forall|a: A, b: A| #[trigger] before(a, b) ==> !before(b, a)
    &&& forall|a: A, b: A, c: A| #[trigger] before(a, b) ==> #[trigger] before(a, c) || before(c, b)
}

proof fn lemma_place_at<A>(s: Seq<A>, x: A, before: spec_fn(A, A) -> bool, at: int)
    requires
        0 <= at <= s.len(),
        forall|k: int| at <= k < s.len() ==> before(x, #[trigger] s[k]),
        at > 0 ==> !before(x, s[at - 1]),
    ensures
        place(s, x, before) == s.insert(at, x),
    decreases s.len(),
{
    if at < s.len() {
        assert(before(x, s[s.len() - 1]));
        let rest = s.drop_last();
        assert forall|k: int| at <= k < rest.len() implies before(x, #[trigger] rest[k]) by {
            assert(rest[k] == s[k]);
        }
        lemma_place_at(rest, x, before, at);
        assert(rest.insert(at, x).push(s.last()) =~= s.insert(at, x));
    } else {
        assert(s.push(x) =~= s.insert(at, x));
    }
}

/// Where an element is placed.
proof fn lemma_place<A>(s: Seq<A>, x: A, before: spec_fn(A, A) -> bool) -> (at: int)
    ensures
        0 <= at <= s.len(),
        forall|k: int| at <= k < s.len() ==> before(x, #[trigger] s[k]),
        at > 0 ==> !before(x, s[at - 1]),
        place(s, x, before) == s.insert(at, x),
    decreases s.len(),
{
    if s.len() > 0 && before(x, s.last()) {
        let rest = s.drop_last();
        let at = lemma_place(rest, x, before);
        assert forall|k: int| at <= k < s.len() implies before(x, #[trigger] s[k]) by {
            if k < rest.len() {
                assert(rest[k] == s[k]);
            }
        }
        assert(rest.insert(at, x).push(s.last()) =~= s.insert(at, x));
        at
    } else {
        assert(s.push(x) =~= s.insert(s.len() as int, x));
        s.len() as int
    }
}

/// Arranging keeps the elements, each as often as it occurred.
pub proof fn lemma_arranged_same<A>(s: Seq<A>, before: spec_fn(A, A) -> bool)
    ensures
        arranged(s, before).to_multiset() == s.to_multiset(),
        arranged(s, before).len() == s.len(),
    decreases s.len(),
{
    if s.len() > 0 {
        let rest = s.drop_last();
        lemma_arranged_same(rest, before);
        let at = lemma_place(arranged(rest, before), s.last(), before);
        vstd::seq_lib::to_multiset_insert(arranged(rest, before), at, s.last());
        vstd::seq_lib::to_multiset_build(rest, s.last());
        assert(rest.push(s.last()) =~= s);
    }
}

/// Every arranged element is one of those that were arranged.
pub proof fn lemma_arranged_member<A>(s: Seq<A>, before: spec_fn(A, A) -> bool, i: int)
    requires
        0 <= i < arranged(s, before).len(),
    ensures
        s.contains(arranged(s, before)[i]),
{
    let r = arranged(s, before);
    lemma_arranged_same(s, before);
    assert(r.contains(r[i]));
    vstd::seq_lib::to_multiset_contains(r, r[i]);
    vstd::seq_lib::to_multiset_contains(s, r[i]);
}

/// Every element that was arranged is one of the arranged ones.
pub proof fn lemma_arranged_keeps<A>(s: Seq<A>, before: spec_fn(A, A) -> bool, i: int)
    requires
        0 <= i < s.len(),
    ensures
        arranged(s, before).contains(s[i]),
{
    let r = arranged(s, before);
    lemma_arranged_same(s, before);
    assert(s.contains(s[i]));
    vstd::seq_lib::to_multiset_contains(r, s[i]);
    vstd::seq_lib::to_multiset_contains(s, s[i]);
}

/// No element comes after one that it goes before.
pub proof fn lemma_arranged_order<A>(s: Seq<A>, before: spec_fn(A, A) -> bool)
    requires
        ranks(before),
    ensures
        pairwise(arranged(s, before), |a: A, b: A| !before(b, a)),
    decreases s.len(),
{
    if s.len() > 0 {
        let rest = s.drop_last();
        let x = s.last();
        let q = arranged(rest, before);
        lemma_arranged_order(rest, before);
        let at = lemma_place(q, x, before);
        let r = q.insert(at, x);
        assert forall|i: int, j: int| #![trigger r[i], r[j]] 0 <= i < j < r.len() implies !before(
            r[j],
            r[i],
        ) by {
            if j < at {
                assert(r[i] == q[i] && r[j] == q[j]);
            } else if j == at {
                if before(x, q[i]) {
                    if i < at - 1 {
                        assert(!before(q[at - 1], q[i]));
                        assert(before(x, q[at - 1]) || before(q[at - 1], q[i]));
                    }
                }
            } else if i < at {
                assert(r[i] == q[i] && r[j] == q[j - 1]);
            } else if i == at {
                assert(r[j] == q[j - 1]);
                assert(before(x, q[j - 1]));
            } else {
                assert(r[i] == q[i - 1] && r[j] == q[j - 1]);
            }
        }
    }
}

/// What holds of every two elements in both directions holds of every two arranged ones.
pub proof fn lemma_arranged_pairwise<A>(
    s: Seq<A>,
    before: spec_fn(A, A) -> bool,
    rel: spec_fn(A, A) -> bool,
)
    requires
        pairwise(s, rel),
        forall|a: A, b: A| #[trigger] rel(a, b) ==> rel(b, a),
    ensures
        pairwise(arranged(s, before), rel),
    decreases s.len(),
{
    if s.len() > 0 {
        let rest = s.drop_last();
        let x = s.last();
        let q = arranged(rest, before);
        assert forall|i: int, j: int| #![trigger rest[i], rest[j]] 0 <= i < j
            < rest.len() implies rel(rest[i], rest[j]) by {
            assert(rest[i] == s[i] && rest[j] == s[j]);
        }
        lemma_arranged_pairwise(rest, before, rel);
        let at = lemma_place(q, x, before);
        let r = q.insert(at, x);
        assert forall|i: int| 0 <= i < q.len() implies rel(#[trigger] q[i], x) by {
            lemma_arranged_member(rest, before, i);
            let k = choose|k: int| 0 <= k < rest.len() && rest[k] == q[i];
            assert(rel(s[k], s[s.len() - 1]));
        }
        assert forall|i: int, j: int| #![trigger r[i], r[j]] 0 <= i < j < r.len() implies rel(
            r[i],
            r[j],
        ) by {
            if j < at {
                assert(r[i] == q[i] && r[j] == q[j]);
            } else if j == at {
                assert(r[i] == q[i]);
            } else if i < at {
                assert(r[i] == q[i] && r[j] == q[j - 1]);
            } else if i == at {
                assert(r[j] == q[j - 1]);
                assert(rel(q[j - 1], x));
            } else {
                assert(r[i] == q[i - 1] && r[j] == q[j - 1]);
            }
        }
    }
}

/// Puts rows in order.
pub(crate) fn arrange<T: View, F: Fn(&T, &T) -> bool>(
    v: Vec<T>,
    cond: F,
    Ghost(before): Ghost<spec_fn(T::V, T::V) -> bool>,
) -> (r: Vec<T>)
    requires
        forall|a: &T, b: &T| call_requires(cond, (a, b)),
        forall|a: &T, b: &T, c: bool| call_ensures(cond, (a, b), c) ==> c == before(a@, b@),
    ensures
        rows(r@) == arranged(rows(v@), before),
{
    let ghost all = v@;
    let mut rest = v;
    let mut r: Vec<T> = Vec::new();
    let ghost mut done: int = 0;
    proof {
        assert(rows(r@) =~= arranged(rows(all).take(0), before));
        assert(rest@ =~= all.skip(0));
    }
    while rest.len() > 0
        invariant
            0 <= done <= all.len(),
            rest@ == all.skip(done),
            rows(r@) == arranged(rows(all).take(done), before),
            forall|a: &T, b: &T| call_requires(cond, (a, b)),
            forall|a: &T, b: &T, c: bool| call_ensures(cond, (a, b), c) ==> c == before(a@, b@),
        decreases rest@.len(),
    {
        let ghost left = rest@;
        let x = rest.remove(0);
        let ghost q = rows(r@);
        proof {
            assert(left.len() == all.len() - done);
            assert(x == all[done]);
            assert(rest@ =~= all.skip(done + 1));
            assert(rows(all).take(done + 1).drop_last() =~= rows(all).take(done));
            assert(rows(all).take(done + 1).last() == x@);
        }
        let mut at: usize = r.len();
        while at > 0 && cond(&x, &r[at - 1])
            invariant
                at <= r@.len(),
                q == rows(r@),
                forall|a: &T, b: &T| call_requires(cond, (a, b)),
                forall|a: &T, b: &T, c: bool|
                    call_ensures(cond, (a, b), c) ==> c == before(a@, b@),
                forall|k: int| at <= k < q.len() ==> before(x@, #[trigger] q[k]),
            decreases at,
        {
            proof {
                assert(q[at - 1] == r@[at - 1]@);
            }
            at -= 1;
        }
        proof {
            if at > 0 {
                assert(q[at - 1] == r@[at - 1]@);
            }
            lemma_place_at(q, x@, before, at as int);
            assert(rows(r@.insert(at as int, x)) =~= q.insert(at as int, x@));
            done = done + 1;
        }
        r.insert(at, x);
    }
    proof {
        assert(all.skip(done).len() == all.len() - done);
        assert(rows(all).take(done) =~= rows(all));
    }
    r
}

/// What is in order already stays as it is.
pub proof fn lemma_arranged_already<A>(s: Seq<A>, before: spec_fn(A, A) -> bool)
    requires
        pairwise(s, |a: A, b: A| !before(b, a)),
    ensures
        arranged(s, before) == s,
    decreases s.len(),
{
    if s.len() > 0 {
        let rest = s.drop_last();
        let rel = |a: A, b: A| !before(b, a);
        assert forall|i: int, j: int| #![trigger rest[i], rest[j]] 0 <= i < j
            < rest.len() implies rel(rest[i], rest[j]) by {
            assert(rel(s[i], s[j]));
        }
        lemma_arranged_already(rest, before);
        if rest.len() > 0 {
            assert(rel(s[s.len() - 2], s[s.len() - 1]));
        }
        assert(rest.push(s.last()) =~= s);
    }
}

} // verus!
