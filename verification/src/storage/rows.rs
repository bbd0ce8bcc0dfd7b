//! Finding and deleting rows of a table by a condition on them.

use std::collections::HashSet;
use vstd::prelude::*;

use crate::seqs::{lemma_filter_push, pairwise};
use crate::storage::tables::rows;

verus! {

pub proof fn lemma_rows_push<T: View>(v: Seq<T>, t: T)
    ensures
        rows(v.push(t)) == rows(v).push(t@),
{
    assert(rows(v.push(t)) =~= rows(v).push(t@));
}

/// The index of the first row that the condition holds of.
pub(crate) fn position_where<T: View, F: Fn(&T) -> bool>(
    v: &Vec<T>,
    cond: F,
    Ghost(p): Ghost<spec_fn(T::V) -> bool>,
) -> (r: Option<usize>)
    requires
        forall|t: &T| call_requires(cond, (t,)),
        forall|t: &T, b: bool| call_ensures(cond, (t,), b) ==> b == p(t@),
    ensures
        match r {
            Some(i) => i < v@.len() && p(v@[i as int]@) && forall|k: int|
                0 <= k < i ==> !p((#[trigger] v@[k])@),
            None => forall|k: int| 0 <= k < v@.len() ==> !p((#[trigger] v@[k])@),
        },
{
    let mut i: usize = 0;
    while i < v.len()
        invariant
            i <= v@.len(),
            forall|t: &T| call_requires(cond, (t,)),
            forall|t: &T, b: bool| call_ensures(cond, (t,), b) ==> b == p(t@),
            forall|k: int| 0 <= k < i ==> !p((#[trigger] v@[k])@),
        decreases v@.len() - i,
    {
        if cond(&v[i]) {
            return Some(i);
        }
        i += 1;
    }
    None
}

/// Deletes the rows that the condition holds of.
pub(crate) fn delete_where<T: View, F: Fn(&T) -> bool>(
    v: &mut Vec<T>,
    cond: F,
    Ghost(p): Ghost<spec_fn(T::V) -> bool>,
)
    requires
        forall|t: &T| call_requires(cond, (t,)),
        forall|t: &T, b: bool| call_ensures(cond, (t,), b) ==> b == p(t@),
    ensures
        rows(final(v)@) == rows(old(v)@).filter(|r: T::V| !p(r)),
{
    let ghost start = v@;
    let ghost keep = |r: T::V| !p(r);
    let ghost mut seen: int = 0;
    let mut i: usize = 0;
    proof {
        assert(v@.skip(0) =~= start.skip(0));
        assert(rows(v@.take(0)) =~= Seq::empty());
        assert(rows(start.take(0)) =~= Seq::empty());
        crate::seqs::lemma_filter_empty(keep);
    }
    while i < v.len()
        invariant
            i <= v@.len(),
            0 <= seen <= start.len(),
            keep == (|r: T::V| !p(r)),
            forall|t: &T| call_requires(cond, (t,)),
            forall|t: &T, b: bool| call_ensures(cond, (t,), b) ==> b == p(t@),
            v@.skip(i as int) == start.skip(seen),
            rows(v@.take(i as int)) == rows(start.take(seen)).filter(keep),
        decreases v@.len() - i,
    {
        let ghost before = v@;
        proof {
            assert(v@.skip(i as int).len() == v@.len() - i);
            assert(start.skip(seen).len() == start.len() - seen);
            assert(v@.skip(i as int)[0] == v@[i as int]);
            assert(start.skip(seen)[0] == start[seen]);
            assert(start.take(seen + 1) =~= start.take(seen).push(start[seen]));
            lemma_rows_push(start.take(seen), start[seen]);
            lemma_filter_push(rows(start.take(seen)), start[seen]@, keep);
            assert(start.skip(seen + 1) =~= start.skip(seen).skip(1));
        }
        if cond(&v[i]) {
            let _ = v.remove(i);
            proof {
                assert(v@.take(i as int) =~= before.take(i as int));
                assert(v@.skip(i as int) =~= before.skip(i as int).skip(1));
            }
        } else {
            proof {
                assert(v@.take(i + 1) =~= v@.take(i as int).push(v@[i as int]));
                lemma_rows_push(v@.take(i as int), v@[i as int]);
                assert(v@.skip(i + 1) =~= v@.skip(i as int).skip(1));
            }
            i += 1;
        }
        proof {
            seen = seen + 1;
        }
    }
    proof {
        assert(v@.skip(i as int).len() == 0);
        assert(start.skip(seen).len() == start.len() - seen);
        assert(start.take(seen) =~= start);
        assert(v@.take(i as int) =~= v@);
    }
}

/// Tells whether a relation holds of every two rows, the earlier one first.
pub(crate) fn check_pairwise<T: View, F: Fn(&T, &T) -> bool>(
    v: &Vec<T>,
    cond: F,
    Ghost(rel): Ghost<spec_fn(T::V, T::V) -> bool>,
) -> (r: bool)
    requires
        forall|a: &T, b: &T| call_requires(cond, (a, b)),
        forall|a: &T, b: &T, c: bool| call_ensures(cond, (a, b), c) ==> c == rel(a@, b@),
    ensures
        r == pairwise(rows(v@), rel),
{
    let ghost s = rows(v@);
    let mut j: usize = 0;
    while j < v.len()
        invariant
            j <= v@.len(),
            s == rows(v@),
            forall|a: &T, b: &T| call_requires(cond, (a, b)),
            forall|a: &T, b: &T, c: bool| call_ensures(cond, (a, b), c) ==> c == rel(a@, b@),
            forall|a: int, b: int|
                #![trigger s[a], s[b]]
                0 <= a < b < j ==> rel(s[a], s[b]),
        decreases v@.len() - j,
    {
        let mut i: usize = 0;
        while i < j
            invariant
                i <= j < v@.len(),
                s == rows(v@),
                forall|a: &T, b: &T| call_requires(cond, (a, b)),
                forall|a: &T, b: &T, c: bool| call_ensures(cond, (a, b), c) ==> c == rel(a@, b@),
                forall|a: int| 0 <= a < i ==> rel(#[trigger] s[a], s[j as int]),
            decreases j - i,
        {
            proof {
                assert(s[i as int] == v@[i as int]@);
                assert(s[j as int] == v@[j as int]@);
            }
            if !cond(&v[i], &v[j]) {
                return false;
            }
            i += 1;
        }
        j += 1;
    }
    true
}

/// Tells whether a transitive relation holds of every two rows, the earlier one
/// first, by looking at neighbouring rows only.
pub(crate) fn check_ordered<T: View, F: Fn(&T, &T) -> bool>(
    v: &Vec<T>,
    cond: F,
    Ghost(rel): Ghost<spec_fn(T::V, T::V) -> bool>,
) -> (r: bool)
    requires
        forall|a: &T, b: &T| call_requires(cond, (a, b)),
        forall|a: &T, b: &T, c: bool| call_ensures(cond, (a, b), c) ==> c == rel(a@, b@),
        forall|a: T::V, b: T::V, c: T::V| #[trigger]
            rel(a, b) && #[trigger] rel(b, c) ==> rel(a, c),
    ensures
        r == pairwise(rows(v@), rel),
{
    let ghost s = rows(v@);
    let mut j: usize = 1;
    while j < v.len()
        invariant
            1 <= j,
            j <= v@.len() || j == 1,
            s == rows(v@),
            forall|a: &T, b: &T| call_requires(cond, (a, b)),
            forall|a: &T, b: &T, c: bool| call_ensures(cond, (a, b), c) ==> c == rel(a@, b@),
            forall|a: T::V, b: T::V, c: T::V| #[trigger]
                rel(a, b) && #[trigger] rel(b, c) ==> rel(a, c),
            forall|a: int, b: int|
                #![trigger s[a], s[b]]
                0 <= a < b < j && b < s.len() ==> rel(s[a], s[b]),
        decreases v@.len() - j,
    {
        proof {
            assert(s[j - 1] == v@[j - 1]@);
            assert(s[j as int] == v@[j as int]@);
        }
        if !cond(&v[j - 1], &v[j]) {
            return false;
        }
        proof {
            assert forall|a: int| 0 <= a < j implies rel(#[trigger] s[a], s[j as int]) by {
                if a < j - 1 {
                    assert(rel(s[a], s[j - 1]));
                }
            }
        }
        j += 1;
    }
    true
}

/// Having different keys.
pub open spec fn keys_differ<R>(key: spec_fn(R) -> i128) -> spec_fn(R, R) -> bool {
    |a: R, b: R| key(a) != key(b)
}

/// Tells whether no two rows have the same key, by looking at each row once.
pub(crate) fn check_distinct<T: View, F: Fn(&T) -> i128>(
    v: &Vec<T>,
    key_of: F,
    Ghost(key): Ghost<spec_fn(T::V) -> i128>,
) -> (r: bool)
    requires
        forall|t: &T| call_requires(key_of, (t,)),
        forall|t: &T, k: i128| call_ensures(key_of, (t,), k) ==> k == key(t@),
    ensures
        r == pairwise(rows(v@), keys_differ(key)),
{
    broadcast use vstd::std_specs::hash::group_hash_axioms;

    let ghost s = rows(v@);
    let ghost rel = keys_differ(key);
    let mut seen: HashSet<i128> = HashSet::new();
    let mut j: usize = 0;
    while j < v.len()
        invariant
            j <= v@.len(),
            s == rows(v@),
            rel == keys_differ(key),
            forall|t: &T| call_requires(key_of, (t,)),
            forall|t: &T, k: i128| call_ensures(key_of, (t,), k) ==> k == key(t@),
            forall|a: int| 0 <= a < j ==> seen@.contains(key(#[trigger] s[a])),
            forall|k: i128| #[trigger]
                seen@.contains(k) ==> exists|a: int| 0 <= a < j && key(#[trigger] s[a]) == k,
            forall|a: int, b: int|
                #![trigger s[a], s[b]]
                0 <= a < b < j ==> rel(s[a], s[b]),
        decreases v@.len() - j,
    {
        let k = key_of(&v[j]);
        proof {
            assert(s[j as int] == v@[j as int]@);
            if seen@.contains(k) {
                let a = choose|a: int| 0 <= a < j && key(#[trigger] s[a]) == k;
                assert(!rel(s[a], s[j as int]));
            }
        }
        let ghost before = seen@;
        if !seen.insert(k) {
            return false;
        }
        proof {
            assert forall|x: i128| #[trigger] seen@.contains(x) implies exists|a: int|
                0 <= a < j + 1 && key(#[trigger] s[a]) == x by {
                if before.contains(x) {
                    let a = choose|a: int| 0 <= a < j && key(#[trigger] s[a]) == x;
                    assert(key(s[a]) == x);
                } else {
                    assert(key(s[j as int]) == x);
                }
            }
            assert forall|a: int| 0 <= a < j implies rel(#[trigger] s[a], s[j as int]) by {
                assert(before.contains(key(s[a])));
            }
        }
        j += 1;
    }
    true
}

/// Two numbers as one key.
pub open spec fn pair_key(a: i64, b: i64) -> i128 {
    (a * 0x1_0000_0000_0000_0000 + (b - i64::MIN)) as i128
}

/// Two numbers as one key.
pub(crate) fn key_of_pair(a: i64, b: i64) -> (r: i128)
    ensures
        r == pair_key(a, b),
{
    a as i128 * 0x1_0000_0000_0000_0000 + (b as i128 - i64::MIN as i128)
}

/// Different pairs have different keys.
pub proof fn lemma_pair_key(a: i64, b: i64, c: i64, d: i64)
    ensures
        pair_key(a, b) == pair_key(c, d) <==> a == c && b == d,
{
}

} // verus!
