//! Small operations on vectors of integers.
use std::collections::HashSet;

use vstd::prelude::*;

use crate::positions::kept_where;
use crate::positions::lemma_kept_all;
use crate::positions::lemma_kept_congruent;
use crate::positions::lemma_kept_contains;
use crate::positions::lemma_kept_pairwise;
use crate::positions::lemma_kept_run;
use crate::positions::lemma_reversed_listed;
use crate::positions::listed;
use crate::positions::remove_positions;
use crate::positions::reversed;
use crate::positions::strictly_decreasing;
use crate::positions::strictly_increasing;

verus! {

broadcast use vstd::std_specs::hash::group_hash_axioms;

/// Every element of `s` plus `n` fits in an `i32`.
pub open spec fn sums_fit(s: Seq<i32>, n: i32) -> bool {
    forall|i: int| 0 <= i < s.len() ==> i32::MIN <= #[trigger] s[i] + n <= i32::MAX
}

/// A new vector whose elements are those of `v`, each plus `n`.
pub fn add_n(v: Vec<i32>, n: i32) -> (r: Vec<i32>)
    requires
        sums_fit(v@, n),
    ensures
        r@.len() == v@.len(),
        forall|i: int| 0 <= i < v@.len() ==> #[trigger] r@[i] == v@[i] + n,
{
    let mut r: Vec<i32> = Vec::new();
    let len = v.len();
    for i in 0..len
        invariant
            len == v@.len(),
            sums_fit(v@, n),
            r@.len() == i,
            forall|k: int| 0 <= k < i ==> #[trigger] r@[k] == v@[k] + n,
    {
        let x = v[i];
        r.push(x + n);
    }
    r
}

/// Adds `n` to every element of `v`, in place.
pub fn add_n_inplace(v: &mut Vec<i32>, n: i32)
    requires
        sums_fit(old(v)@, n),
    ensures
        final(v)@.len() == old(v)@.len(),
        forall|i: int| 0 <= i < old(v)@.len() ==> #[trigger] final(v)@[i] == old(v)@[i] + n,
{
    let len = v.len();
    for i in 0..len
        invariant
            len == v@.len(),
            len == old(v)@.len(),
            sums_fit(old(v)@, n),
            forall|k: int| 0 <= k < i ==> #[trigger] v@[k] == old(v)@[k] + n,
            forall|k: int| i <= k < len ==> #[trigger] v@[k] == old(v)@[k],
    {
        let x = v[i];
        v.set(i, x + n);
    }
}

/// Position `j` of `s` repeats a value that an earlier position holds, where
/// only the positions from 1 on take part: the first element is never
/// compared with the others.
pub open spec fn is_repeat(s: Seq<i32>, j: int) -> bool {
    &&& 1 <= j < s.len()
    &&& exists|k: int| 1 <= k < j && s[k] == s[j]
}

/// What `dedup` leaves of `s`: the elements whose positions are not repeats,
/// in their order.
pub open spec fn deduplicated(s: Seq<i32>) -> Seq<i32> {
    kept_where(s, |j: int| is_repeat(s, j), 0)
}

/// Removes the elements of `v` that repeat a value held at an earlier
/// position (positions from 1 on; the first element always stays), and
/// returns the positions removed, from the largest to the smallest.
pub fn dedup(v: &mut Vec<i32>) -> (duplicated: Vec<usize>)
    ensures
        final(v)@ == deduplicated(old(v)@),
        strictly_decreasing(duplicated@),
        forall|j: int| #[trigger] listed(duplicated@, j) <==> is_repeat(old(v)@, j),
{
    let ghost s = v@;
    let mut hash_set: HashSet<i32> = HashSet::new();
    let mut duplicated_indices: Vec<usize> = Vec::new();
    let len = v.len();
    let mut index: usize = 1;
    while index < len
        invariant
            len == v@.len(),
            v@ == s,
            1 <= index,
            index <= len || len == 0,
            forall|x: i32| #[trigger] hash_set@.contains(x) <==> exists|k: int| 1 <= k < index && s[k] == x,
            strictly_increasing(duplicated_indices@),
            forall|m: int| 0 <= m < duplicated_indices@.len() ==> duplicated_indices@[m] < index,
            forall|j: int| #[trigger] listed(duplicated_indices@, j) <==> (j < index && is_repeat(s, j)),
        decreases len - index,
    {
        let value = v[index];
        let ghost prev = duplicated_indices@;
        let ghost prev_set = hash_set@;
        if hash_set.contains(&value) {
            duplicated_indices.push(index);
            proof {
                assert(duplicated_indices@[duplicated_indices@.len() - 1] == index);
            }
        } else {
            hash_set.insert(value);
        }
        proof {
            assert forall|j: int| #[trigger] listed(duplicated_indices@, j) <==> (j < index + 1
                && is_repeat(s, j)) by {
                if listed(prev, j) {
                    let m = choose|m: int| 0 <= m < prev.len() && prev[m] as int == j;
                    assert(duplicated_indices@[m] == prev[m]);
                }
                if listed(duplicated_indices@, j) && j != index {
                    let m = choose|m: int|
                        0 <= m < duplicated_indices@.len() && duplicated_indices@[m] as int == j;
                    assert(m < prev.len());
                    assert(listed(prev, j));
                }
                if j == index as int && is_repeat(s, j) {
                    let k = choose|k: int| 1 <= k < j && s[k] == s[j];
                    assert(prev_set.contains(s[k]));
                }
            }
            assert forall|x: i32| #[trigger] hash_set@.contains(x) <==> exists|k: int|
                1 <= k < index + 1 && s[k] == x by {
                if x == value {
                    assert(s[index as int] == x);
                }
            }
        }
        index = index + 1;
    }
    let ghost ascending = duplicated_indices@;
    let duplicated = reversed(&duplicated_indices);
    proof {
        lemma_reversed_listed(ascending);
        assert forall|k: int| 0 <= k < duplicated@.len() implies duplicated@[k] < s.len() by {
            let m = ascending.len() - 1 - k;
            assert(duplicated@[k] == ascending[m]);
            assert(listed(ascending, ascending[m] as int));
        }
    }
    remove_positions(v, &duplicated);
    proof {
        lemma_kept_congruent(s, |i: int| listed(duplicated@, i), |j: int| is_repeat(s, j), 0);
    }
    duplicated
}

/// `add_n` and `add_n_inplace` agree: a vector that `add_n` returns and one
/// that `add_n_inplace` leaves, from the same vector and number, are equal.
pub proof fn lemma_add_n_agree(s: Seq<i32>, n: i32, returned: Seq<i32>, updated: Seq<i32>)
    requires
        returned.len() == s.len(),
        forall|i: int| 0 <= i < s.len() ==> #[trigger] returned[i] == s[i] + n,
        updated.len() == s.len(),
        forall|i: int| 0 <= i < s.len() ==> #[trigger] updated[i] == s[i] + n,
    ensures
        returned == updated,
{
    assert(returned =~= updated);
}

/// After `dedup`, no value occurs twice among the positions from 1 on, and
/// the first element is the first element of the input.
pub proof fn lemma_dedup_distinct(s: Seq<i32>)
    ensures
        forall|a: int, b: int|
            1 <= a < b < deduplicated(s).len() ==> deduplicated(s)[a] != deduplicated(s)[b],
        s.len() > 0 ==> deduplicated(s).len() > 0 && deduplicated(s)[0] == s[0],
{
    if s.len() > 0 {
        let gone = |j: int| is_repeat(s, j);
        let rel = |x: i32, y: i32| x != y;
        assert forall|i: int, j: int|
            1 <= i < j < s.len() && !gone(i) && !gone(j) implies #[trigger] rel(s[i], s[j]) by {
            if s[i] == s[j] {
                assert(is_repeat(s, j));
            }
        }
        lemma_kept_pairwise(s, gone, 1, rel);
        let r = deduplicated(s);
        let rest = kept_where(s, gone, 1);
        assert(!gone(0));
        assert(r == seq![s[0]] + rest);
        assert forall|a: int, b: int| 1 <= a < b < r.len() implies r[a] != r[b] by {
            assert(r[a] == rest[a - 1] && r[b] == rest[b - 1]);
            assert(rel(rest[a - 1], rest[b - 1]));
        }
    }
}

/// Every repeated value goes back to a position that is no repeat.
proof fn lemma_repeat_origin(s: Seq<i32>, j: int) -> (k: int)
    requires
        0 <= j < s.len(),
    ensures
        0 <= k <= j,
        s[k] == s[j],
        !is_repeat(s, k),
    decreases j,
{
    if is_repeat(s, j) {
        let k0 = choose|k0: int| 1 <= k0 < j && s[k0] == s[j];
        lemma_repeat_origin(s, k0)
    } else {
        j
    }
}

/// `dedup` loses no value and brings in none: a value occurs in the result
/// exactly when it occurs in the input.
pub proof fn lemma_dedup_same_values(s: Seq<i32>)
    ensures
        forall|x: i32| #[trigger] deduplicated(s).contains(x) <==> s.contains(x),
{
    let gone = |j: int| is_repeat(s, j);
    let p = |x: i32| s.contains(x);
    assert forall|i: int| 0 <= i < s.len() && !gone(i) implies #[trigger] p(s[i]) by {
        assert(s[i] == s[i]);
    }
    lemma_kept_all(s, gone, 0, p);
    assert forall|x: i32| #[trigger] deduplicated(s).contains(x) <==> s.contains(x) by {
        if s.contains(x) {
            let j = choose|j: int| 0 <= j < s.len() && s[j] == x;
            let k = lemma_repeat_origin(s, j);
            lemma_kept_contains(s, gone, 0, k);
        }
        if deduplicated(s).contains(x) {
            let i = choose|i: int| 0 <= i < deduplicated(s).len() && deduplicated(s)[i] == x;
            assert(p(deduplicated(s)[i]));
        }
    }
}

/// `dedup` is idempotent: a second `dedup` removes nothing.
pub proof fn lemma_dedup_idempotent(s: Seq<i32>)
    ensures
        deduplicated(deduplicated(s)) == deduplicated(s),
{
    let r = deduplicated(s);
    lemma_dedup_distinct(s);
    let gone = |j: int| is_repeat(r, j);
    assert forall|j: int| 0 <= j < r.len() implies !#[trigger] gone(j) by {
        if is_repeat(r, j) {
            let k = choose|k: int| 1 <= k < j && r[k] == r[j];
        }
    }
    lemma_kept_run(r, gone, 0, r.len() as int);
    assert(r.subrange(0, r.len() as int) =~= r);
    assert(kept_where(r, gone, r.len() as int) =~= Seq::<i32>::empty());
}

} // verus!
