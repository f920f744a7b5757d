//! Removing elements of a vector by position.
//!
//! Both the single-threaded executor and `dedup` first collect the positions
//! to drop in increasing order, reverse that list, and then remove the
//! positions one by one from the back, so that no removal shifts a position
//! that is still to be removed.
use vstd::prelude::*;

verus! {

/// The elements of `s` at the positions `from..s.len()` for which `gone` is
/// false, in their order.
pub open spec fn kept_where<T>(s: Seq<T>, gone: spec_fn(int) -> bool, from: int) -> Seq<T>
    decreases s.len() - from,
{
    if from < 0 || from >= s.len() {
        Seq::empty()
    } else if gone(from) {
        kept_where(s, gone, from + 1)
    } else {
        seq![s[from]] + kept_where(s, gone, from + 1)
    }
}

/// The positions of `p` are listed in strictly decreasing order.
pub open spec fn strictly_decreasing(p: Seq<usize>) -> bool {
    forall|i: int, j: int| 0 <= i < j < p.len() ==> p[j] < p[i]
}

/// The positions of `p` are listed in strictly increasing order.
pub open spec fn strictly_increasing(p: Seq<usize>) -> bool {
    forall|i: int, j: int| 0 <= i < j < p.len() ==> p[i] < p[j]
}

/// A position is listed in `p`.
pub open spec fn listed(p: Seq<usize>, i: int) -> bool {
    exists|k: int| 0 <= k < p.len() && p[k] as int == i
}

/// Where no position of `[j, b)` is dropped, the kept elements from `j` on
/// are `s[j..b]` followed by the kept elements from `b` on.
pub proof fn lemma_kept_run<T>(s: Seq<T>, gone: spec_fn(int) -> bool, j: int, b: int)
    requires
        0 <= j <= b <= s.len(),
        forall|i: int| j <= i < b ==> !#[trigger] gone(i),
    ensures
        kept_where(s, gone, j) == s.subrange(j, b) + kept_where(s, gone, b),
    decreases b - j,
{
    if j < b {
        lemma_kept_run(s, gone, j + 1, b);
        assert(s.subrange(j, b) == seq![s[j]] + s.subrange(j + 1, b));
    } else {
        assert(s.subrange(j, b) =~= Seq::<T>::empty());
    }
}

/// The kept elements depend only on `gone` at the positions from `from` on.
pub proof fn lemma_kept_congruent<T>(
    s: Seq<T>,
    gone1: spec_fn(int) -> bool,
    gone2: spec_fn(int) -> bool,
    from: int,
)
    requires
        0 <= from,
        forall|i: int| from <= i < s.len() ==> #[trigger] gone1(i) == gone2(i),
    ensures
        kept_where(s, gone1, from) == kept_where(s, gone2, from),
    decreases s.len() - from,
{
    if from < s.len() {
        lemma_kept_congruent(s, gone1, gone2, from + 1);
    }
}

/// Every element kept from `from` on satisfies `p` when every position that
/// is not dropped holds an element satisfying `p`.
pub proof fn lemma_kept_all<T>(s: Seq<T>, gone: spec_fn(int) -> bool, from: int, p: spec_fn(T) -> bool)
    requires
        0 <= from,
        forall|i: int| from <= i < s.len() && !gone(i) ==> #[trigger] p(s[i]),
    ensures
        forall|k: int| 0 <= k < kept_where(s, gone, from).len() ==> p(#[trigger] kept_where(s, gone, from)[k]),
    decreases s.len() - from,
{
    if from < s.len() {
        lemma_kept_all(s, gone, from + 1, p);
        let rest = kept_where(s, gone, from + 1);
        if !gone(from) {
            assert forall|k: int| 0 <= k < kept_where(s, gone, from).len() implies p(
                #[trigger] kept_where(s, gone, from)[k],
            ) by {
                if k > 0 {
                    assert(kept_where(s, gone, from)[k] == rest[k - 1]);
                }
            }
        }
    }
}

/// An element at a position that is not dropped is kept.
pub proof fn lemma_kept_contains<T>(s: Seq<T>, gone: spec_fn(int) -> bool, from: int, k: int)
    requires
        0 <= from <= k < s.len(),
        !gone(k),
    ensures
        kept_where(s, gone, from).contains(s[k]),
    decreases k - from,
{
    let rest = kept_where(s, gone, from + 1);
    if from == k {
        assert(kept_where(s, gone, from)[0] == s[k]);
    } else {
        lemma_kept_contains(s, gone, from + 1, k);
        let i = choose|i: int| 0 <= i < rest.len() && rest[i] == s[k];
        if gone(from) {
        } else {
            assert(kept_where(s, gone, from)[i + 1] == rest[i]);
        }
    }
}

/// A relation that holds between any two kept positions, in order, holds
/// between any two kept elements, in order.
pub proof fn lemma_kept_pairwise<T>(
    s: Seq<T>,
    gone: spec_fn(int) -> bool,
    from: int,
    rel: spec_fn(T, T) -> bool,
)
    requires
        0 <= from,
        forall|i: int, j: int|
            from <= i < j < s.len() && !gone(i) && !gone(j) ==> #[trigger] rel(s[i], s[j]),
    ensures
        forall|a: int, b: int|
            0 <= a < b < kept_where(s, gone, from).len() ==> #[trigger] rel(
                kept_where(s, gone, from)[a],
                kept_where(s, gone, from)[b],
            ),
    decreases s.len() - from,
{
    if from < s.len() {
        lemma_kept_pairwise(s, gone, from + 1, rel);
        let rest = kept_where(s, gone, from + 1);
        if !gone(from) {
            let first = s[from];
            let p = |x: T| rel(first, x);
            assert forall|i: int| from + 1 <= i < s.len() && !gone(i) implies #[trigger] p(s[i]) by {
                assert(rel(s[from], s[i]));
            }
            lemma_kept_all(s, gone, from + 1, p);
            let k = kept_where(s, gone, from);
            assert forall|a: int, b: int| 0 <= a < b < k.len() implies #[trigger] rel(k[a], k[b]) by {
                assert(k[b] == rest[b - 1]);
                if a == 0 {
                    assert(p(rest[b - 1]));
                } else {
                    assert(k[a] == rest[a - 1]);
                }
            }
        }
    }
}

/// Removes from `v` the elements at the positions of `pos`, which are listed
/// from the largest to the smallest.
pub fn remove_positions<T>(v: &mut Vec<T>, pos: &Vec<usize>)
    requires
        strictly_decreasing(pos@),
        forall|k: int| 0 <= k < pos@.len() ==> pos@[k] < old(v)@.len(),
    ensures
        final(v)@ == kept_where(old(v)@, |i: int| listed(pos@, i), 0),
        final(v)@.len() == old(v)@.len() - pos@.len(),
{
    let ghost s = v@;
    let ghost gone = |i: int| listed(pos@, i);
    let n = pos.len();
    let mut k: usize = 0;
    while k < n
        invariant
            n == pos@.len(),
            0 <= k <= n,
            strictly_decreasing(pos@),
            forall|m: int| 0 <= m < pos@.len() ==> pos@[m] < s.len(),
            gone == (|i: int| listed(pos@, i)),
            ({
                let b: int = if k == 0 { s.len() as int } else { pos@[k - 1] as int };
                &&& 0 <= b <= s.len()
                &&& v@ == s.take(b) + kept_where(s, gone, b)
            }),
            v@.len() == s.len() - k,
        decreases n - k,
    {
        let d = pos[k];
        let ghost b: int = if k == 0 { s.len() as int } else { pos@[k - 1] as int };
        proof {
            assert forall|i: int| d + 1 <= i < b implies !#[trigger] gone(i) by {
                if listed(pos@, i) {
                    let m = choose|m: int| 0 <= m < pos@.len() && pos@[m] as int == i;
                    if m < k as int {
                        assert(pos@[m] >= pos@[k - 1]);
                    } else if m > k as int {
                        assert(pos@[m] < pos@[k as int]);
                    }
                }
            }
            lemma_kept_run(s, gone, d + 1, b);
            assert(gone(d as int));
            assert(kept_where(s, gone, d as int) == kept_where(s, gone, d + 1));
        }
        v.remove(d);
        proof {
            assert(v@ =~= s.take(d as int) + (s.subrange(d + 1, b) + kept_where(s, gone, b)));
        }
        k = k + 1;
    }
    proof {
        let b: int = if n == 0 { s.len() as int } else { pos@[n - 1] as int };
        assert forall|i: int| 0 <= i < b implies !#[trigger] gone(i) by {
            if listed(pos@, i) {
                let m = choose|m: int| 0 <= m < pos@.len() && pos@[m] as int == i;
                assert(pos@[m] >= pos@[n - 1]);
            }
        }
        lemma_kept_run(s, gone, 0, b);
        assert(s.subrange(0, b) == s.take(b));
    }
}

/// Reversing a strictly increasing list of positions gives a strictly
/// decreasing one that lists the same positions.
pub proof fn lemma_reversed_listed(p: Seq<usize>)
    requires
        strictly_increasing(p),
    ensures
        strictly_decreasing(p.reverse()),
        forall|i: int| #[trigger] listed(p.reverse(), i) <==> listed(p, i),
{
    let r = p.reverse();
    assert forall|i: int| #[trigger] listed(r, i) <==> listed(p, i) by {
        if listed(r, i) {
            let k = choose|k: int| 0 <= k < r.len() && r[k] as int == i;
            assert(p[p.len() - 1 - k] as int == i);
        }
        if listed(p, i) {
            let k = choose|k: int| 0 <= k < p.len() && p[k] as int == i;
            assert(r[p.len() - 1 - k] as int == i);
        }
    }
}

/// The list `v` in reverse order.
pub fn reversed(v: &Vec<usize>) -> (r: Vec<usize>)
    ensures
        r@ == v@.reverse(),
{
    let n = v.len();
    let mut r: Vec<usize> = Vec::new();
    let mut k: usize = n;
    while k > 0
        invariant
            n == v@.len(),
            k <= n,
            r@.len() == n - k,
            forall|i: int| 0 <= i < r@.len() ==> r@[i] == v@[n - 1 - i],
        decreases k,
    {
        k = k - 1;
        r.push(v[k]);
    }
    assert(r@ =~= v@.reverse());
    r
}

} // verus!
