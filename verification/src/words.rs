//! The first word of a string.
use vstd::prelude::*;
use vstd::string::StringSliceAdditionalSpecFns;
use vstd::utf8::encode_utf8;
use vstd::utf8::encode_utf8_valid_utf8;
use vstd::utf8::valid_utf8;
use vstd::utf8::is_char_boundary_iff_not_is_continuation_byte;

verus! {

/// `w` is the part of the bytes `b` before the first space (byte 32), or all
/// of `b` when it has no space.
pub open spec fn is_first_word(b: Seq<u8>, w: Seq<u8>) -> bool {
    exists|k: int|
        #![trigger b.take(k)]
        0 <= k <= b.len() && w == b.take(k) && (k == b.len() || b[k] == 32) && (forall|j: int|
            0 <= j < k ==> b[j] != 32)
}

/// The part of `s` before its first space, or all of `s` when it has none.
pub fn first_word(s: &mut String) -> (r: &str)
    ensures
        is_first_word(encode_utf8(old(s)@), r.spec_bytes()),
        r.spec_bytes() == encode_utf8(old(s)@).take(r.spec_bytes().len() as int),
        forall|j: int| 0 <= j < r.spec_bytes().len() ==> r.spec_bytes()[j] != 32,
        r.spec_bytes().len() < encode_utf8(old(s)@).len() ==> encode_utf8(old(s)@)[r.spec_bytes().len() as int]
            == 32,
        *final(s) == *old(s),
{
    let t: &str = s.as_str();
    let bytes = t.as_bytes();
    let n = bytes.len();
    proof {
        encode_utf8_valid_utf8(t@);
    }
    for i in 0..n
        invariant
            n == bytes@.len(),
            bytes@ == t.spec_bytes(),
            t@ == old(s)@,
            valid_utf8(t.spec_bytes()),
            forall|j: int| 0 <= j < i ==> bytes@[j] != 32,
    {
        if bytes[i] == 32u8 {
            proof {
                is_char_boundary_iff_not_is_continuation_byte(t.spec_bytes(), i as int);
            }
            let (head, _) = t.split_at(i);
            proof {
                assert(head.spec_bytes() =~= bytes@.take(i as int));
                assert(is_first_word(bytes@, head.spec_bytes()) ) by {
                    assert(0 <= i <= bytes@.len() && head.spec_bytes() == bytes@.take(i as int)
                        && bytes@[i as int] == 32);
                }
            }
            return head;
        }
    }
    proof {
        assert(t.spec_bytes() =~= bytes@.take(n as int));
        assert(is_first_word(bytes@, t.spec_bytes()));
    }
    t
}

/// The first word of `b` is the start of `b`; it holds no space; and it
/// stops only at the end of `b` or right before a space: every byte before
/// the first space, a hyphen or any other, belongs to it. There is one such
/// word for each `b`.
pub proof fn lemma_first_word_bounds(b: Seq<u8>, w: Seq<u8>, w2: Seq<u8>)
    requires
        is_first_word(b, w),
    ensures
        w.len() <= b.len(),
        w == b.take(w.len() as int),
        forall|j: int| 0 <= j < w.len() ==> w[j] != 32,
        w.len() < b.len() ==> b[w.len() as int] == 32,
        forall|k: int| 0 <= k <= b.len() && !(#[trigger] b.take(k)).contains(32u8) ==> k <= w.len(),
        is_first_word(b, w2) ==> w2 == w,
{
    let k = choose|k: int|
        #![trigger b.take(k)]
        0 <= k <= b.len() && w == b.take(k) && (k == b.len() || b[k] == 32) && (forall|j: int|
            0 <= j < k ==> b[j] != 32);
    assert forall|m: int| 0 <= m <= b.len() && !(#[trigger] b.take(m)).contains(32u8) implies m <= w.len() by {
        if m > k {
            assert(b.take(m)[k] == b[k]);
        }
    }
    if is_first_word(b, w2) {
        let k2 = choose|k2: int|
            #![trigger b.take(k2)]
            0 <= k2 <= b.len() && w2 == b.take(k2) && (k2 == b.len() || b[k2] == 32) && (forall|j: int|
                0 <= j < k2 ==> b[j] != 32);
        if k2 < k {
            assert(b[k2] != 32);
        }
        if k < k2 {
            assert(b[k] != 32);
        }
    }
}

/// Where `u` holds no space, the first word of `u`, and of `u` followed by a
/// space and anything, is `u` itself.
pub proof fn lemma_first_word_of_joined(u: Seq<u8>, v: Seq<u8>, w: Seq<u8>, w2: Seq<u8>)
    requires
        forall|j: int| 0 <= j < u.len() ==> u[j] != 32,
    ensures
        is_first_word(u, w) ==> w == u,
        is_first_word(u + seq![32u8] + v, w2) ==> w2 == u,
{
    if is_first_word(u, w) {
        lemma_first_word_bounds(u, w, w);
        assert(w =~= u);
    }
    let b = u + seq![32u8] + v;
    if is_first_word(b, w2) {
        lemma_first_word_bounds(b, w2, w2);
        assert(b.take(u.len() as int) =~= u);
        assert(!b.take(u.len() as int).contains(32u8));
        assert(b[u.len() as int] == 32);
        assert(w2.len() == u.len());
        assert forall|i: int| 0 <= i < u.len() implies w2[i] == u[i] by {
            assert(b[i] == u[i]);
        }
        assert(w2 =~= u);
    }
}

/// The first word of a first word is itself: it holds no space.
pub proof fn lemma_first_word_idempotent(b: Seq<u8>, w: Seq<u8>)
    requires
        is_first_word(b, w),
    ensures
        is_first_word(w, w),
{
    let k = choose|k: int|
        #![trigger b.take(k)]
        0 <= k <= b.len() && w == b.take(k) && (k == b.len() || b[k] == 32) && (forall|j: int|
            0 <= j < k ==> b[j] != 32);
    assert(w.take(w.len() as int) =~= w);
}

} // verus!
