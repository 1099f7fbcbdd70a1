//! Literal substring containment, stated over sequences and decided on bytes.

use vstd::prelude::*;
use vstd::string::StringSliceAdditionalSpecFns;
use vstd::utf8::*;
use crate::encoding::{lemma_decode_cut, lemma_encode_concat, lemma_valid_prefix_ends_on_boundary};

verus! {

/// `needle` stands in `hay` at offset `at`.
pub open spec fn occurs_at<T>(needle: Seq<T>, hay: Seq<T>, at: int) -> bool {
    &&& 0 <= at
    &&& at + needle.len() <= hay.len()
    &&& hay.subrange(at, at + needle.len()) == needle
}

/// `needle` stands somewhere in `hay`. The empty sequence stands in every
/// sequence.
pub open spec fn is_substring<T>(needle: Seq<T>, hay: Seq<T>) -> bool {
    exists|at: int| occurs_at(needle, hay, at)
}

/// Every sequence holds the empty sequence.
pub proof fn lemma_empty_is_substring<T>(hay: Seq<T>)
    ensures
        is_substring(Seq::<T>::empty(), hay),
{
    assert(hay.subrange(0, 0) =~= Seq::<T>::empty());
    assert(occurs_at(Seq::<T>::empty(), hay, 0));
}

/// Whether `needle` stands in `hay` at byte offset `at`.
fn bytes_occur_at(hay: &[u8], needle: &[u8], at: usize) -> (found: bool)
    requires
        at + needle.len() <= hay.len(),
    ensures
        found == occurs_at(needle@, hay@, at as int),
{
    let mut k: usize = 0;
    while k < needle.len()
        invariant
            at + needle.len() <= hay.len(),
            k <= needle.len(),
            forall|j: int| 0 <= j < k ==> hay@[at + j] == needle@[j],
        decreases needle.len() - k,
    {
        if hay[at + k] != needle[k] {
            assert(hay@.subrange(at as int, at + needle@.len())[k as int] == hay@[at + k]);
            return false;
        }
        k += 1;
    }
    assert(hay@.subrange(at as int, at + needle@.len()) =~= needle@);
    true
}

/// Whether `needle` stands somewhere in `hay`.
pub fn bytes_contain(hay: &[u8], needle: &[u8]) -> (found: bool)
    ensures
        found == is_substring(needle@, hay@),
{
    if needle.len() > hay.len() {
        return false;
    }
    let last: usize = hay.len() - needle.len();
    let mut at: usize = 0;
    while at < last
        invariant
            last == hay.len() - needle.len(),
            at <= last,
            forall|j: int| 0 <= j < at ==> !occurs_at(needle@, hay@, j),
        decreases last - at,
    {
        if bytes_occur_at(hay, needle, at) {
            return true;
        }
        at += 1;
    }
    bytes_occur_at(hay, needle, last)
}

/// Where one text stands in another, its encoding stands in the other's
/// encoding.
proof fn lemma_occurrence_is_kept_by_encoding(needle: Seq<char>, hay: Seq<char>, at: int)
    requires
        occurs_at(needle, hay, at),
    ensures
        is_substring(encode_utf8(needle), encode_utf8(hay)),
{
    let n = encode_utf8(needle);
    let h = encode_utf8(hay);
    let before = hay.take(at);
    let after = hay.skip(at + needle.len());
    assert(hay =~= before + needle + after);
    lemma_encode_concat(before + needle, after);
    lemma_encode_concat(before, needle);
    let off = encode_utf8(before).len() as int;
    assert(h.subrange(off, off + n.len()) =~= n);
    assert(occurs_at(n, h, off));
}

/// Where the encoding of a text that is not empty stands in the encoding of
/// another, the text stands in the other.
proof fn lemma_occurrence_is_kept_by_decoding(needle: Seq<char>, hay: Seq<char>, off: int)
    requires
        needle.len() > 0,
        occurs_at(encode_utf8(needle), encode_utf8(hay), off),
    ensures
        is_substring(needle, hay),
{
    let n = encode_utf8(needle);
    let h = encode_utf8(hay);
    encode_utf8_valid_utf8(needle);
    encode_utf8_valid_utf8(hay);
    assert(n.len() > 0 && !is_continuation_byte(n[0])) by {
        encode_utf8_first_scalar(needle);
    }
    assert(h[off] == n[0]) by {
        assert(h.subrange(off, off + n.len())[0] == h[off]);
    }
    assert(is_char_boundary(h, off)) by {
        is_char_boundary_iff_not_is_continuation_byte(h, off);
    }
    let head = h.subrange(0, off);
    let mid = h.subrange(off, h.len() as int);
    let rest = mid.subrange(n.len() as int, mid.len() as int);
    let before = decode_utf8(head);
    let tail = decode_utf8(mid);
    let after = decode_utf8(rest);
    assert(valid_utf8(mid) && hay == before + tail) by {
        lemma_decode_cut(hay, off);
    }
    assert(mid == n + rest) by {
        assert(mid.subrange(0, n.len() as int) =~= h.subrange(off, off + n.len()));
        assert(mid =~= mid.subrange(0, n.len() as int) + rest);
    }
    assert(is_char_boundary(mid, n.len() as int)) by {
        lemma_valid_prefix_ends_on_boundary(n, rest);
    }
    assert(tail == needle + after) by {
        decode_utf8_encode_utf8(mid);
        lemma_decode_cut(tail, n.len() as int);
        assert(mid.subrange(0, n.len() as int) =~= n);
        encode_utf8_decode_utf8(needle);
    }
    let at = before.len() as int;
    assert(hay.subrange(at, at + needle.len()) =~= needle);
    assert(occurs_at(needle, hay, at));
}

/// One text stands in another exactly when its encoding stands in the
/// other's encoding.
pub proof fn lemma_substring_of_encodings(needle: Seq<char>, hay: Seq<char>)
    ensures
        is_substring(encode_utf8(needle), encode_utf8(hay)) <==> is_substring(needle, hay),
{
    if is_substring(needle, hay) {
        let at = choose|at: int| occurs_at(needle, hay, at);
        lemma_occurrence_is_kept_by_encoding(needle, hay, at);
    }
    if is_substring(encode_utf8(needle), encode_utf8(hay)) {
        if needle.len() == 0 {
            lemma_empty_is_substring(hay);
            assert(needle =~= Seq::<char>::empty());
        } else {
            let off = choose|off: int| occurs_at(encode_utf8(needle), encode_utf8(hay), off);
            lemma_occurrence_is_kept_by_decoding(needle, hay, off);
        }
    }
}

/// Whether `needle` stands somewhere in `hay`, as a literal run of
/// characters.
pub fn contains(hay: &str, needle: &str) -> (found: bool)
    ensures
        found == is_substring(needle@, hay@),
{
    proof {
        lemma_substring_of_encodings(needle@, hay@);
    }
    bytes_contain(hay.as_bytes(), needle.as_bytes())
}

} // verus!
