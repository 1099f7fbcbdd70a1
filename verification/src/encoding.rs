//! How positions in the UTF-8 bytes of a text relate to positions in its
//! characters. The searches run on bytes; their contracts speak of characters.

use vstd::prelude::*;
use vstd::utf8::*;

verus! {

/// A byte below `0x80` encodes one character by itself.
pub open spec fn is_ascii_byte(b: u8) -> bool {
    b <= 0x7f
}

/// No character stands below the character with number zero.
proof fn lemma_char_is_not_below_zero(c: char)
    ensures
        '\0' <= c,
{
}

/// Encoding distributes over concatenation.
pub proof fn lemma_encode_concat(a: Seq<char>, b: Seq<char>)
    ensures
        encode_utf8(a + b) == encode_utf8(a) + encode_utf8(b),
    decreases a.len(),
{
    if a.len() == 0 {
        assert(a + b =~= b);
        assert(encode_utf8(a) + encode_utf8(b) =~= encode_utf8(b));
    } else {
        lemma_encode_concat(a.drop_first(), b);
        assert((a + b).drop_first() =~= a.drop_first() + b);
        assert(encode_utf8(a + b) =~= encode_utf8(a) + encode_utf8(b));
    }
}

/// Where a valid encoding goes on after a valid prefix, the prefix ends on a
/// character boundary.
pub proof fn lemma_valid_prefix_ends_on_boundary(x: Seq<u8>, y: Seq<u8>)
    requires
        valid_utf8(x),
        valid_utf8(x + y),
    ensures
        is_char_boundary(x + y, x.len() as int),
    decreases x.len(),
{
    if x.len() > 0 {
        let width = length_of_first_scalar(x);
        assert((x + y)[0] == x[0]);
        assert(width <= x.len());
        assert(pop_first_scalar(x + y) =~= pop_first_scalar(x) + y);
        lemma_valid_prefix_ends_on_boundary(pop_first_scalar(x), y);
    }
}

/// Cutting an encoding at a character boundary cuts the text in two.
pub proof fn lemma_decode_cut(s: Seq<char>, mid: int)
    requires
        is_char_boundary(encode_utf8(s), mid),
    ensures
        0 <= mid <= encode_utf8(s).len(),
        valid_utf8(encode_utf8(s).subrange(0, mid)),
        valid_utf8(encode_utf8(s).subrange(mid, encode_utf8(s).len() as int)),
        s == decode_utf8(encode_utf8(s).subrange(0, mid)) + decode_utf8(
            encode_utf8(s).subrange(mid, encode_utf8(s).len() as int),
        ),
{
    let bytes = encode_utf8(s);
    encode_utf8_valid_utf8(s);
    encode_utf8_decode_utf8(s);
    valid_utf8_split(bytes, mid);
    decode_utf8_split(bytes, mid);
    reveal_with_fuel(is_char_boundary, 1);
}

/// An ASCII byte in an encoding is one whole character: the text is what
/// stands before it, that character, and what stands after it.
pub proof fn lemma_cut_at_ascii_byte(s: Seq<char>, j: int)
    requires
        0 <= j < encode_utf8(s).len(),
        is_ascii_byte(encode_utf8(s)[j]),
    ensures
        is_char_boundary(encode_utf8(s), j),
        is_char_boundary(encode_utf8(s).subrange(j, encode_utf8(s).len() as int), 1),
        valid_utf8(encode_utf8(s).subrange(0, j)),
        valid_utf8(encode_utf8(s).subrange(j + 1, encode_utf8(s).len() as int)),
        s == decode_utf8(encode_utf8(s).subrange(0, j)) + seq![encode_utf8(s)[j] as char]
            + decode_utf8(encode_utf8(s).subrange(j + 1, encode_utf8(s).len() as int)),
{
    let bytes = encode_utf8(s);
    let n = bytes.len() as int;
    let b = bytes[j];
    encode_utf8_valid_utf8(s);
    is_char_boundary_iff_not_is_continuation_byte(bytes, j);
    lemma_decode_cut(s, j);
    let tail = bytes.subrange(j, n);
    assert(tail[0] == b);
    assert(b & 0x7f == b) by (bit_vector)
        requires
            b <= 0x7f,
    ;
    assert(pop_first_scalar(tail) =~= bytes.subrange(j + 1, n));
    reveal_with_fuel(valid_utf8, 2);
    reveal_with_fuel(decode_utf8, 2);
    reveal_with_fuel(is_char_boundary, 2);
    assert(decode_utf8(tail) =~= seq![b as char] + decode_utf8(bytes.subrange(j + 1, n)));
}

/// An ASCII character of a text is one byte of its encoding, with the same
/// number. Returns where that byte stands.
pub proof fn lemma_ascii_char_is_byte(s: Seq<char>, i: int) -> (j: int)
    requires
        0 <= i < s.len(),
        s[i] <= '\u{7f}',
    ensures
        0 <= j < encode_utf8(s).len(),
        encode_utf8(s)[j] == s[i] as u8,
        j == encode_utf8(s.take(i)).len(),
        encode_utf8(s).len() == j + 1 + encode_utf8(s.skip(i + 1)).len(),
{
    let c = s[i];
    let one = seq![c];
    assert(s =~= s.take(i) + one + s.skip(i + 1));
    lemma_encode_concat(s.take(i) + one, s.skip(i + 1));
    lemma_encode_concat(s.take(i), one);
    assert(is_ascii_chars(one)) by {
        lemma_char_is_not_below_zero(c);
    }
    is_ascii_chars_encode_utf8(one);
    assert(encode_utf8(one) =~= seq![c as u8]);
    encode_utf8(s.take(i)).len() as int
}

} // verus!
