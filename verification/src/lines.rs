//! The lines of a text: what stands between line feeds, without the line
//! terminators.

use vstd::prelude::*;
use vstd::string::StringSliceAdditionalSpecFns;
use vstd::utf8::*;
use crate::encoding::{lemma_ascii_char_is_byte, lemma_cut_at_ascii_byte};

verus! {

/// The byte that encodes a line feed.
pub const LINE_FEED: u8 = 0x0a;

/// The byte that encodes a carriage return.
pub const CARRIAGE_RETURN: u8 = 0x0d;

/// The texts that the items of `v` hold, in order.
pub open spec fn texts(v: Seq<&str>) -> Seq<Seq<char>> {
    Seq::new(v.len(), |i: int| v[i]@)
}

/// Where the first line feed of `s` stands; the length of `s` where it has
/// none.
pub open spec fn first_line_feed(s: Seq<char>) -> int
    decreases s.len(),
{
    if s.len() == 0 || s[0] == '\n' {
        0
    } else {
        1 + first_line_feed(s.drop_first())
    }
}

/// `line` without the carriage return that it ends with, if it ends with
/// one.
pub open spec fn without_carriage_return(line: Seq<char>) -> Seq<char> {
    if line.len() > 0 && line.last() == '\r' {
        line.drop_last()
    } else {
        line
    }
}

/// The lines of `s`. A line ends with a line feed, or with a carriage return
/// and a line feed, neither of which belongs to the line. What follows the
/// last line feed is a line too, unless it is empty; a carriage return at its
/// end stays. The empty text has no line.
pub open spec fn lines_of(s: Seq<char>) -> Seq<Seq<char>>
    decreases s.len(),
{
    let k = first_line_feed(s);
    if s.len() == 0 {
        Seq::empty()
    } else if 0 <= k < s.len() {
        seq![without_carriage_return(s.take(k))] + lines_of(s.skip(k + 1))
    } else {
        seq![s]
    }
}

/// No line feed stands before `first_line_feed`, and one stands there unless
/// the text ends there.
pub proof fn lemma_first_line_feed_is_first(s: Seq<char>)
    ensures
        0 <= first_line_feed(s) <= s.len(),
        first_line_feed(s) < s.len() ==> s[first_line_feed(s)] == '\n',
        forall|i: int| 0 <= i < first_line_feed(s) ==> s[i] != '\n',
    decreases s.len(),
{
    if s.len() == 0 || s[0] == '\n' {
    } else {
        let t = s.drop_first();
        lemma_first_line_feed_is_first(t);
        assert forall|i: int| 0 <= i < first_line_feed(s) implies s[i] != '\n' by {
            if i > 0 {
                assert(s[i] == t[i - 1]);
            }
        }
    }
}

/// A position before which no line feed stands, and at which one stands or
/// the text ends, is `first_line_feed`.
pub proof fn lemma_first_line_feed_is_unique(s: Seq<char>, k: int)
    requires
        0 <= k <= s.len(),
        k < s.len() ==> s[k] == '\n',
        forall|i: int| 0 <= i < k ==> s[i] != '\n',
    ensures
        first_line_feed(s) == k,
{
    lemma_first_line_feed_is_first(s);
}

/// No line holds a line feed.
pub proof fn lemma_lines_hold_no_line_feed(s: Seq<char>)
    ensures
        forall|at: int, i: int|
            0 <= at < lines_of(s).len() && 0 <= i < lines_of(s)[at].len() ==> #[trigger] lines_of(
                s,
            )[at][i] != '\n',
    decreases s.len(),
{
    let k = first_line_feed(s);
    lemma_first_line_feed_is_first(s);
    if s.len() == 0 {
    } else if k < s.len() {
        let first = without_carriage_return(s.take(k));
        let rest = lines_of(s.skip(k + 1));
        lemma_lines_hold_no_line_feed(s.skip(k + 1));
        assert forall|at: int, i: int|
            0 <= at < lines_of(s).len() && 0 <= i < lines_of(s)[at].len() implies #[trigger] lines_of(
            s,
        )[at][i] != '\n' by {
            if at == 0 {
                assert(lines_of(s)[0] == first);
                assert(first[i] == s[i]);
            } else {
                assert(lines_of(s)[at] == rest[at - 1]);
            }
        }
    } else {
    }
}

/// A line feed at the end of a text adds no line: a text that ends with
/// neither a line feed nor a carriage return has the same lines with a line
/// feed after it.
pub proof fn lemma_final_line_feed_adds_no_line(s: Seq<char>)
    requires
        s.len() > 0,
        s.last() != '\n',
        s.last() != '\r',
    ensures
        lines_of(s.push('\n')) == lines_of(s),
    decreases s.len(),
{
    let t = s.push('\n');
    let k = first_line_feed(s);
    lemma_first_line_feed_is_first(s);
    assert(t[k] == '\n');
    assert forall|i: int| 0 <= i < k implies t[i] != '\n' by {
        assert(t[i] == s[i]);
    }
    lemma_first_line_feed_is_unique(t, k);
    if k < s.len() {
        let rest = s.skip(k + 1);
        assert(t.take(k) =~= s.take(k));
        assert(t.skip(k + 1) =~= rest.push('\n'));
        assert(rest.len() > 0 && rest.last() == s.last());
        lemma_final_line_feed_adds_no_line(rest);
    } else {
        assert(t.take(k) =~= s);
        assert(t.skip(k + 1).len() == 0);
        assert(lines_of(t.skip(k + 1)) =~= Seq::<Seq<char>>::empty());
        assert(lines_of(t) =~= seq![s]);
    }
}

/// A text whose encoding holds no line feed byte holds no line feed.
proof fn lemma_no_line_feed(s: Seq<char>)
    requires
        forall|j: int| 0 <= j < encode_utf8(s).len() ==> encode_utf8(s)[j] != LINE_FEED,
    ensures
        first_line_feed(s) == s.len(),
{
    assert forall|i: int| 0 <= i < s.len() implies s[i] != '\n' by {
        if s[i] == '\n' {
            lemma_ascii_char_is_byte(s, i);
        }
    }
    lemma_first_line_feed_is_unique(s, s.len() as int);
}

/// The first line feed byte of an encoding stands where the first line feed
/// of the text does: the bytes before it encode what stands before that line
/// feed, the bytes after it what stands after.
proof fn lemma_cut_at_line_feed(s: Seq<char>, j: int)
    requires
        0 <= j < encode_utf8(s).len(),
        encode_utf8(s)[j] == LINE_FEED,
        forall|i: int| 0 <= i < j ==> encode_utf8(s)[i] != LINE_FEED,
    ensures
        is_char_boundary(encode_utf8(s), j),
        is_char_boundary(encode_utf8(s).subrange(j, encode_utf8(s).len() as int), 1),
        0 <= first_line_feed(s) < s.len(),
        s.take(first_line_feed(s)) == decode_utf8(encode_utf8(s).subrange(0, j)),
        s.skip(first_line_feed(s) + 1) == decode_utf8(
            encode_utf8(s).subrange(j + 1, encode_utf8(s).len() as int),
        ),
{
    let bytes = encode_utf8(s);
    let head = decode_utf8(bytes.subrange(0, j));
    let after = decode_utf8(bytes.subrange(j + 1, bytes.len() as int));
    lemma_cut_at_ascii_byte(s, j);
    assert(s == head + seq!['\n'] + after);
    assert forall|i: int| 0 <= i < head.len() implies head[i] != '\n' by {
        if head[i] == '\n' {
            decode_utf8_encode_utf8(bytes.subrange(0, j));
            let at = lemma_ascii_char_is_byte(head, i);
            assert(bytes.subrange(0, j)[at] == bytes[at]);
        }
    }
    let k = head.len() as int;
    assert(s[k] == '\n');
    assert forall|i: int| 0 <= i < k implies s[i] != '\n' by {
        assert(s[i] == head[i]);
    }
    lemma_first_line_feed_is_unique(s, k);
    assert(s.take(k) =~= head);
    assert(s.skip(k + 1) =~= after);
}

/// A text ends with a carriage return exactly when its encoding ends with
/// the byte of one, and the bytes before that byte encode the text without
/// it.
proof fn lemma_cut_at_trailing_carriage_return(s: Seq<char>)
    ensures
        (encode_utf8(s).len() > 0 && encode_utf8(s).last() == CARRIAGE_RETURN) <==> (s.len() > 0
            && s.last() == '\r'),
        s.len() > 0 && s.last() == '\r' ==> {
            &&& is_char_boundary(encode_utf8(s), encode_utf8(s).len() - 1)
            &&& decode_utf8(encode_utf8(s).subrange(0, encode_utf8(s).len() - 1)) == s.drop_last()
        },
{
    let bytes = encode_utf8(s);
    let n = bytes.len() as int;
    if s.len() > 0 && s.last() == '\r' {
        let j = lemma_ascii_char_is_byte(s, s.len() - 1);
        assert(s.skip(s.len() as int) =~= Seq::<char>::empty());
        assert(j == n - 1);
    }
    if n > 0 && bytes.last() == CARRIAGE_RETURN {
        lemma_cut_at_ascii_byte(s, n - 1);
        assert(bytes.subrange(n, n) =~= Seq::<u8>::empty());
        let head = decode_utf8(bytes.subrange(0, n - 1));
        assert(s == head + seq!['\r'] + decode_utf8(Seq::<u8>::empty()));
        assert(s =~= head.push('\r'));
        assert(s.drop_last() =~= head);
    }
}

/// Where the first byte `wanted` of `bytes` stands; the length of `bytes`
/// where it holds none.
fn find_byte(bytes: &[u8], wanted: u8) -> (at: usize)
    ensures
        at <= bytes.len(),
        at < bytes.len() ==> bytes@[at as int] == wanted,
        forall|i: int| 0 <= i < at ==> bytes@[i] != wanted,
{
    let mut at: usize = 0;
    while at < bytes.len() && bytes[at] != wanted
        invariant
            at <= bytes.len(),
            forall|i: int| 0 <= i < at ==> bytes@[i] != wanted,
        decreases bytes.len() - at,
    {
        at += 1;
    }
    at
}

/// `line` without the carriage return that it ends with, if it ends with
/// one.
fn trim_carriage_return<'a>(line: &'a str) -> (out: &'a str)
    ensures
        out@ == without_carriage_return(line@),
{
    let bytes = line.as_bytes();
    let n: usize = bytes.len();
    proof {
        lemma_cut_at_trailing_carriage_return(line@);
    }
    if n > 0 && bytes[n - 1] == CARRIAGE_RETURN {
        let (kept, _) = line.split_at(n - 1);
        proof {
            encode_utf8_decode_utf8(kept@);
        }
        kept
    } else {
        line
    }
}

/// The lines of `text`, each a slice of it, in the order in which they stand.
pub fn split_lines<'a>(text: &'a str) -> (out: Vec<&'a str>)
    ensures
        texts(out@) == lines_of(text@),
{
    let mut out: Vec<&'a str> = Vec::new();
    let mut rest: &'a str = text;
    assert(texts(out@) + lines_of(rest@) =~= lines_of(text@));
    while !rest.is_empty()
        invariant
            lines_of(text@) == texts(out@) + lines_of(rest@),
        decreases rest@.len(),
    {
        let bytes = rest.as_bytes();
        let at: usize = find_byte(bytes, LINE_FEED);
        let ghost before = texts(out@);
        if at == bytes.len() {
            proof {
                lemma_no_line_feed(rest@);
            }
            out.push(rest);
            assert(texts(out@) =~= before + seq![rest@]);
            return out;
        }
        proof {
            lemma_cut_at_line_feed(rest@, at as int);
        }
        let (head, tail) = rest.split_at(at);
        let (_, after) = tail.split_at(1);
        let line = trim_carriage_return(head);
        proof {
            encode_utf8_decode_utf8(head@);
            encode_utf8_decode_utf8(after@);
            assert(tail.spec_bytes().subrange(1, tail.spec_bytes().len() as int)
                =~= rest.spec_bytes().subrange(at + 1, rest.spec_bytes().len() as int));
        }
        out.push(line);
        assert(texts(out@) =~= before + seq![line@]);
        rest = after;
    }
    assert(texts(out@) + lines_of(rest@) =~= texts(out@));
    out
}

} // verus!
