//! Byte-level helpers shared by the lexer, the comment scanner and the
//! renderers: UTF-8 boundary facts and substring extraction.

use vstd::prelude::*;
use vstd::string::StringSliceAdditionalSpecFns;
use vstd::utf8::*;

verus! {

broadcast use vstd::utf8::group_utf8_lib;

/// `i` is a position at which a `&str` may be split: the end of the
/// bytes, or a byte that is not a UTF-8 continuation byte.
pub open spec fn at_boundary(b: Seq<u8>, i: int) -> bool {
    0 <= i <= b.len() && (i == b.len() || !is_continuation_byte(b[i]))
}

/// In valid UTF-8, the byte following an ASCII byte starts a new scalar.
pub proof fn lemma_after_ascii(bytes: Seq<u8>, i: int)
    requires
        valid_utf8(bytes),
        0 <= i < bytes.len(),
        bytes[i] < 0x80,
    ensures
        at_boundary(bytes, i + 1),
    decreases bytes.len(),
{
    if i + 1 < bytes.len() {
        let l = length_of_first_scalar(bytes);
        let pop = pop_first_scalar(bytes);
        if i >= l {
            assert(pop[i - l] == bytes[i]);
            lemma_after_ascii(pop, i - l);
            assert(pop[i + 1 - l] == bytes[i + 1]);
        } else {
            assert(i == 0);
            assert(l == 1);
            assert(pop.len() > 0);
            assert(valid_utf8(pop));
            assert(valid_first_scalar(pop));
            assert(pop[0] == bytes[i + 1]);
        }
    }
}

/// An ASCII byte of valid UTF-8 text is a boundary too.
pub proof fn lemma_ascii_is_boundary(bytes: Seq<u8>, i: int)
    requires
        0 <= i < bytes.len(),
        bytes[i] < 0x80,
    ensures
        at_boundary(bytes, i),
{
}

/// The text of `s` between byte offsets `start` and `end`.
pub fn substring(s: &str, start: usize, end: usize) -> (r: String)
    requires
        start <= end,
        at_boundary(s.spec_bytes(), start as int),
        at_boundary(s.spec_bytes(), end as int),
    ensures
        encode_utf8(r@) == s.spec_bytes().subrange(start as int, end as int),
{
    let ghost b = s.spec_bytes();
    proof {
        encode_utf8_valid_utf8(s@);
        is_char_boundary_start_end_of_seq(b);
        if end < b.len() {
            is_char_boundary_iff_not_is_continuation_byte(b, end as int);
        }
    }
    let (prefix, _rest) = s.split_at(end);
    let ghost pb = prefix.spec_bytes();
    proof {
        encode_utf8_valid_utf8(prefix@);
        is_char_boundary_start_end_of_seq(pb);
        if start < end {
            assert(pb[start as int] == b[start as int]);
            is_char_boundary_iff_not_is_continuation_byte(pb, start as int);
        }
    }
    let (_head, piece) = prefix.split_at(start);
    assert(piece.spec_bytes() =~= b.subrange(start as int, end as int));
    piece.to_owned()
}

/// `a == b` on the text of two strings.
pub fn str_eq(a: &str, b: &str) -> (r: bool)
    ensures
        r == (a@ == b@),
{
    let x = a.as_bytes();
    let y = b.as_bytes();
    proof {
        encode_utf8_decode_utf8(a@);
        encode_utf8_decode_utf8(b@);
    }
    if x.len() != y.len() {
        return false;
    }
    let mut i: usize = 0;
    while i < x.len()
        invariant
            x@ == encode_utf8(a@),
            y@ == encode_utf8(b@),
            x@.len() == y@.len(),
            i <= x@.len(),
            forall|k: int| 0 <= k < i ==> x@[k] == y@[k],
        decreases x@.len() - i,
    {
        if x[i] != y[i] {
            return false;
        }
        i += 1;
    }
    assert(x@ =~= y@);
    true
}

/// The texts `ps` joined by `sep`.
pub open spec fn join_seqs(ps: Seq<Seq<char>>, sep: Seq<char>) -> Seq<char>
    decreases ps.len(),
{
    if ps.len() == 0 {
        Seq::empty()
    } else if ps.len() == 1 {
        ps[0]
    } else {
        join_seqs(ps.drop_last(), sep) + sep + ps.last()
    }
}

/// Joining one more text adds the separator and the text.
pub proof fn lemma_join_push(ps: Seq<Seq<char>>, p: Seq<char>, sep: Seq<char>)
    ensures
        join_seqs(ps.push(p), sep) == (if ps.len() == 0 {
            p
        } else {
            join_seqs(ps, sep) + sep + p
        }),
{
    assert(ps.push(p).drop_last() =~= ps);
}

/// The texts of a list of strings.
pub open spec fn views(ps: Seq<String>) -> Seq<Seq<char>> {
    ps.map_values(|s: String| s@)
}

/// Join `parts` with `sep` between each pair.
pub fn join_strings(parts: &Vec<String>, sep: &str) -> (r: String)
    ensures
        r@ == join_seqs(views(parts@), sep@),
{
    let mut out = String::new();
    let mut i: usize = 0;
    while i < parts.len()
        invariant
            i <= parts@.len(),
            out@ == join_seqs(views(parts@.take(i as int)), sep@),
        decreases parts@.len() - i,
    {
        assert(views(parts@.take(i + 1)).drop_last() == views(parts@.take(i as int)));
        if i > 0 {
            out.append(sep);
        }
        out.append(parts[i].as_str());
        assert(views(parts@.take(i + 1)).last() == parts@[i as int]@);
        i += 1;
    }
    assert(parts@.take(i as int) == parts@);
    out
}

/// `n` copies of `piece`, one after the other.
pub open spec fn repeat_seq(piece: Seq<char>, n: nat) -> Seq<char>
    decreases n,
{
    if n == 0 {
        Seq::empty()
    } else {
        repeat_seq(piece, (n - 1) as nat) + piece
    }
}

/// `n` copies of `piece`, one after the other.
pub fn repeat_str(piece: &str, n: usize) -> (r: String)
    ensures
        r@ == repeat_seq(piece@, n as nat),
{
    let mut out = String::new();
    let mut i: usize = 0;
    while i < n
        invariant
            i <= n,
            out@ == repeat_seq(piece@, i as nat),
        decreases n - i,
    {
        out.append(piece);
        i += 1;
    }
    out
}

/// Encoding a concatenation encodes each part.
pub proof fn lemma_encode_utf8_concat(a: Seq<char>, b: Seq<char>)
    ensures
        encode_utf8(a + b) == encode_utf8(a) + encode_utf8(b),
    decreases a.len(),
{
    if a.len() > 0 {
        assert((a + b).drop_first() == a.drop_first() + b);
        lemma_encode_utf8_concat(a.drop_first(), b);
        assert((a + b)[0] == a[0]);
    } else {
        assert(a + b == b);
    }
}

} // verus!
