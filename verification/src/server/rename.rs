//! Rename support: the checks made before a rename.
//!
//! A rename is rejected if the new name is not a valid Circom identifier,
//! or would collide with an existing symbol in the same scope as the
//! target (i.e. renaming to `x` where another `x` already exists in the
//! scope).

use vstd::prelude::*;
use vstd::string::StringSliceAdditionalSpecFns;
use vstd::utf8::*;

use crate::scope::{chain_lookup, string_eq};
use crate::symbol::{ScopeId, SymbolKind};
use crate::symbol_table::SymbolTable;
use crate::span::{LineCol, LineIndex, line_starts_of, locates};

verus! {

pub open spec fn is_ascii_alpha(b: u8) -> bool {
    (65 <= b <= 90) || (97 <= b <= 122)
}

pub open spec fn is_ascii_alnum(b: u8) -> bool {
    is_ascii_alpha(b) || (48 <= b <= 57)
}

/// A Circom identifier: an ASCII letter or `_`, then ASCII letters,
/// digits and `_`.
pub open spec fn valid_identifier(b: Seq<u8>) -> bool {
    &&& b.len() > 0
    &&& (is_ascii_alpha(b[0]) || b[0] == 95)
    &&& forall|i: int| 1 <= i < b.len() ==> is_ascii_alnum(#[trigger] b[i]) || b[i] == 95
}

fn is_ident_byte(b: u8) -> (r: bool)
    ensures
        r == (is_ascii_alnum(b) || b == 95),
{
    (65u8 <= b && b <= 90u8) || (97u8 <= b && b <= 122u8) || (48u8 <= b && b <= 57u8) || b == 95u8
}

/// Check that `name` is a valid Circom identifier.
pub fn is_valid_identifier(name: &str) -> (r: bool)
    ensures
        r == valid_identifier(name.spec_bytes()),
{
    let bytes = name.as_bytes();
    if bytes.len() == 0 {
        return false;
    }
    let first = bytes[0];
    if !((65u8 <= first && first <= 90u8) || (97u8 <= first && first <= 122u8)) && first != 95u8 {
        return false;
    }
    let mut i: usize = 1;
    while i < bytes.len()
        invariant
            bytes@ == name.spec_bytes(),
            1 <= i <= bytes@.len(),
            forall|k: int| 1 <= k < i ==> is_ascii_alnum(#[trigger] bytes@[k]) || bytes@[k] == 95,
        decreases bytes@.len() - i,
    {
        if !is_ident_byte(bytes[i]) {
            return false;
        }
        i += 1;
    }
    true
}

/// Return `true` if `new_name` would collide with an existing symbol in
/// the target scope: a symbol bound to `new_name` there that is not the
/// one being renamed (defined in `rename_target_file` at
/// `rename_target_offset`).
pub fn would_conflict(
    table: &SymbolTable,
    scope: ScopeId,
    new_name: &str,
    rename_target_file: &str,
    rename_target_offset: usize,
) -> (r: bool)
    requires
        table.wf(),
        scope.0 < table.scope_seq().len(),
    ensures
        r == (table.bound_in(scope.0 as int, new_name@) matches Some(ids) && exists|k: int|
            0 <= k < ids.len() && !({
                let s = table.symbols()[(#[trigger] ids[k]).0 as int];
                s.file@ == rename_target_file@ && s.span.start == rename_target_offset
            })),
{
    proof {
        table.lemma_ids_valid(scope.0 as int, new_name@);
    }
    match table.scope_tree().lookup_local(scope, new_name) {
        Some(ids) => {
            let mut i: usize = 0;
            while i < ids.len()
                invariant
                    table.wf(),
                    i <= ids@.len(),
                    table.bound_in(scope.0 as int, new_name@) == Some(ids@),
                    forall|k: int| 0 <= k < ids@.len() ==> (#[trigger] ids@[k]).0 < table.symbols().len(),
                    forall|k: int| 0 <= k < i ==> {
                        let s = table.symbols()[(#[trigger] ids@[k]).0 as int];
                        s.file@ == rename_target_file@ && s.span.start == rename_target_offset
                    },
                decreases ids@.len() - i,
            {
                let sym = table.get_symbol(ids[i]);
                let is_target = string_eq(&sym.file, rename_target_file) && sym.span.start == rename_target_offset;
                if !is_target {
                    return true;
                }
                i += 1;
            }
            false
        },
        None => false,
    }
}

/// The end of a string literal whose body starts at `j`: just past the
/// closing `"`, or the end of the text; `\` escapes the next byte.
pub open spec fn string_end(b: Seq<u8>, j: int) -> int
    decreases b.len() - j,
{
    if j < 0 || j >= b.len() {
        j
    } else if b[j] == 34 {
        j + 1
    } else if b[j] == 92 && j + 1 < b.len() {
        string_end(b, j + 2)
    } else {
        string_end(b, j + 1)
    }
}

/// The end of a line comment that starts at `j`: the next newline, or
/// the end of the text.
pub open spec fn line_comment_end(b: Seq<u8>, j: int) -> int
    decreases b.len() - j,
{
    if j < 0 || j >= b.len() || b[j] == 10 {
        j
    } else {
        line_comment_end(b, j + 1)
    }
}

/// The end of a block comment whose body starts at `j`: just past the
/// closing `*/`, or where fewer than two bytes are left.
pub open spec fn block_comment_end(b: Seq<u8>, j: int) -> int
    decreases b.len() - j,
{
    if j < 0 || j + 1 >= b.len() {
        j
    } else if b[j] == 42 && b[j + 1] == 47 {
        j + 2
    } else {
        block_comment_end(b, j + 1)
    }
}

pub proof fn lemma_ends_grow(b: Seq<u8>, j: int)
    requires
        0 <= j,
    ensures
        j <= string_end(b, j),
        string_end(b, j) <= b.len() || string_end(b, j) == j,
        j <= line_comment_end(b, j),
        line_comment_end(b, j) <= b.len() || line_comment_end(b, j) == j,
        j <= block_comment_end(b, j),
        block_comment_end(b, j) <= b.len() || block_comment_end(b, j) == j,
    decreases b.len() - j,
{
    if j < b.len() {
        lemma_ends_grow(b, j + 1);
        if j + 2 <= b.len() {
            lemma_ends_grow(b, j + 2);
        }
    }
}

/// The byte ranges of the string literals, line comments and block
/// comments of `b` from `i` on, in order.
pub open spec fn skip_ranges_from(b: Seq<u8>, i: int) -> Seq<(int, int)>
    decreases b.len() - i,
{
    if i < 0 || i >= b.len() {
        Seq::empty()
    } else {
        proof {
            lemma_ends_grow(b, i);
            lemma_ends_grow(b, i + 1);
            lemma_ends_grow(b, i + 2);
            if b[i] != 10 {
                assert(line_comment_end(b, i) == line_comment_end(b, i + 1));
            }
        }
        if b[i] == 34 {
            let e = string_end(b, i + 1);
            seq![(i, e)] + skip_ranges_from(b, e)
        } else if b[i] == 47 && i + 1 < b.len() && b[i + 1] == 47 {
            let e = line_comment_end(b, i);
            seq![(i, e)] + skip_ranges_from(b, e)
        } else if b[i] == 47 && i + 1 < b.len() && b[i + 1] == 42 {
            let e = block_comment_end(b, i + 2);
            seq![(i, e)] + skip_ranges_from(b, e)
        } else {
            skip_ranges_from(b, i + 1)
        }
    }
}

/// A `*/` stands at `t`.
pub open spec fn closes_comment(b: Seq<u8>, t: int) -> bool {
    0 <= t && t + 1 < b.len() && b[t] == 42 && b[t + 1] == 47
}

/// Where the block comment whose body starts at `j` ends: past the first
/// `*/` from `j` on, or, with none, where fewer than two bytes are left.
pub proof fn lemma_block_comment_end(b: Seq<u8>, j: int)
    requires
        0 <= j <= b.len(),
    ensures
        ({
            let e = block_comment_end(b, j);
            &&& j <= e <= b.len()
            &&& forall|t: int| j <= t < e - 2 ==> !#[trigger] closes_comment(b, t)
            &&& (e >= j + 2 && closes_comment(b, e - 2)) || (e + 1 >= b.len() && forall|t: int|
                j <= t && t + 1 < b.len() ==> !#[trigger] closes_comment(b, t))
        }),
    decreases b.len() - j,
{
    if j + 1 < b.len() && !(b[j] == 42 && b[j + 1] == 47) {
        lemma_block_comment_end(b, j + 1);
    }
}

/// A line comment that starts at `j` ends at the first newline from `j`
/// on, or at the end of the text.
pub proof fn lemma_line_comment_end(b: Seq<u8>, j: int)
    requires
        0 <= j <= b.len(),
    ensures
        j <= line_comment_end(b, j) <= b.len(),
        forall|t: int| j <= t < line_comment_end(b, j) ==> b[t] != 10,
        line_comment_end(b, j) == b.len() || b[line_comment_end(b, j)] == 10,
    decreases b.len() - j,
{
    if j < b.len() && b[j] != 10 {
        lemma_line_comment_end(b, j + 1);
    }
}

/// The ranges from `i` on that open with `/*` end where the block comment
/// whose body follows the `/*` ends.
pub proof fn lemma_block_ranges(b: Seq<u8>, i: int)
    requires
        0 <= i,
    ensures
        forall|k: int|
            0 <= k < skip_ranges_from(b, i).len() ==> {
                let (s, e) = #[trigger] skip_ranges_from(b, i)[k];
                &&& i <= s < e
                &&& (s + 1 < b.len() && b[s] == 47 && b[s + 1] == 42 ==> e == block_comment_end(b, s + 2))
                &&& (s + 1 < b.len() && b[s] == 47 && b[s + 1] == 47 ==> e == line_comment_end(b, s))
            },
    decreases b.len() - i,
{
    if 0 <= i < b.len() {
        lemma_ends_grow(b, i);
        lemma_ends_grow(b, i + 1);
        lemma_ends_grow(b, i + 2);
        let rs = skip_ranges_from(b, i);
        let opens = b[i] == 34 || (b[i] == 47 && i + 1 < b.len() && (b[i + 1] == 47 || b[i + 1] == 42));
        if opens {
            let e = if b[i] == 34 {
                string_end(b, i + 1)
            } else if b[i + 1] == 47 {
                line_comment_end(b, i)
            } else {
                block_comment_end(b, i + 2)
            };
            if b[i] != 34 && b[i + 1] == 47 {
                assert(line_comment_end(b, i) == line_comment_end(b, i + 1));
            }
            assert(e > i);
            assert(rs == seq![(i, e)] + skip_ranges_from(b, e));
            lemma_block_ranges(b, e);
            assert forall|k: int| 0 <= k < rs.len() implies {
                let (s, e2) = #[trigger] rs[k];
                &&& i <= s < e2
                &&& (s + 1 < b.len() && b[s] == 47 && b[s + 1] == 42 ==> e2 == block_comment_end(b, s + 2))
                &&& (s + 1 < b.len() && b[s] == 47 && b[s + 1] == 47 ==> e2 == line_comment_end(b, s))
            } by {
                if k > 0 {
                    assert(rs[k] == skip_ranges_from(b, e)[k - 1]);
                } else {
                    assert(rs[0] == (i, e));
                }
            }
        } else {
            assert(rs == skip_ranges_from(b, i + 1));
            lemma_block_ranges(b, i + 1);
        }
    }
}

/// Scan `text` and return byte ranges that should be skipped when
/// matching identifiers: string literals, line comments, block
/// comments.
pub fn scan_skip_ranges(text: &str) -> (r: Vec<(usize, usize)>)
    ensures
        r@.len() == skip_ranges_from(text.spec_bytes(), 0).len(),
        forall|k: int|
            0 <= k < r@.len() ==> (#[trigger] r@[k]).0 == skip_ranges_from(text.spec_bytes(), 0)[k].0 && r@[k].1
                == skip_ranges_from(text.spec_bytes(), 0)[k].1,
{
    let bytes = text.as_bytes();
    let ghost b = bytes@;
    let mut ranges: Vec<(usize, usize)> = Vec::new();
    let mut i: usize = 0;
    let len = bytes.len();
    while i < len
        invariant
            b == bytes@,
            b == text.spec_bytes(),
            len == b.len(),
            i <= len,
            ranges@.len() + skip_ranges_from(b, i as int).len() == skip_ranges_from(b, 0).len(),
            forall|k: int|
                0 <= k < ranges@.len() ==> (#[trigger] ranges@[k]).0 == skip_ranges_from(b, 0)[k].0 && ranges@[k].1
                    == skip_ranges_from(b, 0)[k].1,
            forall|k: int|
                0 <= k < skip_ranges_from(b, i as int).len() ==> skip_ranges_from(b, i as int)[k]
                    == #[trigger] skip_ranges_from(b, 0)[ranges@.len() + k],
        decreases len - i,
    {
        proof {
            lemma_ends_grow(b, i as int);
            lemma_ends_grow(b, i + 1);
            lemma_ends_grow(b, i + 2);
        }
        let ghost rest = skip_ranges_from(b, i as int);
        let ghost done = ranges@.len() as int;
        if bytes[i] == 34u8 {
            let start = i;
            i += 1;
            while i < len && bytes[i] != 34u8
                invariant
                    b == bytes@,
                    len == b.len(),
                    start < i <= len,
                    string_end(b, i as int) == string_end(b, start + 1),
                decreases len - i,
            {
                if bytes[i] == 92u8 && i + 1 < len {
                    i += 2;
                } else {
                    i += 1;
                }
            }
            if i < len {
                i += 1;
            }
            assert(rest == seq![(start as int, i as int)] + skip_ranges_from(b, i as int));
            proof {
                assert(rest[0] == skip_ranges_from(b, 0)[done + 0]);
            }
            ranges.push((start, i));
            proof {
                assert forall|k: int| 0 <= k < skip_ranges_from(b, i as int).len() implies skip_ranges_from(b, i as int)[k]
                    == #[trigger] skip_ranges_from(b, 0)[ranges@.len() + k] by {
                    assert(skip_ranges_from(b, i as int)[k] == rest[k + 1]);
                    assert(rest[k + 1] == skip_ranges_from(b, 0)[done + (k + 1)]);
                }
            }
        } else if bytes[i] == 47u8 && i + 1 < len && bytes[i + 1] == 47u8 {
            let start = i;
            while i < len && bytes[i] != 10u8
                invariant
                    b == bytes@,
                    len == b.len(),
                    start <= i <= len,
                    line_comment_end(b, i as int) == line_comment_end(b, start as int),
                decreases len - i,
            {
                i += 1;
            }
            assert(i > start);
            assert(rest == seq![(start as int, i as int)] + skip_ranges_from(b, i as int));
            proof {
                assert(rest[0] == skip_ranges_from(b, 0)[done + 0]);
            }
            ranges.push((start, i));
            proof {
                assert forall|k: int| 0 <= k < skip_ranges_from(b, i as int).len() implies skip_ranges_from(b, i as int)[k]
                    == #[trigger] skip_ranges_from(b, 0)[ranges@.len() + k] by {
                    assert(skip_ranges_from(b, i as int)[k] == rest[k + 1]);
                    assert(rest[k + 1] == skip_ranges_from(b, 0)[done + (k + 1)]);
                }
            }
        } else if bytes[i] == 47u8 && i + 1 < len && bytes[i + 1] == 42u8 {
            let start = i;
            i += 2;
            while i < len && len - i > 1 && !(bytes[i] == 42u8 && bytes[i + 1] == 47u8)
                invariant
                    b == bytes@,
                    len == b.len(),
                    start + 2 <= i <= len,
                    block_comment_end(b, i as int) == block_comment_end(b, start + 2),
                decreases len - i,
            {
                i += 1;
            }
            if i < len && len - i > 1 {
                i += 2;
            }
            assert(rest == seq![(start as int, i as int)] + skip_ranges_from(b, i as int));
            proof {
                assert(rest[0] == skip_ranges_from(b, 0)[done + 0]);
            }
            ranges.push((start, i));
            proof {
                assert forall|k: int| 0 <= k < skip_ranges_from(b, i as int).len() implies skip_ranges_from(b, i as int)[k]
                    == #[trigger] skip_ranges_from(b, 0)[ranges@.len() + k] by {
                    assert(skip_ranges_from(b, i as int)[k] == rest[k + 1]);
                    assert(rest[k + 1] == skip_ranges_from(b, 0)[done + (k + 1)]);
                }
            }
        } else {
            assert(rest == skip_ranges_from(b, i + 1));
            i += 1;
        }
    }
    ranges
}

/// `offset` lies in one of `ranges` (start included, end excluded).
pub open spec fn in_ranges(ranges: Seq<(int, int)>, offset: int) -> bool {
    exists|k: int| 0 <= k < ranges.len() && (#[trigger] ranges[k]).0 <= offset < ranges[k].1
}

/// The first position at or after `pos` where `n` occurs in `b`.
pub open spec fn next_occurrence(b: Seq<u8>, n: Seq<u8>, pos: int) -> Option<int>
    decreases b.len() + 1 - pos,
{
    if pos < 0 || pos + n.len() > b.len() {
        None
    } else if b.subrange(pos, pos + n.len()) == n {
        Some(pos)
    } else {
        next_occurrence(b, n, pos + 1)
    }
}

pub proof fn lemma_next_occurrence(b: Seq<u8>, n: Seq<u8>, pos: int)
    requires
        0 <= pos,
    ensures
        next_occurrence(b, n, pos) matches Some(a) ==> pos <= a && a + n.len() <= b.len() && b.subrange(
            a,
            a + n.len(),
        ) == n,
    decreases b.len() + 1 - pos,
{
    if pos + n.len() <= b.len() && b.subrange(pos, pos + n.len()) != n {
        lemma_next_occurrence(b, n, pos + 1);
    }
}

/// A match of `n` at `a` is a whole word outside strings and comments.
pub open spec fn accepted_match(b: Seq<u8>, n: Seq<u8>, a: int, ranges: Seq<(int, int)>) -> bool {
    &&& (a == 0 || !(is_ascii_alnum(b[a - 1]) || b[a - 1] == 95))
    &&& (a + n.len() >= b.len() || !(is_ascii_alnum(b[a + n.len()]) || b[a + n.len()] == 95))
    &&& !in_ranges(ranges, a)
}

/// The accepted matches of `n` in `b`, searching left to right from
/// `pos` and resuming after each match.
pub open spec fn accepted_matches(b: Seq<u8>, n: Seq<u8>, pos: int, ranges: Seq<(int, int)>) -> Seq<int>
    decreases b.len() - pos,
{
    if n.len() == 0 || pos < 0 {
        Seq::empty()
    } else {
        proof {
            lemma_next_occurrence(b, n, pos);
        }
        match next_occurrence(b, n, pos) {
            None => Seq::empty(),
            Some(a) => {
                let rest = accepted_matches(b, n, a + n.len(), ranges);
                if accepted_match(b, n, a, ranges) {
                    seq![a] + rest
                } else {
                    rest
                }
            },
        }
    }
}

/// One replacement of a rename: the byte offset and the line/column
/// range of an occurrence, and the text that replaces it.
#[derive(Debug, Clone, PartialEq)]
pub struct RenameEdit {
    pub offset: usize,
    pub start: LineCol,
    pub end: LineCol,
    pub new_text: String,
}

/// `edits` replace the accepted matches `offsets` of a name `len` bytes
/// long with `new_name`, in a text whose lines start at `starts`.
pub open spec fn edits_for(
    edits: Seq<RenameEdit>,
    offsets: Seq<int>,
    len: int,
    starts: Seq<usize>,
    new_name: Seq<char>,
) -> bool {
    &&& edits.len() == offsets.len()
    &&& forall|k: int|
        0 <= k < edits.len() ==> {
            &&& (#[trigger] edits[k]).offset == offsets[k]
            &&& locates(starts, offsets[k], edits[k].start)
            &&& locates(starts, offsets[k] + len, edits[k].end)
            &&& edits[k].new_text@ == new_name
        }
}

/// The skip ranges of `b` as integer pairs.
pub open spec fn skip_ranges(b: Seq<u8>) -> Seq<(int, int)> {
    skip_ranges_from(b, 0)
}

/// Whether `offset` lies in one of the ranges.
fn in_skip_range(ranges: &Vec<(usize, usize)>, offset: usize) -> (r: bool)
    ensures
        r == exists|k: int| 0 <= k < ranges@.len() && (#[trigger] ranges@[k]).0 <= offset < ranges@[k].1,
{
    let mut k: usize = 0;
    while k < ranges.len()
        invariant
            k <= ranges@.len(),
            forall|q: int| 0 <= q < k ==> !((#[trigger] ranges@[q]).0 <= offset < ranges@[q].1),
        decreases ranges@.len() - k,
    {
        if ranges[k].0 <= offset && offset < ranges[k].1 {
            return true;
        }
        k += 1;
    }
    false
}

/// The first occurrence of `n` in `b` at or after `pos`.
pub(crate) fn find_from(b: &[u8], n: &[u8], pos: usize) -> (r: Option<usize>)
    requires
        pos <= b@.len(),
    ensures
        r matches Some(a) ==> next_occurrence(b@, n@, pos as int) == Some(a as int),
        r is None ==> next_occurrence(b@, n@, pos as int) is None,
{
    let blen = b.len();
    let nlen = n.len();
    let mut i = pos;
    while i <= blen && nlen <= blen - i
        invariant
            pos <= i,
            blen == b@.len(),
            nlen == n@.len(),
            next_occurrence(b@, n@, i as int) == next_occurrence(b@, n@, pos as int),
        decreases blen + 1 - i,
    {
        let mut j: usize = 0;
        let mut same = true;
        while j < nlen && same
            invariant
                j <= nlen,
                i + nlen <= blen,
                blen == b@.len(),
                nlen == n@.len(),
                same == forall|q: int| 0 <= q < j ==> b@[i + q] == n@[q],
            decreases nlen - j,
        {
            if b[i + j] != n[j] {
                same = false;
            }
            j += 1;
        }
        if same {
            assert(j == nlen);
            assert(b@.subrange(i as int, i + n@.len()) =~= n@);
            return Some(i);
        }
        proof {
            let q = choose|q: int| 0 <= q < j && b@[i + q] != n@[q];
            assert(b@.subrange(i as int, i + n@.len())[q] != n@[q]);
        }
        i += 1;
    }
    None
}

/// Scan `text` for every whole-word occurrence of `name` and produce an
/// edit that replaces each with `new_name`.
///
/// Skips matches that fall inside string literals, line comments, and
/// block comments — otherwise renaming `foo` would corrupt any string
/// or comment that happens to contain the substring.
pub fn find_identifier_edits(text: &str, name: &str, new_name: &str) -> (edits: Vec<RenameEdit>)
    requires
        name@.len() > 0,
    ensures
        edits_for(
            edits@,
            accepted_matches(text.spec_bytes(), name.spec_bytes(), 0, skip_ranges(text.spec_bytes())),
            name.spec_bytes().len() as int,
            line_starts_of(text.spec_bytes()),
            new_name@,
        ),
{
    let line_index = LineIndex::new(text);
    let bytes = text.as_bytes();
    let name_bytes = name.as_bytes();
    let name_len = name_bytes.len();
    let len = bytes.len();
    let skip = scan_skip_ranges(text);
    let ghost b = bytes@;
    let ghost n = name_bytes@;
    let ghost ranges = skip_ranges(b);
    proof {
        assert(n.len() > 0) by {
            if n.len() == 0 {
                encode_utf8_decode_utf8(name@);
            }
        }
    }
    let mut edits: Vec<RenameEdit> = Vec::new();
    let mut pos: usize = 0;
    while name_len <= len - pos
        invariant
            b == bytes@,
            b == text.spec_bytes(),
            n == name_bytes@,
            n == name.spec_bytes(),
            name_len == n.len(),
            name_len > 0,
            len == b.len(),
            pos <= len,
            line_index.wf(),
            line_index.starts() == line_starts_of(b),
            ranges == skip_ranges(b),
            skip@.len() == ranges.len(),
            forall|k: int| 0 <= k < skip@.len() ==> (#[trigger] skip@[k]).0 == ranges[k].0 && skip@[k].1 == ranges[k].1,
            edits@.len() + accepted_matches(b, n, pos as int, ranges).len() == accepted_matches(b, n, 0, ranges).len(),
            edits_for(
                edits@,
                accepted_matches(b, n, 0, ranges).take(edits@.len() as int),
                n.len() as int,
                line_starts_of(b),
                new_name@,
            ),
            forall|k: int|
                0 <= k < accepted_matches(b, n, pos as int, ranges).len() ==> accepted_matches(b, n, pos as int, ranges)[k]
                    == #[trigger] accepted_matches(b, n, 0, ranges)[edits@.len() + k],
        decreases len - pos,
    {
        proof {
            lemma_next_occurrence(b, n, pos as int);
        }
        let ghost rest = accepted_matches(b, n, pos as int, ranges);
        let ghost done = edits@.len() as int;
        let ghost all = accepted_matches(b, n, 0, ranges);
        match find_from(bytes, name_bytes, pos) {
            Some(abs) => {
                let ghost tail = accepted_matches(b, n, abs + n.len(), ranges);
                proof {
                    assert(rest == (if accepted_match(b, n, abs as int, ranges) {
                        seq![abs as int] + tail
                    } else {
                        tail
                    }));
                }
                let before_ok = abs == 0 || !is_ident_byte(bytes[abs - 1]);
                let after_ok = abs + name_len >= len || !is_ident_byte(bytes[abs + name_len]);
                let in_skip = in_skip_range(&skip, abs);
                proof {
                    assert(in_skip == in_ranges(ranges, abs as int)) by {
                        if in_skip {
                            let k = choose|k: int| 0 <= k < skip@.len() && (#[trigger] skip@[k]).0 <= abs < skip@[k].1;
                            assert(ranges[k].0 <= abs < ranges[k].1);
                        }
                        if in_ranges(ranges, abs as int) {
                            let k = choose|k: int| 0 <= k < ranges.len() && (#[trigger] ranges[k]).0 <= abs < ranges[k].1;
                            assert(skip@[k].0 <= abs < skip@[k].1);
                        }
                    }
                }
                if before_ok && after_ok && !in_skip {
                    let start_lc = line_index.line_col(abs);
                    let end_lc = line_index.line_col(abs + name_len);
                    match (start_lc, end_lc) {
                        (Some(start), Some(end)) => {
                            let ghost old_edits = edits@;
                            proof {
                                assert(rest[0] == all[done + 0]);
                            }
                            edits.push(RenameEdit { offset: abs, start, end, new_text: String::from_str(new_name) });
                            proof {
                                assert(all.take(edits@.len() as int) == all.take(old_edits.len() as int).push(
                                    abs as int,
                                ));
                            }
                        },
                        _ => {},
                    }
                }
                pos = abs + name_len;
                proof {
                    assert forall|k: int| 0 <= k < tail.len() implies tail[k] == #[trigger] all[edits@.len() + k] by {
                        if accepted_match(b, n, abs as int, ranges) {
                            assert(tail[k] == rest[k + 1]);
                            assert(rest[k + 1] == all[done + (k + 1)]);
                        } else {
                            assert(tail[k] == rest[k]);
                        }
                    }
                }
            },
            None => {
                assert(rest.len() == 0);
                pos = len;
            },
        }
    }
    assert(accepted_matches(b, n, pos as int, ranges).len() == 0);
    proof {
        let all = accepted_matches(b, n, 0, ranges);
        assert(all.take(edits@.len() as int) == all);
    }
    edits
}

/// The changes of a rename across `docs`: for each document (in order)
/// whose text has accepted matches of `name`, its URI, its bytes and the
/// offsets of the matches.
pub open spec fn rename_changes(docs: Seq<(String, String)>, name: Seq<u8>) -> Seq<(Seq<char>, Seq<u8>, Seq<int>)>
    decreases docs.len(),
{
    if docs.len() == 0 {
        Seq::empty()
    } else {
        let prev = rename_changes(docs.drop_last(), name);
        let d = docs.last();
        let b = encode_utf8(d.1@);
        let offs = accepted_matches(b, name, 0, skip_ranges(b));
        if offs.len() > 0 {
            prev.push((d.0@, b, offs))
        } else {
            prev
        }
    }
}

/// Compute the edits for renaming the symbol `target_name` (defined at
/// `target_file` / `target_offset`) to `new_name` across every document
/// in `documents` (URI and text): one entry per document with at least
/// one occurrence.
///
/// The caller must have already resolved the cursor to the target
/// symbol and checked the new name with `is_valid_identifier` and
/// `would_conflict`. The target location is not used to filter the
/// occurrences: every whole-word occurrence outside strings and
/// comments is renamed.
pub fn build_workspace_edit(
    target_name: &str,
    new_name: &str,
    target_file: &str,
    target_offset: usize,
    documents: &Vec<(String, String)>,
) -> (r: Vec<(String, Vec<RenameEdit>)>)
    requires
        target_name@.len() > 0,
    ensures
        r@.len() == rename_changes(documents@, target_name.spec_bytes()).len(),
        forall|k: int|
            0 <= k < r@.len() ==> {
                let c = rename_changes(documents@, target_name.spec_bytes())[k];
                &&& (#[trigger] r@[k]).0@ == c.0
                &&& edits_for(r@[k].1@, c.2, target_name.spec_bytes().len() as int, line_starts_of(c.1), new_name@)
            },
{
    let mut changes: Vec<(String, Vec<RenameEdit>)> = Vec::new();
    let mut i: usize = 0;
    while i < documents.len()
        invariant
            i <= documents@.len(),
            target_name@.len() > 0,
            changes@.len() == rename_changes(documents@.take(i as int), target_name.spec_bytes()).len(),
            forall|k: int|
                0 <= k < changes@.len() ==> {
                    let c = rename_changes(documents@.take(i as int), target_name.spec_bytes())[k];
                    &&& (#[trigger] changes@[k]).0@ == c.0
                    &&& edits_for(
                        changes@[k].1@,
                        c.2,
                        target_name.spec_bytes().len() as int,
                        line_starts_of(c.1),
                        new_name@,
                    )
                },
        decreases documents@.len() - i,
    {
        let (uri, text) = &documents[i];
        let edits = find_identifier_edits(text.as_str(), target_name, new_name);
        proof {
            assert(documents@.take(i + 1).drop_last() == documents@.take(i as int));
        }
        if edits.len() > 0 {
            changes.push((uri.clone(), edits));
        }
        i += 1;
    }
    assert(documents@.take(i as int) == documents@);
    changes
}

/// Get the scope that defines the symbol `name` seen from the file scope
/// of `file_path` — the scope to check for conflicts when renaming.
pub fn defining_scope(table: &SymbolTable, file_path: &str, name: &str) -> (r: Option<ScopeId>)
    requires
        table.wf(),
    ensures
        table.file_root(file_path@) is None ==> r is None,
        table.file_root(file_path@) matches Some(root) ==> (chain_lookup(table.scope_seq(), root.0 as int, name@) matches Some(
            (sid, ids),
        ) ==> r == Some(table.symbols()[ids[0].0 as int].scope)),
{
    let file_scope = match table.file_scope(file_path) {
        Some(s) => s,
        None => {
            return None;
        },
    };
    match table.lookup_with_includes(file_scope, name, file_path) {
        Some(sym) => Some(sym.scope),
        None => None,
    }
}

/// Whether a symbol kind is renameable from the editor: every
/// user-declared symbol is.
pub fn is_renameable(kind: &SymbolKind) -> (r: bool)
    ensures
        r,
{
    true
}

} // verus!
