//! Code actions: the text scans behind the quick fixes that declare a
//! missing symbol or turn an unsafe assignment into a safe one.

use vstd::prelude::*;
use vstd::string::StringSliceAdditionalSpecFns;
use vstd::utf8::*;

use crate::server::signature_help::{ident_run_start, is_ascii_ws, ws_run_start};
use crate::server::rename::is_ascii_alnum;
use crate::span::{LineCol, LineIndex, line_starts_of, locates};
use crate::server::rename::{find_from, next_occurrence};
use crate::text::{at_boundary, lemma_after_ascii, lemma_ascii_is_boundary, str_eq, substring};

verus! {

broadcast use vstd::utf8::group_utf8_lib;

/// The position of the first byte `c` in `b` at or after `from`.
pub open spec fn first_byte_from(b: Seq<u8>, from: int, c: u8) -> Option<int>
    decreases b.len() - from,
{
    if from < 0 || from >= b.len() {
        None
    } else if b[from] == c {
        Some(from)
    } else {
        first_byte_from(b, from + 1, c)
    }
}

/// Whether `needle` occurs in `hay`.
pub open spec fn bytes_contain(hay: Seq<u8>, needle: Seq<u8>) -> bool {
    exists|i: int| 0 <= i <= hay.len() - needle.len() && #[trigger] hay.subrange(i, i + needle.len()) == needle
}

/// The position of the first byte `c` in `b` at or after `from`.
fn find_byte(b: &[u8], from: usize, c: u8) -> (r: Option<usize>)
    requires
        from <= b@.len(),
    ensures
        r matches Some(i) ==> first_byte_from(b@, from as int, c) == Some(i as int),
        r is None ==> first_byte_from(b@, from as int, c) is None,
        r matches Some(i) ==> from <= i < b@.len() && b@[i as int] == c,
{
    let mut i = from;
    while i < b.len()
        invariant
            from <= i <= b@.len(),
            first_byte_from(b@, i as int, c) == first_byte_from(b@, from as int, c),
        decreases b@.len() - i,
    {
        if b[i] == c {
            return Some(i);
        }
        i += 1;
    }
    None
}

/// Whether `hay` contains `needle` as a substring.
fn contains_text(hay: &str, needle: &str) -> (r: bool)
    ensures
        r == bytes_contain(hay.spec_bytes(), needle.spec_bytes()),
{
    let h = hay.as_bytes();
    let n = needle.as_bytes();
    if n.len() > h.len() {
        return false;
    }
    let mut i: usize = 0;
    while i <= h.len() - n.len()
        invariant
            n@.len() <= h@.len(),
            i <= h@.len() - n@.len() + 1,
            h@ == hay.spec_bytes(),
            n@ == needle.spec_bytes(),
            forall|k: int| 0 <= k < i ==> #[trigger] h@.subrange(k, k + n@.len()) != n@,
        decreases h@.len() - n@.len() + 1 - i,
    {
        let mut j: usize = 0;
        let mut same = true;
        while j < n.len()
            invariant
                j <= n@.len(),
                i + n@.len() <= h@.len(),
                h@.len() == h.len(),
                n@.len() == n.len(),
                same == forall|q: int| 0 <= q < j ==> h@[i + q] == n@[q],
            decreases n@.len() - j,
        {
            if h[i + j] != n[j] {
                same = false;
            }
            j += 1;
        }
        if same {
            assert(h@.subrange(i as int, i + n@.len()) =~= n@);
            return true;
        }
        proof {
            assert(!(forall|q: int| 0 <= q < n@.len() ==> h@[i + q] == n@[q]));
            let q = choose|q: int| 0 <= q < n@.len() && h@[i + q] != n@[q];
            assert(h@.subrange(i as int, i + n@.len())[q] != n@[q]);
        }
        if i == h.len() - n.len() {
            return false;
        }
        i += 1;
    }
    false
}

/// The byte range between the first two `'` of `b`.
pub open spec fn first_quoted(b: Seq<u8>) -> Option<(int, int)> {
    match first_byte_from(b, 0, 39) {
        None => None,
        Some(s) => match first_byte_from(b, s + 1, 39) {
            None => None,
            Some(e) => Some((s + 1, e)),
        },
    }
}

/// Extract the quoted name from a message like `undeclared symbol 'foo'`:
/// the text between the first two `'` of a message that mentions
/// `prefix`.
pub fn extract_quoted_name(message: &str, prefix: &str) -> (r: Option<String>)
    ensures
        !bytes_contain(message.spec_bytes(), prefix.spec_bytes()) ==> r is None,
        bytes_contain(message.spec_bytes(), prefix.spec_bytes()) ==> match first_quoted(message.spec_bytes()) {
            None => r is None,
            Some((s, e)) => r matches Some(name) && encode_utf8(name@) == message.spec_bytes().subrange(s, e),
        },
{
    if !contains_text(message, prefix) {
        return None;
    }
    let b = message.as_bytes();
    proof {
        encode_utf8_valid_utf8(message@);
    }
    let start = match find_byte(b, 0, 39u8) {
        Some(s) => s,
        None => {
            return None;
        },
    };
    let len = b.len();
    assert(start < len);
    let end = match find_byte(b, start + 1, 39u8) {
        Some(e) => e,
        None => {
            return None;
        },
    };
    proof {
        lemma_after_ascii(b@, start as int);
        lemma_ascii_is_boundary(b@, end as int);
    }
    Some(substring(message, start + 1, end))
}

/// The byte offset of an editor position: the start of line `line` plus
/// `character`, where the line exists.
pub open spec fn position_offset(b: Seq<u8>, line: u32, character: u32) -> Option<int> {
    let starts = line_starts_of(b);
    if line < starts.len() && starts[line as int] + character <= usize::MAX {
        Some(starts[line as int] + character)
    } else {
        None
    }
}

/// Convert an editor position to a byte offset; columns count bytes
/// (Circom source is ASCII).
pub fn offset_of_position(text: &str, line: u32, character: u32) -> (r: Option<usize>)
    ensures
        r matches Some(o) ==> position_offset(text.spec_bytes(), line, character) == Some(o as int),
        r is None ==> position_offset(text.spec_bytes(), line, character) is None,
{
    let line_index = LineIndex::new(text);
    line_index.offset(line as usize, character as usize)
}

/// A quick fix: a title, and the text that replaces the range from
/// `start` to `end` (byte offsets, and the same as line/column).
#[derive(Debug, Clone, PartialEq)]
pub struct QuickFix {
    pub title: String,
    pub start_offset: usize,
    pub end_offset: usize,
    pub start: LineCol,
    pub end: LineCol,
    pub new_text: String,
}

/// A diagnostic as the quick fixes see it: its message, whether it is a
/// warning, and its range as editor positions.
#[derive(Debug, Clone, PartialEq)]
pub struct FixRequest {
    pub message: String,
    pub is_warning: bool,
    pub start_line: u32,
    pub start_character: u32,
    pub end_line: u32,
    pub end_character: u32,
}

/// What a quick fix holds: title, start and end offsets, new text.
pub type FixSpec = (Seq<char>, int, int, Seq<char>);

/// `f` is the fix `spec` in a text whose lines start at `starts`.
pub open spec fn fix_is(f: QuickFix, spec: FixSpec, starts: Seq<usize>) -> bool {
    &&& f.title@ == spec.0
    &&& f.start_offset == spec.1
    &&& f.end_offset == spec.2
    &&& locates(starts, spec.1, f.start)
    &&& locates(starts, spec.2, f.end)
    &&& f.new_text@ == spec.3
}

/// The fix that declares the symbol named in an undeclared-symbol
/// message at the start of the enclosing body.
pub open spec fn declare_fix(b: Seq<u8>, message: Seq<u8>, line: u32, character: u32) -> Option<FixSpec> {
    if !bytes_contain(message, encode_utf8("undeclared symbol"@)) {
        None
    } else {
        match first_quoted(message) {
            None => None,
            Some((s, e)) => {
                let name = decode_utf8(message.subrange(s, e));
                match position_offset(b, line, character) {
                    None => None,
                    Some(off) => match enclosing_spec(b, off) {
                        None => None,
                        Some((kind, ins)) => Some(
                            if kind == EnclosingKind::Template {
                                (
                                    "Declare missing signal '"@ + name + "'"@,
                                    ins,
                                    ins,
                                    "    signal "@ + name + ";\n"@,
                                )
                            } else {
                                (
                                    "Declare missing variable '"@ + name + "'"@,
                                    ins,
                                    ins,
                                    "    var "@ + name + ";\n"@,
                                )
                            },
                        ),
                    },
                }
            },
        }
    }
}

/// If the message reports an undeclared symbol, build a fix that
/// declares it as a `signal` (inside a template) or `var` (inside a
/// function) at the start of the enclosing body.
pub fn declare_missing_symbol_action(text: &str, message: &str, line: u32, character: u32) -> (r: Option<QuickFix>)
    ensures
        match declare_fix(text.spec_bytes(), message.spec_bytes(), line, character) {
            None => r is None,
            Some(f) => r matches Some(q) && fix_is(q, f, line_starts_of(text.spec_bytes())),
        },
{
    // Messages from the undeclared-symbol check read
    // "undeclared symbol '<name>'".
    let prefix = "undeclared symbol";
    let name = match extract_quoted_name(message, prefix) {
        Some(n) => n,
        None => {
            return None;
        },
    };
    proof {
        let (s, e) = first_quoted(message.spec_bytes())->0;
        encode_utf8_decode_utf8(name@);
        assert(decode_utf8(message.spec_bytes().subrange(s, e)) == name@);
    }
    let diag_offset = match offset_of_position(text, line, character) {
        Some(o) => o,
        None => {
            return None;
        },
    };
    let context = match find_enclosing_context(text, diag_offset) {
        Some(c) => c,
        None => {
            return None;
        },
    };
    let line_index = LineIndex::new(text);
    let lc = match line_index.line_col(context.insert_offset) {
        Some(lc) => lc,
        None => {
            return None;
        },
    };
    let (title, decl_text) = match context.kind {
        EnclosingKind::Template => {
            let mut t = String::from_str("Declare missing signal '");
            t.append(name.as_str());
            t.append("'");
            let mut d = String::from_str("    signal ");
            d.append(name.as_str());
            d.append(";\n");
            (t, d)
        },
        EnclosingKind::Function => {
            let mut t = String::from_str("Declare missing variable '");
            t.append(name.as_str());
            t.append("'");
            let mut d = String::from_str("    var ");
            d.append(name.as_str());
            d.append(";\n");
            (t, d)
        },
    };
    Some(
        QuickFix {
            title,
            start_offset: context.insert_offset,
            end_offset: context.insert_offset,
            start: lc,
            end: lc,
            new_text: decl_text,
        },
    )
}

/// The bytes of `<--`.
pub open spec fn unsafe_arrow() -> Seq<u8> {
    seq![60u8, 45u8, 45u8]
}

/// The fix that turns the first `<--` in a warning's range into `<==`.
/// A range that starts past the end of the text has none.
pub open spec fn unsafe_assign_fix(
    b: Seq<u8>,
    is_warning: bool,
    start_line: u32,
    start_character: u32,
    end_line: u32,
    end_character: u32,
) -> Option<FixSpec> {
    if !is_warning {
        None
    } else {
        match (position_offset(b, start_line, start_character), position_offset(b, end_line, end_character)) {
            (Some(start), Some(e0)) => {
                let e1 = if e0 >= start {
                    e0
                } else {
                    start
                };
                let end = if e1 <= b.len() {
                    e1
                } else {
                    b.len() as int
                };
                if start > b.len() {
                    None
                } else {
                    match next_occurrence(b, unsafe_arrow(), start) {
                        Some(a) => if a + 3 <= end {
                            Some(("Change '<--' to '<=='"@, a, a + 3, "<=="@))
                        } else {
                            None
                        },
                        None => None,
                    }
                }
            },
            _ => None,
        }
    }
}

/// If the diagnostic is a warning and its range holds the `<--`
/// operator, build a fix that replaces the first `<--` there with
/// `<==`. A range that starts past the end of the text gives none.
pub fn change_unsafe_assign_action(
    text: &str,
    is_warning: bool,
    start_line: u32,
    start_character: u32,
    end_line: u32,
    end_character: u32,
) -> (r: Option<QuickFix>)
    ensures
        match unsafe_assign_fix(text.spec_bytes(), is_warning, start_line, start_character, end_line, end_character) {
            None => r is None,
            Some(f) => r matches Some(q) && fix_is(q, f, line_starts_of(text.spec_bytes())),
        },
{
    // Only warnings can be unsafe assignments.
    if !is_warning {
        return None;
    }
    let start = match offset_of_position(text, start_line, start_character) {
        Some(o) => o,
        None => {
            return None;
        },
    };
    let end0 = match offset_of_position(text, end_line, end_character) {
        Some(o) => o,
        None => {
            return None;
        },
    };
    let bytes = text.as_bytes();
    let len = bytes.len();
    let end1 = if end0 >= start { end0 } else { start };
    let end = if end1 <= len { end1 } else { len };
    if start > len {
        return None;
    }
    let pat: [u8; 3] = [60u8, 45u8, 45u8];
    assert(pat@ == unsafe_arrow());
    let abs = match find_from(bytes, &pat, start) {
        Some(a) => a,
        None => {
            return None;
        },
    };
    if abs > end || end - abs < 3 {
        return None;
    }
    let line_index = LineIndex::new(text);
    let lc_start = match line_index.line_col(abs) {
        Some(lc) => lc,
        None => {
            return None;
        },
    };
    let lc_end = match line_index.line_col(abs + 3) {
        Some(lc) => lc,
        None => {
            return None;
        },
    };
    Some(
        QuickFix {
            title: String::from_str("Change '<--' to '<=='"),
            start_offset: abs,
            end_offset: abs + 3,
            start: lc_start,
            end: lc_end,
            new_text: String::from_str("<=="),
        },
    )
}

/// The fixes for a list of diagnostics, in order: for each, the
/// declaration fix and then the assignment fix, where they apply.
pub open spec fn fixes_for(b: Seq<u8>, diags: Seq<FixRequest>) -> Seq<FixSpec>
    decreases diags.len(),
{
    if diags.len() == 0 {
        Seq::empty()
    } else {
        let d = diags.last();
        let a = match declare_fix(b, encode_utf8(d.message@), d.start_line, d.start_character) {
            Some(f) => seq![f],
            None => Seq::empty(),
        };
        let c = match unsafe_assign_fix(
            b,
            d.is_warning,
            d.start_line,
            d.start_character,
            d.end_line,
            d.end_character,
        ) {
            Some(f) => seq![f],
            None => Seq::empty(),
        };
        fixes_for(b, diags.drop_last()) + a + c
    }
}

/// Build every applicable quick fix for the diagnostics reported
/// against `text`.
pub fn code_actions(text: &str, diagnostics: &Vec<FixRequest>) -> (r: Vec<QuickFix>)
    ensures
        r@.len() == fixes_for(text.spec_bytes(), diagnostics@).len(),
        forall|k: int|
            0 <= k < r@.len() ==> fix_is(
                #[trigger] r@[k],
                fixes_for(text.spec_bytes(), diagnostics@)[k],
                line_starts_of(text.spec_bytes()),
            ),
{
    let ghost b = text.spec_bytes();
    let mut actions: Vec<QuickFix> = Vec::new();
    let mut i: usize = 0;
    while i < diagnostics.len()
        invariant
            i <= diagnostics@.len(),
            b == text.spec_bytes(),
            actions@.len() == fixes_for(b, diagnostics@.take(i as int)).len(),
            forall|k: int|
                0 <= k < actions@.len() ==> fix_is(
                    #[trigger] actions@[k],
                    fixes_for(b, diagnostics@.take(i as int))[k],
                    line_starts_of(b),
                ),
        decreases diagnostics@.len() - i,
    {
        let d = &diagnostics[i];
        let ghost prev = actions@;
        proof {
            assert(diagnostics@.take(i + 1).drop_last() == diagnostics@.take(i as int));
        }
        match declare_missing_symbol_action(text, d.message.as_str(), d.start_line, d.start_character) {
            Some(action) => {
                actions.push(action);
            },
            None => {},
        }
        let ghost mid = actions@;
        match change_unsafe_assign_action(
            text,
            d.is_warning,
            d.start_line,
            d.start_character,
            d.end_line,
            d.end_character,
        ) {
            Some(action) => {
                actions.push(action);
            },
            None => {},
        }
        proof {
            let all = fixes_for(b, diagnostics@.take(i + 1));
            assert forall|k: int| 0 <= k < actions@.len() implies fix_is(
                #[trigger] actions@[k],
                all[k],
                line_starts_of(b),
            ) by {
                if k < prev.len() {
                    assert(actions@[k] == prev[k]);
                } else if k < mid.len() {
                    assert(actions@[k] == mid[k]);
                }
            }
        }
        i += 1;
    }
    assert(diagnostics@.take(i as int) == diagnostics@);
    actions
}

/// Kind of body that encloses an offset.
#[derive(Debug, Clone, Copy, PartialEq, Eq, Structural)]
pub enum EnclosingKind {
    Template,
    Function,
}

#[derive(Debug)]
pub struct EnclosingContext {
    pub kind: EnclosingKind,
    /// Byte offset where a declaration should be inserted (start of the
    /// line after the opening `{`).
    pub insert_offset: usize,
}

/// The backward scan for the unmatched `{` before `pos`, with `depth`
/// unmatched `}` seen so far.
pub open spec fn open_brace_scan(b: Seq<u8>, pos: int, depth: int) -> Option<int>
    decreases pos,
{
    if pos <= 0 {
        None
    } else if b[pos - 1] == 125 {
        open_brace_scan(b, pos - 1, depth + 1)
    } else if b[pos - 1] == 123 {
        if depth == 0 {
            Some(pos - 1)
        } else {
            open_brace_scan(b, pos - 1, depth - 1)
        }
    } else {
        open_brace_scan(b, pos - 1, depth)
    }
}

/// Walk backward from `offset` to the unmatched `{` that opens the
/// enclosing body.
pub fn find_enclosing_open_brace(bytes: &[u8], offset: usize) -> (r: Option<usize>)
    requires
        offset <= bytes@.len(),
    ensures
        r matches Some(p) ==> open_brace_scan(bytes@, offset as int, 0) == Some(p as int) && p < offset
            && bytes@[p as int] == 123,
        r is None ==> open_brace_scan(bytes@, offset as int, 0) is None,
{
    let mut depth: usize = 0;
    let mut pos = offset;
    while pos > 0
        invariant
            pos <= offset <= bytes@.len(),
            depth <= offset - pos,
            open_brace_scan(bytes@, pos as int, depth as int) == open_brace_scan(bytes@, offset as int, 0),
        decreases pos,
    {
        pos -= 1;
        if bytes[pos] == 125u8 {
            depth += 1;
        } else if bytes[pos] == 123u8 {
            if depth == 0 {
                return Some(pos);
            }
            depth -= 1;
        }
    }
    None
}

/// The backward walk over a parameter list from `p`, with `depth`
/// unmatched `)` seen: it stops on the `(` that brings the depth back to
/// zero, or at the start of the text.
pub open spec fn paren_walk(b: Seq<u8>, p: int, depth: int) -> int
    decreases p,
{
    if p <= 0 {
        p
    } else if b[p - 1] == 41 {
        paren_walk(b, p - 1, depth + 1)
    } else if b[p - 1] == 40 {
        let d = if depth > 0 {
            depth - 1
        } else {
            0
        };
        if d == 0 {
            p - 1
        } else {
            paren_walk(b, p - 1, d)
        }
    } else {
        paren_walk(b, p - 1, depth)
    }
}

/// Where `skip_back_over_parens` stops.
pub open spec fn parens_start(b: Seq<u8>, p: int) -> int {
    if p > 0 && b[p - 1] == 41 {
        paren_walk(b, p, 0)
    } else {
        p
    }
}

/// Skip back across a balanced `(...)` ending just before `p`.
pub fn skip_back_over_parens(bytes: &[u8], p: usize) -> (r: usize)
    requires
        p <= bytes@.len(),
    ensures
        r == parens_start(bytes@, p as int),
        r <= p,
{
    let mut p = p;
    if p > 0 && bytes[p - 1] == 41u8 {
        let mut pdepth: usize = 0;
        let ghost start = p;
        while p > 0
            invariant_except_break
                p <= start <= bytes@.len(),
                pdepth <= start - p,
                paren_walk(bytes@, p as int, pdepth as int) == paren_walk(bytes@, start as int, 0),
                p < start ==> pdepth > 0,
                0 < start,
                bytes@[start - 1] == 41,
            ensures
                p <= start,
                p == paren_walk(bytes@, start as int, 0),
            decreases p,
        {
            p -= 1;
            if bytes[p] == 41u8 {
                pdepth += 1;
            } else if bytes[p] == 40u8 {
                // The first byte seen is `)`, so the depth is positive
                // before any `(`.
                if pdepth > 0 {
                    pdepth -= 1;
                }
                if pdepth == 0 {
                    break;
                }
            }
        }
    }
    p
}

/// Skip back over ASCII whitespace.
pub fn skip_ws_back(bytes: &[u8], p: usize) -> (r: usize)
    requires
        p <= bytes@.len(),
    ensures
        r == ws_run_start(bytes@, p as int),
        r <= p,
        forall|k: int| r <= k < p ==> is_ascii_ws(#[trigger] bytes@[k]),
{
    let mut p = p;
    let ghost p0 = p;
    while p > 0 && (bytes[p - 1] == 32u8 || bytes[p - 1] == 9u8 || bytes[p - 1] == 10u8 || bytes[p - 1] == 12u8
        || bytes[p - 1] == 13u8)
        invariant
            p <= p0 <= bytes@.len(),
            ws_run_start(bytes@, p as int) == ws_run_start(bytes@, p0 as int),
            forall|k: int| p <= k < p0 ==> is_ascii_ws(#[trigger] bytes@[k]),
        decreases p,
    {
        p -= 1;
    }
    p
}

/// Skip back over identifier characters.
pub fn skip_ident_back(bytes: &[u8], p: usize) -> (r: usize)
    requires
        p <= bytes@.len(),
    ensures
        r == ident_run_start(bytes@, p as int),
        r <= p,
        forall|k: int| r <= k < p ==> is_ascii_alnum(#[trigger] bytes@[k]) || bytes@[k] == 95,
{
    let mut p = p;
    let ghost p0 = p;
    while p > 0 && (((65u8 <= bytes[p - 1] && bytes[p - 1] <= 90u8) || (97u8 <= bytes[p - 1] && bytes[p - 1] <= 122u8)
        || (48u8 <= bytes[p - 1] && bytes[p - 1] <= 57u8)) || bytes[p - 1] == 95u8)
        invariant
            p <= p0 <= bytes@.len(),
            ident_run_start(bytes@, p as int) == ident_run_start(bytes@, p0 as int),
            forall|k: int| p <= k < p0 ==> is_ascii_alnum(#[trigger] bytes@[k]) || bytes@[k] == 95,
        decreases p,
    {
        p -= 1;
    }
    p
}

proof fn lemma_run_starts(b: Seq<u8>, p: int)
    requires
        0 <= p,
    ensures
        0 <= ws_run_start(b, p) <= p,
        0 <= ident_run_start(b, p) <= p,
    decreases p,
{
    if p > 0 {
        lemma_run_starts(b, p - 1);
    }
}

/// The kind of body named by the words before `p`: `custom` and
/// `parallel` are skipped, `template` and `function` decide, and
/// anything else (or no word) gives `None`.
pub open spec fn keyword_kind(b: Seq<u8>, p: int) -> Option<EnclosingKind>
    decreases p,
{
    let q = ws_run_start(b, p);
    let s = ident_run_start(b, q);
    if s == q || p <= s || s < 0 {
        None
    } else {
        let w = decode_utf8(b.subrange(s, q));
        if w == "custom"@ || w == "parallel"@ {
            keyword_kind(b, s)
        } else if w == "template"@ {
            Some(EnclosingKind::Template)
        } else if w == "function"@ {
            Some(EnclosingKind::Function)
        } else {
            None
        }
    }
}

/// The first byte of the line after `offset` (or the end of the text).
pub open spec fn line_after(b: Seq<u8>, offset: int) -> int
    decreases b.len() - offset,
{
    if offset < 0 || offset >= b.len() {
        offset
    } else if b[offset] == 10 {
        offset + 1
    } else {
        line_after(b, offset + 1)
    }
}

/// What `find_enclosing_context` finds for the bytes `b` and `offset`:
/// the kind of body and the insertion offset.
pub open spec fn enclosing_spec(b: Seq<u8>, offset: int) -> Option<(EnclosingKind, int)> {
    let off = if offset <= b.len() {
        offset
    } else {
        b.len() as int
    };
    match open_brace_scan(b, off, 0) {
        None => None,
        Some(brace) => {
            let name_end = ws_run_start(b, parens_start(b, ws_run_start(b, brace)));
            match keyword_kind(b, ident_run_start(b, name_end)) {
                None => None,
                Some(k) => Some((k, line_after(b, brace + 1))),
            }
        },
    }
}

/// Find the template/function body that encloses `offset` by scanning
/// backward through the source text: the unmatched `{` before `offset`,
/// preceded by a parameter list, a name, optional `custom` / `parallel`
/// modifiers and the keyword. A lexical scan; the document is not
/// parsed.
pub fn find_enclosing_context(text: &str, offset: usize) -> (r: Option<EnclosingContext>)
    ensures
        match enclosing_spec(text.spec_bytes(), offset as int) {
            None => r is None,
            Some((k, ins)) => r matches Some(ctx) && ctx.kind == k && ctx.insert_offset == ins,
        },
{
    let bytes = text.as_bytes();
    let off = if offset <= bytes.len() { offset } else { bytes.len() };
    let brace = match find_enclosing_open_brace(bytes, off) {
        Some(b) => b,
        None => {
            return None;
        },
    };
    // From the brace, walk backward skipping whitespace and a possible
    // `(...)` parameter list, then read the keyword.
    let mut p = brace;
    p = skip_ws_back(bytes, p);
    p = skip_back_over_parens(bytes, p);
    p = skip_ws_back(bytes, p);
    p = skip_ident_back(bytes, p);
    let len = bytes.len();
    let ghost kind_at = keyword_kind(bytes@, p as int);
    assert(enclosing_spec(bytes@, offset as int) == match kind_at {
        None => None,
        Some(k) => Some((k, line_after(bytes@, brace + 1))),
    });
    // Skip whitespace and the optional `custom` / `parallel` modifiers.
    loop
        invariant
            p <= brace < bytes@.len(),
            len == bytes@.len(),
            bytes@ == text.spec_bytes(),
            keyword_kind(bytes@, p as int) == kind_at,
            enclosing_spec(bytes@, offset as int) == match kind_at {
                None => None,
                Some(k) => Some((k, line_after(bytes@, brace + 1))),
            },
        decreases p,
    {
        let ghost p_old = p;
        proof {
            lemma_run_starts(bytes@, p as int);
            lemma_run_starts(bytes@, ws_run_start(bytes@, p as int));
        }
        p = skip_ws_back(bytes, p);
        let modifier_start = p;
        p = skip_ident_back(bytes, p);
        if p == modifier_start {
            return None;
        }
        proof {
            encode_utf8_valid_utf8(text@);
            lemma_ascii_is_boundary(bytes@, p as int);
        }
        let word = word_at(text, p, modifier_start);
        proof {
            encode_utf8_decode_utf8(word@);
            assert(decode_utf8(bytes@.subrange(p as int, modifier_start as int)) == word@);
            assert(keyword_kind(bytes@, p_old as int) == (if word@ == "custom"@ || word@ == "parallel"@ {
                keyword_kind(bytes@, p as int)
            } else if word@ == "template"@ {
                Some(EnclosingKind::Template)
            } else if word@ == "function"@ {
                Some(EnclosingKind::Function)
            } else {
                None
            }));
        }
        if str_eq(word.as_str(), "custom") || str_eq(word.as_str(), "parallel") {
            continue;
        }
        let kind = if str_eq(word.as_str(), "template") {
            EnclosingKind::Template
        } else if str_eq(word.as_str(), "function") {
            EnclosingKind::Function
        } else {
            return None;
        };
        let insert_offset = next_line_start(text, brace + 1);
        return Some(EnclosingContext { kind, insert_offset });
    }
}

/// The text of `text[start..end]`, a run of identifier bytes.
fn word_at(text: &str, start: usize, end: usize) -> (w: String)
    requires
        start < end <= text.spec_bytes().len(),
        forall|k: int| start <= k < end ==> is_ascii_alnum(#[trigger] text.spec_bytes()[k]) || text.spec_bytes()[k] == 95,
    ensures
        encode_utf8(w@) == text.spec_bytes().subrange(start as int, end as int),
{
    let ghost b = text.spec_bytes();
    proof {
        encode_utf8_valid_utf8(text@);
        lemma_ascii_is_boundary(b, start as int);
        lemma_after_ascii(b, end - 1);
    }
    substring(text, start, end)
}

/// Byte offset of the start of the line after `offset`. If `offset` is
/// already at a newline we return the byte just after it.
pub fn next_line_start(text: &str, offset: usize) -> (r: usize)
    requires
        offset <= text.spec_bytes().len(),
    ensures
        r == line_after(text.spec_bytes(), offset as int),
        offset <= r <= text.spec_bytes().len(),
{
    let bytes = text.as_bytes();
    let mut p = offset;
    while p < bytes.len() && bytes[p] != 10u8
        invariant
            offset <= p <= bytes@.len(),
            bytes@ == text.spec_bytes(),
            line_after(bytes@, p as int) == line_after(bytes@, offset as int),
        decreases bytes@.len() - p,
    {
        p += 1;
    }
    if p < bytes.len() {
        p + 1
    } else {
        p
    }
}

} // verus!
