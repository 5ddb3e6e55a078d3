//! Signature help: parameter information when the cursor is inside a
//! function call, template instantiation, or built-in call (`log`,
//! `assert`, `NumBits`).

use vstd::prelude::*;
use vstd::string::StringSliceAdditionalSpecFns;
use vstd::utf8::*;

use crate::server::rename::{is_ascii_alnum, is_ascii_alpha, valid_identifier};
use crate::symbol::SymbolKind;
use crate::symbol_table::SymbolTable;
use crate::scope::chain_lookup;
use crate::text::{lemma_ascii_is_boundary, substring};

verus! {

broadcast use vstd::utf8::group_utf8_lib;

/// Result of finding a call site at a cursor position.
#[derive(Debug, Clone, PartialEq)]
pub struct CallSite {
    /// The name of the function/template being called.
    pub name: String,
    /// The 0-based index of the active parameter.
    pub active_param: u32,
}

/// ASCII whitespace as `u8::is_ascii_whitespace` has it: space, tab,
/// newline, form feed, carriage return.
pub open spec fn is_ascii_ws(b: u8) -> bool {
    b == 32 || b == 9 || b == 10 || b == 12 || b == 13
}

/// The start of the run of ASCII whitespace that ends at `e`.
pub open spec fn ws_run_start(b: Seq<u8>, e: int) -> int
    decreases e,
{
    if e > 0 && is_ascii_ws(b[e - 1]) {
        ws_run_start(b, e - 1)
    } else {
        e
    }
}

/// The start of the run of identifier bytes (ASCII letters, digits, `_`)
/// that ends at `e`.
pub open spec fn ident_run_start(b: Seq<u8>, e: int) -> int
    decreases e,
{
    if e > 0 && (is_ascii_alnum(b[e - 1]) || b[e - 1] == 95) {
        ident_run_start(b, e - 1)
    } else {
        e
    }
}

/// The byte range of the callee name before the `(` at `paren`: the
/// identifier that ends where the whitespace before `paren` starts, if
/// it is not empty and starts with a letter or `_`.
pub open spec fn callee_range(b: Seq<u8>, paren: int) -> Option<(int, int)> {
    let end = ws_run_start(b, paren);
    let start = ident_run_start(b, end);
    if end == 0 || start == end || !(is_ascii_alpha(b[start]) || b[start] == 95) {
        None
    } else {
        Some((start, end))
    }
}

/// The backward scan from `pos` with `depth` unmatched `)` and `commas`
/// commas counted so far: the position of the `(` that opens the call
/// and the number of commas at depth 0 after it, or `None` where a `;`,
/// `{` or `}` at depth 0, or the start of the text, comes first.
pub open spec fn call_scan(b: Seq<u8>, pos: int, depth: int, commas: int) -> Option<(int, int)>
    decreases pos,
{
    if pos <= 0 {
        None
    } else {
        let c = b[pos - 1];
        if c == 41 {
            call_scan(b, pos - 1, depth + 1, commas)
        } else if c == 40 {
            if depth == 0 {
                Some((pos - 1, commas))
            } else {
                call_scan(b, pos - 1, depth - 1, commas)
            }
        } else if c == 44 && depth == 0 {
            call_scan(b, pos - 1, depth, commas + 1)
        } else if (c == 59 || c == 123 || c == 125) && depth == 0 {
            None
        } else {
            call_scan(b, pos - 1, depth, commas)
        }
    }
}

/// How many of the bytes of `b` in `lo..hi` are `c`.
pub open spec fn count_byte(b: Seq<u8>, lo: int, hi: int, c: u8) -> nat
    decreases hi - lo,
{
    if lo >= hi {
        0
    } else {
        (if b[lo] == c {
            1nat
        } else {
            0nat
        }) + count_byte(b, lo + 1, hi, c)
    }
}

/// The parentheses of `b` in `lo..hi` balance: as many `)` as `(`.
pub open spec fn parens_balance(b: Seq<u8>, lo: int, hi: int) -> bool {
    count_byte(b, lo, hi, 41) == count_byte(b, lo, hi, 40)
}

/// How many commas of `b` in `lo..hi` stand outside every parenthesis
/// pair that closes before `hi`: those after which the parentheses up to
/// `hi` balance.
pub open spec fn outer_commas(b: Seq<u8>, lo: int, hi: int) -> nat
    decreases hi - lo,
{
    if lo >= hi {
        0
    } else {
        (if b[lo] == 44 && parens_balance(b, lo + 1, hi) {
            1nat
        } else {
            0nat
        }) + outer_commas(b, lo + 1, hi)
    }
}

/// The backward scan from `pos`, `depth` being the `)` not yet matched
/// and `commas` the outer commas counted so far up to `hi`, finds an
/// opening parenthesis after which the parentheses balance up to `hi`,
/// and counts the outer commas between the two.
pub proof fn lemma_call_scan(b: Seq<u8>, pos: int, depth: int, commas: int, hi: int)
    requires
        0 <= pos <= hi <= b.len(),
        depth == count_byte(b, pos, hi, 41) - count_byte(b, pos, hi, 40),
        commas == outer_commas(b, pos, hi),
    ensures
        call_scan(b, pos, depth, commas) matches Some((p, c)) ==> {
            &&& 0 <= p < pos
            &&& b[p] == 40
            &&& parens_balance(b, p + 1, hi)
            &&& c == outer_commas(b, p + 1, hi)
        },
    decreases pos,
{
    if pos > 0 {
        let ch = b[pos - 1];
        assert(count_byte(b, pos - 1, hi, 41) == (if ch == 41 { 1nat } else { 0nat }) + count_byte(b, pos, hi, 41));
        assert(count_byte(b, pos - 1, hi, 40) == (if ch == 40 { 1nat } else { 0nat }) + count_byte(b, pos, hi, 40));
        assert(outer_commas(b, pos - 1, hi) == (if ch == 44 && parens_balance(b, pos, hi) { 1nat } else { 0nat })
            + outer_commas(b, pos, hi));
        if ch == 41 {
            lemma_call_scan(b, pos - 1, depth + 1, commas, hi);
        } else if ch == 40 {
            if depth != 0 {
                lemma_call_scan(b, pos - 1, depth - 1, commas, hi);
            }
        } else if ch == 44 && depth == 0 {
            lemma_call_scan(b, pos - 1, depth, commas + 1, hi);
        } else if (ch == 59 || ch == 123 || ch == 125) && depth == 0 {
        } else {
            lemma_call_scan(b, pos - 1, depth, commas, hi);
        }
    }
}

/// The call site that `find_call_site` reports for the bytes `b` and a
/// cursor at `offset`: the callee's byte range and the comma count.
pub open spec fn call_site_spec(b: Seq<u8>, offset: int) -> Option<(int, int, int)> {
    let off = if offset <= b.len() { offset } else { b.len() as int };
    match call_scan(b, off, 0, 0) {
        None => None,
        Some((paren, commas)) => match callee_range(b, paren) {
            None => None,
            Some((start, end)) => Some((start, end, commas)),
        },
    }
}

/// Find the call site (function name + active parameter index) at a byte
/// offset.
///
/// Scans backward from `offset` through the source text to find a `(`
/// that starts a call, counting `,` at the same nesting depth to
/// determine the active parameter. The scan stops at `;`, `{` or `}` at
/// depth 0.
///
/// The scan does not skip `//` or `/* ... */` comments or string
/// literals: a comma or parenthesis inside one is counted too. The
/// parameter index saturates at `u32::MAX`.
pub fn find_call_site(source: &str, offset: usize) -> (r: Option<CallSite>)
    ensures
        match call_site_spec(source.spec_bytes(), offset as int) {
            None => r is None,
            Some((start, end, commas)) => r matches Some(cs) && encode_utf8(cs.name@)
                == source.spec_bytes().subrange(start, end) && cs.active_param == (if commas
                <= u32::MAX {
                commas
            } else {
                u32::MAX as int
            }),
        },
        r matches Some(cs) ==> valid_identifier(encode_utf8(cs.name@)),
{
    let bytes = source.as_bytes();
    // Clamp offset to source length.
    let off = if offset <= bytes.len() { offset } else { bytes.len() };
    let mut depth: usize = 0;
    let mut comma_count: u32 = 0;
    let ghost mut commas: int = 0;
    let mut pos = off;
    while pos > 0
        invariant
            pos <= off <= bytes@.len(),
            off == (if offset <= bytes@.len() { offset } else { bytes@.len() as usize }),
            depth <= off - pos,
            bytes@ == source.spec_bytes(),
            call_scan(bytes@, pos as int, depth as int, commas) == call_scan(bytes@, off as int, 0, 0),
            commas >= 0,
            comma_count == (if commas <= u32::MAX { commas } else { u32::MAX as int }),
        decreases pos,
    {
        pos -= 1;
        let b = bytes[pos];
        assert(call_scan(bytes@, pos + 1, depth as int, commas) == (if b == 41 {
            call_scan(bytes@, pos as int, depth + 1, commas)
        } else if b == 40 {
            if depth == 0 {
                Some((pos as int, commas))
            } else {
                call_scan(bytes@, pos as int, depth - 1, commas)
            }
        } else if b == 44 && depth == 0 {
            call_scan(bytes@, pos as int, depth as int, commas + 1)
        } else if (b == 59 || b == 123 || b == 125) && depth == 0 {
            None
        } else {
            call_scan(bytes@, pos as int, depth as int, commas)
        }));
        if b == 41u8 {
            depth += 1;
        } else if b == 40u8 {
            if depth == 0 {
                // Found the opening paren. Extract the callee name.
                return match extract_callee_name(source, pos) {
                    Some(name) => Some(CallSite { name, active_param: comma_count }),
                    None => None,
                };
            }
            depth -= 1;
        } else if b == 44u8 && depth == 0 {
            comma_count = comma_count.saturating_add(1);
            proof {
                commas = commas + 1;
            }
        } else if (b == 59u8 || b == 123u8 || b == 125u8) && depth == 0 {
            // Stop scanning at statement boundaries
            return None;
        }
    }
    None
}

/// Extract the callee name just before the opening `(` at `paren_pos`:
/// skip whitespace, then read a contiguous identifier.
fn extract_callee_name(source: &str, paren_pos: usize) -> (r: Option<String>)
    requires
        paren_pos < source.spec_bytes().len(),
        source.spec_bytes()[paren_pos as int] == 40,
    ensures
        match callee_range(source.spec_bytes(), paren_pos as int) {
            None => r is None,
            Some((start, end)) => r matches Some(name) && encode_utf8(name@)
                == source.spec_bytes().subrange(start, end),
        },
        r matches Some(name) ==> valid_identifier(encode_utf8(name@)),
{
    let bytes = source.as_bytes();
    let mut end = paren_pos;
    // Skip whitespace before `(`
    while end > 0 && (bytes[end - 1] == 32u8 || bytes[end - 1] == 9u8 || bytes[end - 1] == 10u8 || bytes[end - 1] == 12u8
        || bytes[end - 1] == 13u8)
        invariant
            end <= paren_pos,
            bytes@ == source.spec_bytes(),
            paren_pos < bytes@.len(),
            ws_run_start(bytes@, end as int) == ws_run_start(bytes@, paren_pos as int),
            forall|k: int| end <= k < paren_pos ==> is_ascii_ws(#[trigger] bytes@[k]),
        decreases end,
    {
        end -= 1;
    }
    assert(ws_run_start(bytes@, end as int) == end);
    if end == 0 {
        return None;
    }
    // Read identifier characters backward
    let mut start = end;
    while start > 0 && (((65u8 <= bytes[start - 1] && bytes[start - 1] <= 90u8) || (97u8 <= bytes[start - 1]
        && bytes[start - 1] <= 122u8) || (48u8 <= bytes[start - 1] && bytes[start - 1] <= 57u8)) || bytes[start - 1]
        == 95u8)
        invariant
            start <= end <= paren_pos,
            bytes@ == source.spec_bytes(),
            paren_pos < bytes@.len(),
            ident_run_start(bytes@, start as int) == ident_run_start(bytes@, end as int),
            forall|k: int| start <= k < end ==> is_ascii_alnum(#[trigger] bytes@[k]) || bytes@[k] == 95,
        decreases start,
    {
        start -= 1;
    }
    assert(ident_run_start(bytes@, start as int) == start);
    if start == end {
        return None;
    }
    // It must start with a letter or `_`.
    let first = bytes[start];
    if !((65u8 <= first && first <= 90u8) || (97u8 <= first && first <= 122u8)) && first != 95u8 {
        return None;
    }
    proof {
        lemma_ascii_is_boundary(bytes@, start as int);
        lemma_ascii_is_boundary(bytes@, end as int);
    }
    let name = substring(source, start, end);
    proof {
        let piece = bytes@.subrange(start as int, end as int);
        assert(encode_utf8(name@) == piece);
        assert forall|i: int| 1 <= i < piece.len() implies is_ascii_alnum(#[trigger] piece[i]) || piece[i] == 95 by {
            assert(piece[i] == bytes@[start + i]);
        }
    }
    Some(name)
}

/// The parameter names joined by `", "`.
pub open spec fn joined_params(ps: Seq<String>) -> Seq<char>
    decreases ps.len(),
{
    if ps.len() == 0 {
        Seq::empty()
    } else if ps.len() == 1 {
        ps[0]@
    } else {
        joined_params(ps.drop_last()) + seq![',', ' '] + ps.last()@
    }
}

/// The label of a signature: `name(p1, p2, ...)`.
pub open spec fn signature_text(name: Seq<char>, ps: Seq<String>) -> Seq<char> {
    name + seq!['('] + joined_params(ps) + seq![')']
}

/// `name(p1, p2, ...)`: the label of a signature.
fn signature_label(name: &str, param_names: &Vec<String>) -> (label: String)
    ensures
        label@ == signature_text(name@, param_names@),
{
    proof {
        reveal_strlit("(");
        reveal_strlit(")");
        reveal_strlit(", ");
    }
    let mut label = String::from_str(name);
    label.append("(");
    let mut i: usize = 0;
    while i < param_names.len()
        invariant
            i <= param_names@.len(),
            label@ == name@ + seq!['('] + joined_params(param_names@.take(i as int)),
        decreases param_names@.len() - i,
    {
        proof {
            reveal_strlit(", ");
        }
        assert(param_names@.take(i + 1).drop_last() == param_names@.take(i as int));
        if i > 0 {
            label.append(", ");
        }
        label.append(param_names[i].as_str());
        assert(label@ == name@ + seq!['('] + joined_params(param_names@.take(i + 1)));
        i += 1;
    }
    label.append(")");
    assert(param_names@.take(i as int) == param_names@);
    label
}

/// A copy of the parameter names.
fn copy_names(params: &Vec<String>) -> (names: Vec<String>)
    ensures
        names@ == params@,
{
    let mut names: Vec<String> = Vec::new();
    let mut i: usize = 0;
    while i < params.len()
        invariant
            i <= params@.len(),
            names@ == params@.take(i as int),
        decreases params@.len() - i,
    {
        let n = params[i].clone();
        names.push(n);
        assert(params@.take(i + 1) == params@.take(i as int).push(params@[i as int]));
        i += 1;
    }
    assert(params@.take(i as int) == params@);
    names
}

/// Build a signature label and parameter list from a name and param
/// names.
pub fn build_signature(name: &str, param_names: &Vec<String>) -> (r: (String, Vec<String>))
    ensures
        r.0@ == signature_text(name@, param_names@),
        r.1@ == param_names@,
{
    (signature_label(name, param_names), copy_names(param_names))
}

/// One signature shown to the user: its label, its parameter labels,
/// and the parameter that the cursor is on.
#[derive(Debug, Clone, PartialEq)]
pub struct SignatureInfo {
    pub label: String,
    pub parameters: Vec<String>,
    pub active_parameter: u32,
}

/// The signature label and the one parameter label of each built-in.
pub open spec fn builtin_spec(name: Seq<char>) -> Option<(&'static str, &'static str)> {
    if name == "log"@ {
        Some(("log(expr, ...)", "expr, ..."))
    } else if name == "assert"@ {
        Some(("assert(condition)", "condition"))
    } else if name == "NumBits"@ {
        Some(("NumBits(n)", "n"))
    } else {
        None
    }
}

/// The signature label and the one parameter label of a built-in:
/// `log`, `assert` or `NumBits`.
pub fn builtin_signature(name: &str) -> (r: Option<(&'static str, &'static str)>)
    ensures
        r == builtin_spec(name@),
{
    proof {
        reveal_strlit("log");
        reveal_strlit("assert");
        reveal_strlit("NumBits");
        assert("log"@.len() == 3);
        assert("assert"@.len() == 6);
        assert("NumBits"@.len() == 7);
    }
    if crate::text::str_eq(name, "log") {
        Some(("log(expr, ...)", "expr, ..."))
    } else if crate::text::str_eq(name, "assert") {
        Some(("assert(condition)", "condition"))
    } else if crate::text::str_eq(name, "NumBits") {
        Some(("NumBits(n)", "n"))
    } else {
        None
    }
}

/// Signature help for the built-ins `log`, `assert` and `NumBits`,
/// which the symbol table does not hold.
pub fn builtin_signature_help(name: &str, active_param: u32) -> (r: Option<SignatureInfo>)
    ensures
        r is Some <==> (name@ == "log"@ || name@ == "assert"@ || name@ == "NumBits"@),
        r matches Some(h) ==> h.active_parameter == active_param && h.parameters@.len() == 1 && match
            builtin_spec(name@) {
            Some((label, param)) => h.label@ == label@ && h.parameters@[0]@ == param@,
            None => false,
        },
{
    match builtin_signature(name) {
        Some((label, param)) => {
            let mut parameters: Vec<String> = Vec::new();
            parameters.push(String::from_str(param));
            Some(SignatureInfo { label: String::from_str(label), parameters, active_parameter: active_param })
        },
        None => None,
    }
}

/// The parameter names of a template or function symbol.
pub open spec fn callable_params(k: SymbolKind) -> Option<Seq<String>> {
    match k {
        SymbolKind::Template(t) => Some(t.params@),
        SymbolKind::Function(f) => Some(f.params@),
        _ => None,
    }
}

/// The parameter names of the template or function that the call
/// around `offset` names, where the local scope chain of the file's
/// root scope binds the callee's name.
pub open spec fn resolved_params(table: SymbolTable, b: Seq<u8>, offset: int, file_path: Seq<char>) -> Option<
    Seq<String>,
> {
    match call_site_spec(b, offset) {
        None => None,
        Some((start, end, commas)) => match table.file_root(file_path) {
            None => None,
            Some(root) => match chain_lookup(table.scope_seq(), root.0 as int, decode_utf8(b.subrange(start, end))) {
                None => None,
                Some((sid, ids)) => callable_params(table.symbols()[ids[0].0 as int].kind),
            },
        },
    }
}

/// Compute signature help for a cursor at byte `offset` in `source`:
/// the label, the parameter names and the active parameter of the call
/// around the cursor, for a template or function that the symbol table
/// knows from `file_path`. `None` if the cursor is not inside such a
/// call.
pub fn signature_help(source: &str, offset: usize, table: &SymbolTable, file_path: &str) -> (r: Option<
    SignatureInfo,
>)
    requires
        table.wf(),
    ensures
        call_site_spec(source.spec_bytes(), offset as int) is None ==> r is None,
        table.file_root(file_path@) is None ==> r is None,
        r matches Some(h) ==> call_site_spec(source.spec_bytes(), offset as int) matches Some(
            (start, end, commas),
        ) && h.active_parameter == (if commas <= u32::MAX {
            commas
        } else {
            u32::MAX as int
        }) && h.label@ == signature_text(decode_utf8(source.spec_bytes().subrange(start, end)), h.parameters@),
        resolved_params(*table, source.spec_bytes(), offset as int, file_path@) matches Some(ps) ==> r matches Some(h)
            && h.parameters@ == ps,
{
    let call_site = match find_call_site(source, offset) {
        Some(c) => c,
        None => {
            assert(call_site_spec(source.spec_bytes(), offset as int) is None);
            return None;
        },
    };
    let ghost range = call_site_spec(source.spec_bytes(), offset as int)->0;
    proof {
        encode_utf8_decode_utf8(call_site.name@);
        assert(decode_utf8(source.spec_bytes().subrange(range.0, range.1)) == call_site.name@);
    }
    // Look up the symbol to get parameter names.
    let file_scope = match table.file_scope(file_path) {
        Some(s) => s,
        None => {
            return None;
        },
    };
    let symbol = match table.lookup_with_includes(file_scope, call_site.name.as_str(), file_path) {
        Some(s) => s,
        None => {
            return None;
        },
    };
    let params = match &symbol.kind {
        SymbolKind::Template(t) => &t.params,
        SymbolKind::Function(f) => &f.params,
        _ => {
            return None;
        },
    };
    let (label, parameters) = build_signature(call_site.name.as_str(), params);
    Some(SignatureInfo { label, parameters, active_parameter: call_site.active_param })
}

} // verus!
