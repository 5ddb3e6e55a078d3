//! What the language server's request handlers decide, apart from the
//! protocol: the word under the cursor, the byte offset of an editor
//! position, the references to a symbol, the diagnostics to publish and
//! the checks made before a rename.

use vstd::prelude::*;
use vstd::string::{StringSliceAdditionalSpecFns, StrSliceExecFns};
use vstd::utf8::*;

use crate::parser::ParseError;
use crate::server::document_symbol::LineRange;
use crate::server::rename::{
    accepted_matches, build_workspace_edit, find_from, is_renameable, is_valid_identifier, next_occurrence,
    lemma_next_occurrence, rename_changes, valid_identifier, would_conflict, RenameEdit, edits_for,
};
use crate::server::signature_help::ident_run_start;
use crate::span::{LineCol, LineIndex, Span, line_starts_of, locates};
use crate::symbol::{DiagnosticKind, Symbol, SymbolDiagnostic};
use crate::symbol_table::SymbolTable;
use crate::ast::File;
use crate::text::{lemma_ascii_is_boundary, lemma_after_ascii, str_eq, substring};

verus! {

broadcast use vstd::utf8::group_utf8_lib;

/// An identifier byte: an ASCII letter, digit or `_`.
pub open spec fn is_word_byte(b: u8) -> bool {
    (65 <= b <= 90) || (97 <= b <= 122) || (48 <= b <= 57) || b == 95
}

/// The end of the run of identifier bytes that starts at `i`.
pub open spec fn word_end(b: Seq<u8>, i: int) -> int
    decreases b.len() - i,
{
    if 0 <= i < b.len() && is_word_byte(b[i]) {
        word_end(b, i + 1)
    } else {
        i
    }
}

/// The byte range of the word at `offset`, if the byte there is an
/// identifier byte.
pub open spec fn word_range(b: Seq<u8>, offset: int) -> Option<(int, int)> {
    if 0 <= offset < b.len() && is_word_byte(b[offset]) {
        Some((ident_run_start(b, offset), word_end(b, offset)))
    } else {
        None
    }
}

/// Extract the word (identifier) at a byte offset: the run of ASCII
/// letters, digits and `_` around it; empty when the byte there is not
/// one of them.
pub fn word_at_offset(source: &str, offset: usize) -> (r: String)
    ensures
        match word_range(source.spec_bytes(), offset as int) {
            None => r@ == Seq::<char>::empty(),
            Some((s, e)) => encode_utf8(r@) == source.spec_bytes().subrange(s, e),
        },
{
    let bytes = source.as_bytes();
    let len = bytes.len();
    if offset >= len {
        return String::new();
    }
    if !is_word(bytes[offset]) {
        return String::new();
    }
    let mut start = offset;
    while start > 0 && is_word(bytes[start - 1])
        invariant
            start <= offset < len,
            len == bytes@.len(),
            ident_run_start(bytes@, start as int) == ident_run_start(bytes@, offset as int),
            forall|k: int| start <= k <= offset ==> is_word_byte(#[trigger] bytes@[k]),
        decreases start,
    {
        start -= 1;
    }
    let mut end = offset;
    while end < len && is_word(bytes[end])
        invariant
            offset <= end <= len,
            len == bytes@.len(),
            word_end(bytes@, end as int) == word_end(bytes@, offset as int),
            forall|k: int| start <= k < end ==> is_word_byte(#[trigger] bytes@[k]),
        decreases len - end,
    {
        end += 1;
    }
    proof {
        encode_utf8_valid_utf8(source@);
        lemma_ascii_is_boundary(bytes@, start as int);
        lemma_after_ascii(bytes@, end - 1);
        assert(ident_run_start(bytes@, start as int) == start);
    }
    substring(source, start, end)
}

fn is_word(b: u8) -> (r: bool)
    ensures
        r == is_word_byte(b),
{
    (65u8 <= b && b <= 90u8) || (97u8 <= b && b <= 122u8) || (48u8 <= b && b <= 57u8) || b == 95u8
}

/// The char index where line `line` starts in `cs` (lines end at
/// `'\n'`), if the text has that many lines.
pub open spec fn nl_line_start(cs: Seq<char>, line: nat) -> Option<int>
    decreases line,
{
    if line == 0 {
        Some(0)
    } else {
        match nl_line_start(cs, (line - 1) as nat) {
            Some(s) => match first_newline(cs, s) {
                Some(n) => Some(n + 1),
                None => None,
            },
            None => None,
        }
    }
}

/// The first `'\n'` of `cs` at or after `from`.
pub open spec fn first_newline(cs: Seq<char>, from: int) -> Option<int>
    decreases cs.len() - from,
{
    if from < 0 || from >= cs.len() {
        None
    } else if cs[from] == '\n' {
        Some(from)
    } else {
        first_newline(cs, from + 1)
    }
}

/// The char index of an editor position: the line's start plus the
/// column, stopped at the line's end; the end of the text past the last
/// line.
pub open spec fn position_char_index(cs: Seq<char>, line: nat, col: nat) -> int {
    match nl_line_start(cs, line) {
        None => cs.len() as int,
        Some(s) => {
            let end = match first_newline(cs, s) {
                Some(n) => n,
                None => cs.len() as int,
            };
            if s + col <= end {
                s + col
            } else {
                end
            }
        },
    }
}

proof fn lemma_first_newline(cs: Seq<char>, from: int)
    requires
        0 <= from,
    ensures
        first_newline(cs, from) matches Some(n) ==> from <= n < cs.len() && cs[n] == '\n',
    decreases cs.len() - from,
{
    if from < cs.len() && cs[from] != '\n' {
        lemma_first_newline(cs, from + 1);
    }
}

proof fn lemma_line_start(cs: Seq<char>, line: nat)
    ensures
        nl_line_start(cs, line) matches Some(s) ==> 0 <= s <= cs.len(),
    decreases line,
{
    if line > 0 {
        lemma_line_start(cs, (line - 1) as nat);
        if let Some(s) = nl_line_start(cs, (line - 1) as nat) {
            lemma_first_newline(cs, s);
        }
    }
}

/// Convert an editor position (line and character, characters counted
/// as Unicode scalars) to a byte offset in `source`; a column past the
/// end of its line stops there, and a line past the end gives the end
/// of the text.
pub fn position_to_byte_offset(source: &str, line: u32, character: u32) -> (r: usize)
    ensures
        r == encode_utf8(source@.take(position_char_index(source@, line as nat, character as nat))).len(),
{
    let n = source.unicode_len();
    // Find the char index where the line starts.
    let mut start: usize = 0;
    let mut current: u32 = 0;
    let mut found = true;
    while current < line && found
        invariant
            n == source@.len(),
            current <= line,
            found ==> nl_line_start(source@, current as nat) == Some(start as int),
            !found ==> nl_line_start(source@, line as nat) is None,
            start <= n,
        decreases (line - current) * 2 + if found {
            1int
        } else {
            0int
        },
    {
        let mut i = start;
        while i < n && source.get_char(i) != '\n'
            invariant
                start <= i <= n,
                n == source@.len(),
                first_newline(source@, i as int) == first_newline(source@, start as int),
            decreases n - i,
        {
            i += 1;
        }
        if i < n {
            proof {
                lemma_line_start_step(source@, current as nat, start as int, i as int);
            }
            start = i + 1;
            current += 1;
        } else {
            proof {
                lemma_line_none(source@, current as nat, line as nat);
            }
            found = false;
        }
    }
    let idx = if !found {
        n
    } else {
        // Advance by the column, stopping at the end of the line.
        let mut i = start;
        let mut col: u32 = 0;
        while col < character && i < n && source.get_char(i) != '\n'
            invariant
                start <= i <= n,
                n == source@.len(),
                i == start + col,
                col <= character,
                first_newline(source@, i as int) == first_newline(source@, start as int),
                forall|k: int| start <= k < i ==> source@[k] != '\n',
            decreases character - col,
        {
            i += 1;
            col += 1;
        }
        proof {
            lemma_first_newline(source@, start as int);
        }
        i
    };
    proof {
        lemma_line_start(source@, line as nat);
    }
    let prefix = source.substring_char(0, idx);
    proof {
        assert(prefix@ == source@.take(idx as int));
    }
    prefix.as_bytes().len()
}

proof fn lemma_line_start_step(cs: Seq<char>, line: nat, s: int, i: int)
    requires
        nl_line_start(cs, line) == Some(s),
        0 <= s <= i < cs.len(),
        cs[i] == '\n',
        first_newline(cs, i) == first_newline(cs, s),
    ensures
        nl_line_start(cs, line + 1) == Some(i + 1),
{
}

proof fn lemma_line_none(cs: Seq<char>, current: nat, line: nat)
    requires
        current < line,
        nl_line_start(cs, current) matches Some(s) && first_newline(cs, s) is None,
    ensures
        nl_line_start(cs, line) is None,
    decreases line - current,
{
    if line == current + 1 {
    } else {
        lemma_line_none(cs, current, (line - 1) as nat);
    }
}

/// A place in a document: its URI, the byte offset, and its range.
#[derive(Debug, Clone, PartialEq)]
pub struct Location {
    pub uri: String,
    pub offset: usize,
    pub range: LineRange,
}

/// The offsets of `offs`, less `def`.
pub open spec fn drop_def(offs: Seq<int>, def: Option<int>) -> Seq<int>
    decreases offs.len(),
{
    if offs.len() == 0 {
        Seq::empty()
    } else if def == Some(offs.last()) {
        drop_def(offs.drop_last(), def)
    } else {
        drop_def(offs.drop_last(), def).push(offs.last())
    }
}

/// The references to `name` in one document: the whole-word
/// occurrences (strings and comments included), less the definition
/// itself unless declarations are wanted.
pub open spec fn doc_refs(uri: Seq<char>, b: Seq<u8>, name: Seq<u8>, def_file: Seq<char>, def_offset: int, include_decl: bool) -> Seq<int> {
    let all = accepted_matches(b, name, 0, Seq::empty());
    if include_decl || uri != def_file {
        all
    } else {
        drop_def(all, Some(def_offset))
    }
}

/// `locs` are the references `offs` of `name` in the document `uri`
/// whose bytes are `b`.
pub open spec fn locs_are(locs: Seq<Location>, uri: Seq<char>, b: Seq<u8>, offs: Seq<int>, len: int) -> bool {
    &&& locs.len() == offs.len()
    &&& forall|k: int|
        0 <= k < locs.len() ==> {
            &&& (#[trigger] locs[k]).uri@ == uri
            &&& locs[k].offset == offs[k]
            &&& locates(line_starts_of(b), offs[k], locs[k].range.start)
            &&& locates(line_starts_of(b), offs[k] + len, locs[k].range.end)
        }
}

/// The references found in the documents `docs` after the current one,
/// those whose URI is not the current one, in order.
pub open spec fn other_refs(
    docs: Seq<(String, String)>,
    current: Seq<char>,
    name: Seq<u8>,
    def_file: Seq<char>,
    def_offset: int,
    include_decl: bool,
) -> Seq<(Seq<char>, Seq<u8>, Seq<int>)>
    decreases docs.len(),
{
    if docs.len() == 0 {
        Seq::empty()
    } else {
        let prev = other_refs(docs.drop_last(), current, name, def_file, def_offset, include_decl);
        let d = docs.last();
        if d.0@ == current {
            prev
        } else {
            let b = encode_utf8(d.1@);
            prev.push((d.0@, b, doc_refs(d.0@, b, name, def_file, def_offset, include_decl)))
        }
    }
}

/// `locs` are the references of the groups `gs`, group after group.
pub open spec fn locs_of_groups(locs: Seq<Location>, gs: Seq<(Seq<char>, Seq<u8>, Seq<int>)>, len: int) -> bool
    decreases gs.len(),
{
    if gs.len() == 0 {
        locs.len() == 0
    } else {
        let g = gs.last();
        locs.len() >= g.2.len() && locs_of_groups(locs.take(locs.len() - g.2.len()), gs.drop_last(), len)
            && locs_are(locs.skip(locs.len() - g.2.len()), g.0, g.1, g.2, len)
    }
}

/// Append the references to `name` in one document.
fn scan_doc(
    uri: &str,
    text: &str,
    name: &str,
    def_file: &str,
    def_offset: usize,
    include_declaration: bool,
    out: &mut Vec<Location>,
)
    requires
        name@.len() > 0,
    ensures
        final(out)@.len() >= old(out)@.len(),
        final(out)@.take(old(out)@.len() as int) == old(out)@,
        locs_are(
            final(out)@.skip(old(out)@.len() as int),
            uri@,
            text.spec_bytes(),
            doc_refs(uri@, text.spec_bytes(), name.spec_bytes(), def_file@, def_offset as int, include_declaration),
            name.spec_bytes().len() as int,
        ),
{
    let line_index = LineIndex::new(text);
    let bytes = text.as_bytes();
    let name_bytes = name.as_bytes();
    let name_len = name_bytes.len();
    let len = bytes.len();
    let ghost b = bytes@;
    let ghost n = name_bytes@;
    let ghost none: Seq<(int, int)> = Seq::empty();
    let ghost base = old(out)@.len() as int;
    let is_def_doc = crate::text::str_eq(uri, def_file);
    proof {
        assert(n.len() > 0) by {
            if n.len() == 0 {
                encode_utf8_decode_utf8(name@);
            }
        }
    }
    // The accepted matches, then the definition dropped.
    let ghost all = accepted_matches(b, n, 0, none);
    let ghost def: Option<int> = if include_declaration || !is_def_doc {
        None
    } else {
        Some(def_offset as int)
    };
    let mut pos: usize = 0;
    let ghost mut seen: int = 0;
    while name_len <= len - pos
        invariant
            b == bytes@,
            b == text.spec_bytes(),
            n == name_bytes@,
            n == name.spec_bytes(),
            name_len == n.len(),
            name_len > 0,
            len == b.len(),
            pos <= len,
            line_index.wf(),
            line_index.starts() == line_starts_of(b),
            all == accepted_matches(b, n, 0, none),
            none == Seq::<(int, int)>::empty(),
            base == old(out)@.len(),
            is_def_doc == (uri@ == def_file@),
            def == (if include_declaration || !is_def_doc {
                None
            } else {
                Some(def_offset as int)
            }),
            0 <= seen <= all.len(),
            seen + accepted_matches(b, n, pos as int, none).len() == all.len(),
            forall|k: int|
                0 <= k < accepted_matches(b, n, pos as int, none).len() ==> accepted_matches(b, n, pos as int, none)[k]
                    == #[trigger] all[seen + k],
            out@.len() >= base,
            out@.take(base) == old(out)@,
            locs_are(out@.skip(base), uri@, b, drop_def(all.take(seen), def), n.len() as int),
        decreases len - pos,
    {
        proof {
            lemma_next_occurrence(b, n, pos as int);
        }
        let ghost rest = accepted_matches(b, n, pos as int, none);
        match find_from(bytes, name_bytes, pos) {
            Some(abs) => {
                let ghost tail = accepted_matches(b, n, abs + n.len(), none);
                proof {
                    assert(rest == (if crate::server::rename::accepted_match(b, n, abs as int, none) {
                        seq![abs as int] + tail
                    } else {
                        tail
                    }));
                }
                let before_ok = abs == 0 || !is_word(bytes[abs - 1]);
                let after_ok = abs + name_len >= len || !is_word(bytes[abs + name_len]);
                if before_ok && after_ok {
                    proof {
                        assert(!crate::server::rename::in_ranges(none, abs as int));
                        assert(crate::server::rename::accepted_match(b, n, abs as int, none));
                        assert(rest.len() > 0);
                        assert(rest[0] == all[seen + 0]);
                        assert(all.take(seen + 1) == all.take(seen).push(abs as int));
                        assert(all.take(seen + 1).drop_last() == all.take(seen));
                        assert(all.take(seen + 1).last() == abs as int);
                    }
                    let is_definition = is_def_doc && def_offset == abs;
                    if include_declaration || !is_definition {
                        let start_lc = line_index.line_col(abs);
                        let end_lc = line_index.line_col(abs + name_len);
                        match (start_lc, end_lc) {
                            (Some(start), Some(end)) => {
                                let ghost before = out@;
                                out.push(Location { uri: String::from_str(uri), offset: abs, range: LineRange { start, end } });
                                proof {
                                    assert(out@.take(base) == before.take(base));
                                    assert(out@.skip(base) == before.skip(base).push(out@.last()));
                                    assert(drop_def(all.take(seen + 1), def) == drop_def(all.take(seen), def).push(abs as int));
                                }
                            },
                            _ => {},
                        }
                    } else {
                        proof {
                            assert(drop_def(all.take(seen + 1), def) == drop_def(all.take(seen), def));
                        }
                    }
                    proof {
                        seen = seen + 1;
                    }
                }
                pos = abs + name_len;
                proof {
                    assert forall|k: int| 0 <= k < tail.len() implies tail[k] == #[trigger] all[seen + k] by {
                        if crate::server::rename::accepted_match(b, n, abs as int, none) {
                            assert(tail[k] == rest[k + 1]);
                            assert(rest[k + 1] == all[(seen - 1) + (k + 1)]);
                        } else {
                            assert(tail[k] == rest[k]);
                        }
                    }
                }
            },
            None => {
                assert(rest.len() == 0);
                pos = len;
            },
        }
    }
    proof {
        assert(accepted_matches(b, n, pos as int, none).len() == 0);
        assert(all.take(seen) == all);
        lemma_drop_def_none(all);
    }
}

proof fn lemma_drop_def_none(offs: Seq<int>)
    ensures
        drop_def(offs, None) == offs,
    decreases offs.len(),
{
    if offs.len() > 0 {
        lemma_drop_def_none(offs.drop_last());
    }
}

/// Find the references to `target_name` across the open documents: in
/// the current document first, then in each other document (those whose
/// URI is not the current one), in order. The definition itself (at
/// `def_offset` in `def_file`) is left out unless declarations are
/// wanted.
pub fn find_references(
    current_uri: &str,
    current_text: &str,
    docs: &Vec<(String, String)>,
    target_name: &str,
    def_file: &str,
    def_offset: usize,
    include_declaration: bool,
) -> (r: Vec<Location>)
    requires
        target_name@.len() > 0,
    ensures
        locs_of_groups(
            r@,
            seq![
                (
                    current_uri@,
                    current_text.spec_bytes(),
                    doc_refs(
                        current_uri@,
                        current_text.spec_bytes(),
                        target_name.spec_bytes(),
                        def_file@,
                        def_offset as int,
                        include_declaration,
                    ),
                ),
            ] + other_refs(docs@, current_uri@, target_name.spec_bytes(), def_file@, def_offset as int, include_declaration),
            target_name.spec_bytes().len() as int,
        ),
{
    let mut locations: Vec<Location> = Vec::new();
    scan_doc(current_uri, current_text, target_name, def_file, def_offset, include_declaration, &mut locations);
    let ghost n = target_name.spec_bytes();
    let ghost g0 = (
        current_uri@,
        current_text.spec_bytes(),
        doc_refs(current_uri@, current_text.spec_bytes(), n, def_file@, def_offset as int, include_declaration),
    );
    proof {
        assert(locations@.skip(0) == locations@);
        assert(locations@.take(0) == Seq::<Location>::empty());
        assert(seq![g0].drop_last() == Seq::<(Seq<char>, Seq<u8>, Seq<int>)>::empty());
        assert(seq![g0].last() == g0);
        assert(locations@.len() == g0.2.len());
        assert(locations@.take(locations@.len() - g0.2.len()) == Seq::<Location>::empty());
        assert(locs_of_groups(Seq::<Location>::empty(), Seq::empty(), n.len() as int));
        assert(locs_of_groups(locations@, seq![g0], n.len() as int));
        assert(seq![g0] + other_refs(docs@.take(0), current_uri@, n, def_file@, def_offset as int, include_declaration)
            == seq![g0]);
    }
    let mut i: usize = 0;
    while i < docs.len()
        invariant
            i <= docs@.len(),
            target_name@.len() > 0,
            n == target_name.spec_bytes(),
            locs_of_groups(
                locations@,
                seq![g0] + other_refs(docs@.take(i as int), current_uri@, n, def_file@, def_offset as int, include_declaration),
                n.len() as int,
            ),
        decreases docs@.len() - i,
    {
        let (uri, text) = &docs[i];
        let ghost prev = other_refs(docs@.take(i as int), current_uri@, n, def_file@, def_offset as int, include_declaration);
        proof {
            assert(docs@.take(i + 1).drop_last() == docs@.take(i as int));
            assert(docs@.take(i + 1).last() == docs@[i as int]);
        }
        if !crate::scope::string_eq(uri, current_uri) {
            let ghost before = locations@;
            scan_doc(uri.as_str(), text.as_str(), target_name, def_file, def_offset, include_declaration, &mut locations);
            proof {
                let g = (uri@, encode_utf8(text@), doc_refs(uri@, encode_utf8(text@), n, def_file@, def_offset as int, include_declaration));
                assert(other_refs(docs@.take(i + 1), current_uri@, n, def_file@, def_offset as int, include_declaration) == prev.push(g));
                assert((seq![g0] + prev.push(g)).drop_last() == seq![g0] + prev);
                assert((seq![g0] + prev.push(g)).last() == g);
            }
        }
        i += 1;
    }
    assert(docs@.take(i as int) == docs@);
    locations
}

/// A diagnostic ready to publish: its range, whether it is a warning
/// (else an error), and its message.
#[derive(Debug, Clone, PartialEq)]
pub struct PublishedDiagnostic {
    pub range: LineRange,
    pub is_warning: bool,
    pub message: String,
}

/// The kinds of semantic diagnostic shown as warnings.
pub open spec fn is_warning_kind(k: DiagnosticKind) -> bool {
    k == DiagnosticKind::UnsafeSignalAssignment || k == DiagnosticKind::TagLoss
        || k == DiagnosticKind::UnusedComponentOutput || k == DiagnosticKind::MissingComponentInput
        || k == DiagnosticKind::UnderconstrainedOutput
}

fn warning_kind(k: DiagnosticKind) -> (r: bool)
    ensures
        r == is_warning_kind(k),
{
    match k {
        DiagnosticKind::UnsafeSignalAssignment | DiagnosticKind::TagLoss | DiagnosticKind::UnusedComponentOutput
        | DiagnosticKind::MissingComponentInput | DiagnosticKind::UnderconstrainedOutput => true,
        _ => false,
    }
}

/// The semantic diagnostics of `diags` that belong to `file`.
pub open spec fn diags_of_file(diags: Seq<SymbolDiagnostic>, file: Seq<char>) -> Seq<SymbolDiagnostic>
    decreases diags.len(),
{
    if diags.len() == 0 {
        Seq::empty()
    } else {
        let prev = diags_of_file(diags.drop_last(), file);
        if diags.last().file@ == file {
            prev.push(diags.last())
        } else {
            prev
        }
    }
}

/// `p` shows a diagnostic at `span` with `message`, as a warning or
/// not, in a text whose lines start at `starts`.
pub open spec fn published_is(p: PublishedDiagnostic, span: Span, warning: bool, message: Seq<char>, starts: Seq<usize>) -> bool {
    &&& locates(starts, span.start as int, p.range.start)
    &&& locates(starts, span.end as int, p.range.end)
    &&& p.is_warning == warning
    &&& p.message@ == message
}

/// The diagnostics to publish for a document: its parse errors, as
/// errors; or, where it parses, the semantic diagnostics of `file_path`,
/// warnings for the kinds that warn and errors for the others.
pub fn diagnostics_for(
    text: &str,
    parse_errors: &Vec<ParseError>,
    semantic: &[SymbolDiagnostic],
    file_path: &str,
) -> (r: Vec<PublishedDiagnostic>)
    ensures
        parse_errors@.len() > 0 ==> r@.len() == parse_errors@.len() && forall|k: int|
            0 <= k < r@.len() ==> published_is(
                #[trigger] r@[k],
                parse_errors@[k].span,
                false,
                parse_errors@[k].message@,
                line_starts_of(text.spec_bytes()),
            ),
        parse_errors@.len() == 0 ==> r@.len() == diags_of_file(semantic@, file_path@).len() && forall|k: int|
            0 <= k < r@.len() ==> {
                let d = diags_of_file(semantic@, file_path@)[k];
                published_is(#[trigger] r@[k], d.span, is_warning_kind(d.kind), d.message@, line_starts_of(text.spec_bytes()))
            },
{
    let line_index = LineIndex::new(text);
    let ghost starts = line_starts_of(text.spec_bytes());
    let mut out: Vec<PublishedDiagnostic> = Vec::new();
    if parse_errors.len() > 0 {
        let mut i: usize = 0;
        while i < parse_errors.len()
            invariant
                i <= parse_errors@.len(),
                line_index.wf(),
                line_index.starts() == starts,
                out@.len() == i,
                forall|k: int|
                    0 <= k < i ==> published_is(
                        #[trigger] out@[k],
                        parse_errors@[k].span,
                        false,
                        parse_errors@[k].message@,
                        starts,
                    ),
            decreases parse_errors@.len() - i,
        {
            let e = &parse_errors[i];
            match (line_index.line_col(e.span.start), line_index.line_col(e.span.end)) {
                (Some(start), Some(end)) => {
                    out.push(
                        PublishedDiagnostic {
                            range: LineRange { start, end },
                            is_warning: false,
                            message: e.message.clone(),
                        },
                    );
                },
                _ => {},
            }
            i += 1;
        }
        return out;
    }
    // Semantic diagnostics only when the document parses.
    let mut i: usize = 0;
    while i < semantic.len()
        invariant
            i <= semantic@.len(),
            line_index.wf(),
            line_index.starts() == starts,
            out@.len() == diags_of_file(semantic@.take(i as int), file_path@).len(),
            forall|k: int|
                0 <= k < out@.len() ==> {
                    let d = diags_of_file(semantic@.take(i as int), file_path@)[k];
                    published_is(#[trigger] out@[k], d.span, is_warning_kind(d.kind), d.message@, starts)
                },
        decreases semantic@.len() - i,
    {
        let d = &semantic[i];
        proof {
            assert(semantic@.take(i + 1).drop_last() == semantic@.take(i as int));
            assert(semantic@.take(i + 1).last() == semantic@[i as int]);
        }
        if crate::scope::string_eq(&d.file, file_path) {
            match (line_index.line_col(d.span.start), line_index.line_col(d.span.end)) {
                (Some(start), Some(end)) => {
                    out.push(
                        PublishedDiagnostic {
                            range: LineRange { start, end },
                            is_warning: warning_kind(d.kind),
                            message: d.message.clone(),
                        },
                    );
                },
                _ => {},
            }
        }
        i += 1;
    }
    assert(semantic@.take(i as int) == semantic@);
    out
}

/// The line/column range of a byte span in `text`.
pub fn span_range(text: &str, span: Span) -> (r: LineRange)
    ensures
        locates(line_starts_of(text.spec_bytes()), span.start as int, r.start),
        locates(line_starts_of(text.spec_bytes()), span.end as int, r.end),
{
    let line_index = LineIndex::new(text);
    let start = match line_index.line_col(span.start) {
        Some(lc) => lc,
        None => LineCol { line: 0, col: 0 },
    };
    let end = match line_index.line_col(span.end) {
        Some(lc) => lc,
        None => start,
    };
    LineRange { start, end }
}

/// The message that refuses a new name that is not a Circom
/// identifier, if it is not one.
pub fn invalid_name_message(new_name: &str) -> (r: Option<String>)
    ensures
        r is None <==> valid_identifier(new_name.spec_bytes()),
        r matches Some(m) ==> m@ == "'"@ + new_name@ + "' is not a valid Circom identifier"@,
{
    if is_valid_identifier(new_name) {
        None
    } else {
        let mut m = String::from_str("'");
        m.append(new_name);
        m.append("' is not a valid Circom identifier");
        Some(m)
    }
}

/// The outcome of renaming `target` to `new_name` across `docs`: the
/// edits, or the message that refuses it when a symbol of that name
/// already lives in the target's scope.
pub fn rename_result(table: &SymbolTable, target: &Symbol, new_name: &str, docs: &Vec<(String, String)>) -> (r: Result<
    Vec<(String, Vec<RenameEdit>)>,
    String,
>)
    requires
        table.wf(),
        target.scope.0 < table.scope_seq().len(),
        target.name@.len() > 0,
    ensures
        r is Err <==> (table.bound_in(target.scope.0 as int, new_name@) matches Some(ids) && exists|k: int|
            0 <= k < ids.len() && !({
                let s = table.symbols()[(#[trigger] ids[k]).0 as int];
                s.file@ == target.file@ && s.span.start == target.span.start
            })),
        r matches Err(m) ==> m@ == "cannot rename: '"@ + new_name@ + "' already exists in this scope"@,
        r matches Ok(changes) ==> changes@.len() == rename_changes(docs@, encode_utf8(target.name@)).len()
            && forall|k: int|
            0 <= k < changes@.len() ==> {
                let c = rename_changes(docs@, encode_utf8(target.name@))[k];
                &&& (#[trigger] changes@[k]).0@ == c.0
                &&& edits_for(changes@[k].1@, c.2, encode_utf8(target.name@).len() as int, line_starts_of(c.1), new_name@)
            },
{
    let _ = is_renameable(&target.kind);
    if would_conflict(table, target.scope, new_name, target.file.as_str(), target.span.start) {
        let mut m = String::from_str("cannot rename: '");
        m.append(new_name);
        m.append("' already exists in this scope");
        return Err(m);
    }
    Ok(build_workspace_edit(target.name.as_str(), new_name, target.file.as_str(), target.span.start, docs))
}

/// A symbol table of the document at `file_path`, whose syntax tree is
/// `ast`, and of every other open document of `docs` (each a path and its
/// text): the document first, then the others in the order given.
pub fn table_for(file_path: &str, ast: &File, docs: &Vec<(String, String)>) -> (t: SymbolTable)
    ensures
        t.wf(),
{
    let mut table = SymbolTable::new();
    table.index_file(file_path, ast);
    let mut k: usize = 0;
    while k < docs.len()
        invariant
            k <= docs@.len(),
            table.wf(),
        decreases docs@.len() - k,
    {
        if !str_eq(docs[k].0.as_str(), file_path) {
            let (doc_ast, _) = crate::parser::parse(docs[k].1.as_str());
            table.index_file(docs[k].0.as_str(), &doc_ast);
        }
        k += 1;
    }
    table
}

} // verus!
