//! Whole-document formatting for the editor: one edit that replaces the
//! buffer with its formatted version. A buffer with parse errors gets
//! no edit, so that a partly edited source is never clobbered.

use vstd::prelude::*;
use vstd::string::StringSliceAdditionalSpecFns;

use crate::formatter::{format_source, FormatConfig};
use crate::span::{LineCol, LineIndex, line_starts_of, locates};
use crate::text::str_eq;

verus! {

/// The formatting options that the editor sends and the formatter
/// reads: the tab size, and the client-scoped `maxLineLength` property
/// when it is a number.
#[derive(Debug, Clone, Copy, PartialEq, Eq, Structural)]
pub struct FormatOptions {
    pub tab_size: u32,
    pub max_line_length: Option<i32>,
}

/// One replacement of a range of the buffer, given by line and column.
#[derive(Debug, Clone, PartialEq)]
pub struct FormatEdit {
    pub start: LineCol,
    pub end: LineCol,
    pub new_text: String,
}

/// Derive a formatter configuration from the editor's options: a
/// positive tab size sets the indentation width and a positive
/// `maxLineLength` the line limit; the rest keeps the defaults (100
/// columns, four spaces).
pub fn config_from_options(opts: &FormatOptions) -> (cfg: FormatConfig)
    ensures
        cfg.indent_width == (if opts.tab_size > 0 {
            opts.tab_size as usize
        } else {
            4
        }),
        cfg.max_line_length == (match opts.max_line_length {
            Some(n) => if n > 0 {
                n as usize
            } else {
                100
            },
            None => 100,
        }),
{
    let mut cfg = FormatConfig::default();
    let tab = opts.tab_size as usize;
    if tab > 0 {
        cfg.indent_width = tab;
    }
    match opts.max_line_length {
        Some(n) => {
            if n > 0 {
                cfg.max_line_length = n as usize;
            }
        },
        None => {},
    }
    cfg
}

/// Compute a single full-document edit that replaces `source` with its
/// formatted rendering: `None` when the source cannot be parsed, no edit
/// when formatting changes nothing, else one edit from the start of the
/// buffer to its end.
pub fn format_document(source: &str, options: &FormatOptions) -> (r: Option<Vec<FormatEdit>>)
    ensures
        crate::lexer::lex_from(source.spec_bytes(), 0).1.len() > 0 ==> r is None,
        r matches Some(edits) ==> edits@.len() <= 1,
        r matches Some(edits) ==> (edits@.len() == 1 ==> {
            let e = edits@[0];
            &&& e.start == (LineCol { line: 0, col: 0 })
            &&& locates(line_starts_of(source.spec_bytes()), source.spec_bytes().len() as int, e.end)
            &&& e.new_text@ != source@
            &&& e.new_text@.len() > 0 && e.new_text@.last() == '\n'
        }),
        r matches Some(edits) ==> (edits@.len() == 0 ==> source@.len() > 0 && source@.last() == '\n'),
{
    let cfg = config_from_options(options);
    let formatted = match format_source(source, &cfg) {
        Ok(f) => f,
        Err(_) => {
            return None;
        },
    };
    if str_eq(formatted.as_str(), source) {
        return Some(Vec::new());
    }
    let line_index = LineIndex::new(source);
    let len = source.as_bytes().len();
    let end = match line_index.line_col(len) {
        Some(lc) => lc,
        None => LineCol { line: 0, col: 0 },
    };
    let mut edits: Vec<FormatEdit> = Vec::new();
    edits.push(FormatEdit { start: LineCol { line: 0, col: 0 }, end, new_text: formatted });
    Some(edits)
}

} // verus!
