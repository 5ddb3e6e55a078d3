//! Incremental parser for Circom source files.
//!
//! Caches top-level items from a previous parse and re-parses only the
//! affected region when the source text changes.  Unaffected items are
//! kept from the cache with their byte-spans shifted by the edit delta.

use vstd::prelude::*;
use vstd::string::StringSliceAdditionalSpecFns;

use crate::ast::{
    item_alike, item_span, spec_item_span, AnonCompInput, Block, BusMember, BusType, Expression, ExpressionKind, File,
    Identifier, Item, LogArg, Statement, StatementKind,
};
use crate::parser::{parse, ParseError};
use crate::span::Span;
use crate::text::{at_boundary, substring};

verus! {

// ── Edit description ───────────────────────────────────────────────

/// Describes a contiguous text edit in byte offsets.
#[derive(Debug, Clone, Copy)]
pub struct TextEdit {
    /// Byte offset where the edit starts (in the *old* source).
    pub start: usize,
    /// Number of bytes removed from the old text.
    pub removed: usize,
    /// Number of bytes inserted at `start` in the new text.
    pub inserted: usize,
}

/// Moving an offset: `add` bytes added, `sub` bytes taken.
#[derive(Clone, Copy)]
pub struct Shift {
    /// Bytes added before the offset.
    pub add: usize,
    /// Bytes taken before the offset.
    pub sub: usize,
}

/// `x + add - sub`, kept within `0..=usize::MAX`.
pub open spec fn shifted(x: usize, add: usize, sub: usize) -> usize {
    let v = x + add - sub;
    if v < 0 {
        0
    } else if v > usize::MAX {
        usize::MAX
    } else {
        v as usize
    }
}

impl Shift {
    fn apply(self, x: usize) -> (r: usize)
        ensures
            r == shifted(x, self.add, self.sub),
    {
        let v: u128 = x as u128 + self.add as u128;
        if v < self.sub as u128 {
            0
        } else {
            let w = v - self.sub as u128;
            if w > usize::MAX as u128 {
                usize::MAX
            } else {
                w as usize
            }
        }
    }
}

impl TextEdit {
    /// The shift that the edit applies to offsets after it.
    fn shift(&self) -> (s: Shift)
        ensures
            s.add == self.inserted,
            s.sub == self.removed,
    {
        Shift { add: self.inserted, sub: self.removed }
    }
}

// ── The re-parse window ────────────────────────────────────────────

/// `a + b`, kept at `usize::MAX`.
pub open spec fn sat_add(a: usize, b: usize) -> int {
    if a + b > usize::MAX {
        usize::MAX as int
    } else {
        a + b
    }
}

/// The byte range `r` overlaps the edited range `lo..hi`.
pub open spec fn hits(r: (usize, usize), lo: int, hi: int) -> bool {
    r.1 > lo && r.0 < hi
}

/// The first range that overlaps `lo..hi` (`rs.len()` when none does).
pub open spec fn first_hit(rs: Seq<(usize, usize)>, lo: int, hi: int) -> int
    decreases rs.len(),
{
    if rs.len() == 0 {
        0
    } else {
        let p = first_hit(rs.drop_last(), lo, hi);
        if p < rs.len() - 1 {
            p
        } else if hits(rs.last(), lo, hi) {
            rs.len() - 1
        } else {
            rs.len() as int
        }
    }
}

/// The last range that overlaps `lo..hi` (-1 when none does).
pub open spec fn last_hit(rs: Seq<(usize, usize)>, lo: int, hi: int) -> int
    decreases rs.len(),
{
    if rs.len() == 0 {
        -1
    } else if hits(rs.last(), lo, hi) {
        rs.len() - 1
    } else {
        last_hit(rs.drop_last(), lo, hi)
    }
}

/// The first range that starts at `at` or later (`rs.len()` when none
/// does).
pub open spec fn insert_point(rs: Seq<(usize, usize)>, at: int) -> int
    decreases rs.len(),
{
    if rs.len() == 0 {
        0
    } else {
        let p = insert_point(rs.drop_last(), at);
        if p < rs.len() - 1 {
            p
        } else if rs.last().0 >= at {
            rs.len() - 1
        } else {
            rs.len() as int
        }
    }
}

/// What an edit re-parses, for cached ranges `rs` and a new source of
/// `src_len` bytes: the window's start and end in the new source, and the
/// cached items it replaces (from, to). The window runs from the start of
/// the first item the edit touches to the moved end of the last one, and
/// covers the inserted text; when the edit touches no item, it is the
/// inserted text, and new items go before the first item after the edit.
pub open spec fn window(rs: Seq<(usize, usize)>, edit: TextEdit, src_len: int) -> (int, int, int, int) {
    let lo = edit.start as int;
    let hi = sat_add(edit.start, edit.removed);
    let ins_end = sat_add(edit.start, edit.inserted);
    let f = first_hit(rs, lo, hi);
    if f < rs.len() {
        let l = last_hit(rs, lo, hi);
        let start = rs[f].0 as int;
        let raw = shifted(rs[l].1, edit.inserted, edit.removed) as int;
        let end1 = if raw >= ins_end {
            raw
        } else {
            ins_end
        };
        let end2 = if end1 <= src_len {
            end1
        } else {
            src_len
        };
        let end = if end2 >= start {
            end2
        } else {
            start
        };
        (start, end, f, l + 1)
    } else {
        let end = if ins_end <= src_len {
            ins_end
        } else {
            src_len
        };
        let ip = insert_point(rs, lo);
        (lo, end, ip, ip)
    }
}

/// The window starts and ends on character boundaries of `b`.
pub open spec fn window_fits(b: Seq<u8>, w: (int, int, int, int)) -> bool {
    w.0 <= w.1 && at_boundary(b, w.0) && at_boundary(b, w.1)
}

proof fn lemma_first_hit(rs: Seq<(usize, usize)>, lo: int, hi: int)
    ensures
        0 <= first_hit(rs, lo, hi) <= rs.len(),
        first_hit(rs, lo, hi) < rs.len() ==> hits(rs[first_hit(rs, lo, hi)], lo, hi),
        forall|k: int| 0 <= k < first_hit(rs, lo, hi) ==> !hits(#[trigger] rs[k], lo, hi),
    decreases rs.len(),
{
    if rs.len() > 0 {
        let d = rs.drop_last();
        lemma_first_hit(d, lo, hi);
        assert forall|k: int| 0 <= k < d.len() implies #[trigger] rs[k] == d[k] by {}
    }
}

proof fn lemma_last_hit(rs: Seq<(usize, usize)>, lo: int, hi: int)
    ensures
        -1 <= last_hit(rs, lo, hi) < rs.len(),
        last_hit(rs, lo, hi) >= 0 ==> hits(rs[last_hit(rs, lo, hi)], lo, hi),
        forall|k: int| last_hit(rs, lo, hi) < k < rs.len() ==> !hits(#[trigger] rs[k], lo, hi),
        first_hit(rs, lo, hi) < rs.len() ==> first_hit(rs, lo, hi) <= last_hit(rs, lo, hi),
        first_hit(rs, lo, hi) == rs.len() ==> last_hit(rs, lo, hi) == -1,
    decreases rs.len(),
{
    lemma_first_hit(rs, lo, hi);
    if rs.len() > 0 {
        let d = rs.drop_last();
        lemma_last_hit(d, lo, hi);
        lemma_first_hit(d, lo, hi);
        assert forall|k: int| 0 <= k < d.len() implies #[trigger] rs[k] == d[k] by {}
    }
}

proof fn lemma_insert_point(rs: Seq<(usize, usize)>, at: int)
    ensures
        0 <= insert_point(rs, at) <= rs.len(),
        insert_point(rs, at) < rs.len() ==> rs[insert_point(rs, at)].0 >= at,
        forall|k: int| 0 <= k < insert_point(rs, at) ==> (#[trigger] rs[k]).0 < at,
    decreases rs.len(),
{
    if rs.len() > 0 {
        let d = rs.drop_last();
        lemma_insert_point(d, at);
        assert forall|k: int| 0 <= k < d.len() implies #[trigger] rs[k] == d[k] by {}
    }
}

// ── Cached item ────────────────────────────────────────────────────

/// A top-level item together with its byte range in the source.
struct CachedItem {
    item: Item,
    /// Inclusive start byte offset.
    start: usize,
    /// Exclusive end byte offset.
    end: usize,
    /// Parse errors originating from this item's region.
    errors: Vec<ParseError>,
}

// ── IncrementalParser ──────────────────────────────────────────────

/// An incremental parser that caches top-level items and re-parses
/// only the region affected by an edit.
pub struct IncrementalParser {
    entries: Vec<CachedItem>,
}

impl IncrementalParser {
    /// The number of cached top-level items.
    pub closed spec fn len(self) -> nat {
        self.entries@.len()
    }

    /// The cached top-level items, in source order.
    pub closed spec fn items(self) -> Seq<Item> {
        self.entries@.map_values(|e: CachedItem| e.item)
    }

    /// The parse errors filed under each cached item.
    pub closed spec fn entry_errors(self) -> Seq<Seq<ParseError>> {
        self.entries@.map_values(|e: CachedItem| e.errors@)
    }

    /// The cached byte range of each item.
    pub closed spec fn ranges(self) -> Seq<(usize, usize)> {
        self.entries@.map_values(|e: CachedItem| (e.start, e.end))
    }

    /// Perform an initial full parse.
    ///
    /// A source with no token caches no item.
    pub fn parse(source: &str) -> (p: IncrementalParser)
        ensures
            p.ranges_match(),
            crate::lexer::lex_from(source.spec_bytes(), 0).0.len() == 0 ==> p.len() == 0,
    {
        let (file, errors) = parse(source);
        IncrementalParser::from_parse(file, errors)
    }

    /// Cache the items and errors of a full parse: each item under its
    /// own span, each error filed under the item that holds it (else the
    /// first item after it, else the last item).
    pub fn from_parse(file: File, errors: Vec<ParseError>) -> (p: IncrementalParser)
        ensures
            p.ranges_match(),
            p.items() == file.items@,
            p.ranges() == item_ranges(file.items@),
            p.entry_errors() == file_errors(no_errors(file.items@.len()), item_ranges(file.items@), errors@, 0),
    {
        let ghost all = file.items@;
        let ghost n = all.len() as int;
        let mut items = file.items;
        let mut rev: Vec<CachedItem> = Vec::new();
        assert(items@ =~= all.subrange(0, items@.len() as int));
        while items.len() > 0
            invariant
                n == all.len(),
                items@ == all.subrange(0, items@.len() as int),
                items@.len() + rev@.len() == n,
                forall|t: int|
                    0 <= t < rev@.len() ==> {
                        &&& entry_ok(#[trigger] rev@[t])
                        &&& rev@[t].item == all[n - 1 - t]
                        &&& rev@[t].errors@.len() == 0
                    },
            decreases items@.len(),
        {
            let item = items.pop().unwrap();
            assert(items@ =~= all.subrange(0, items@.len() as int));
            let span = item_span(&item);
            rev.push(CachedItem { item, start: span.start, end: span.end, errors: Vec::new() });
        }
        let mut entries: Vec<CachedItem> = Vec::new();
        while rev.len() > 0
            invariant
                n == all.len(),
                entries@.len() + rev@.len() == n,
                forall|t: int|
                    0 <= t < rev@.len() ==> {
                        &&& entry_ok(#[trigger] rev@[t])
                        &&& rev@[t].item == all[n - 1 - t]
                        &&& rev@[t].errors@.len() == 0
                    },
                forall|t: int|
                    0 <= t < entries@.len() ==> {
                        &&& entry_ok(#[trigger] entries@[t])
                        &&& entries@[t].item == all[t]
                        &&& entries@[t].errors@.len() == 0
                    },
            decreases rev@.len(),
        {
            entries.push(rev.pop().unwrap());
        }
        let mut parser = IncrementalParser { entries };
        proof {
            assert(parser.items() =~= all);
            assert(parser.entry_errors() =~= no_errors(all.len())) by {
                assert forall|t: int| 0 <= t < all.len() implies parser.entry_errors()[t] =~= Seq::<ParseError>::empty() by {
                    assert(parser.entries@[t].errors@.len() == 0);
                }
            }
            assert(parser.ranges() =~= item_ranges(all)) by {
                assert forall|t: int| 0 <= t < all.len() implies parser.ranges()[t] == item_ranges(all)[t] by {
                    assert(entry_ok(parser.entries@[t]));
                }
            }
        }
        parser.distribute_errors(errors);
        parser
    }

    /// Each cached range is the span of its item.
    pub closed spec fn ranges_match(self) -> bool {
        forall|k: int| 0 <= k < self.entries@.len() ==> #[trigger] entry_ok(self.entries@[k])
    }

    /// Apply an incremental text edit and re-parse only the affected
    /// region.  Returns the updated AST and parse errors.
    ///
    /// When the re-parse window does not fall on character boundaries of
    /// `new_source`, the whole source is parsed again.
    pub fn update(&mut self, new_source: &str, edit: &TextEdit) -> (r: (File, Vec<ParseError>))
        ensures
            r.0.items@.len() == final(self).len(),
            forall|k: int| 0 <= k < final(self).len() ==> item_alike(#[trigger] r.0.items@[k], final(self).items()[k]),
            error_views(r.1@) == flat_errors(final(self).entry_errors()),
            final(self).len() == 0 ==> r.0.span == (Span { start: 0, end: new_source.spec_bytes().len() as usize }),
            ({
                let w = window(old(self).ranges(), *edit, new_source.spec_bytes().len() as int);
                let n = old(self).len() as int;
                let m = final(self).len() as int;
                window_fits(new_source.spec_bytes(), w) ==> {
                    &&& 0 <= w.2 <= w.3 <= n
                    &&& w.2 + (n - w.3) <= m
                    &&& final(self).items().subrange(0, w.2) == old(self).items().subrange(0, w.2)
                    &&& forall|k: int|
                        0 <= k < n - w.3 ==> moved_item(
                            #[trigger] final(self).items()[m - (n - w.3) + k],
                            old(self).items()[w.3 + k],
                            Shift { add: edit.inserted, sub: edit.removed },
                        )
                }
            }),
    {
        let shift = edit.shift();
        let old_start = edit.start;
        let old_end = edit.start.saturating_add(edit.removed);
        let inserted_end = edit.start.saturating_add(edit.inserted);
        let b = new_source.as_bytes();
        let src_len = b.len();
        let ghost rs = self.ranges();
        let ghost e0 = self.entries@;
        let ghost lo = edit.start as int;
        let ghost hi = sat_add(edit.start, edit.removed);
        proof {
            lemma_first_hit(rs, lo, hi);
            lemma_last_hit(rs, lo, hi);
            lemma_insert_point(rs, lo);
        }

        // Find indices of items that overlap the edited range.
        let mut first_affected: Option<usize> = None;
        let mut last_affected: Option<usize> = None;
        let mut i: usize = 0;
        while i < self.entries.len()
            invariant
                i <= self.entries@.len(),
                self.entries@ == e0,
                rs == self.ranges(),
                old_start == lo,
                old_end == hi,
                first_affected matches Some(f) ==> f < i && hits(rs[f as int], lo, hi) && forall|k: int|
                    0 <= k < f ==> !hits(#[trigger] rs[k], lo, hi),
                first_affected is None ==> forall|k: int| 0 <= k < i ==> !hits(#[trigger] rs[k], lo, hi),
                last_affected matches Some(l) ==> l < i && hits(rs[l as int], lo, hi) && forall|k: int|
                    l < k < i ==> !hits(#[trigger] rs[k], lo, hi),
                first_affected is Some <==> last_affected is Some,
                first_affected is Some ==> first_affected->0 <= last_affected->0,
            decreases self.entries@.len() - i,
        {
            let e = &self.entries[i];
            assert(rs[i as int] == (e.start, e.end));
            if e.end > old_start && e.start < old_end {
                if first_affected.is_none() {
                    first_affected = Some(i);
                }
                last_affected = Some(i);
            }
            i += 1;
        }
        proof {
            assert(rs.len() == e0.len());
            if first_affected is Some {
                let f = first_affected->0 as int;
                let fh = first_hit(rs, lo, hi);
                if fh < f {
                    assert(!hits(rs[fh], lo, hi));
                }
                if fh > f {
                    assert(hits(rs[f], lo, hi));
                }
                let l = last_affected->0 as int;
                let lh = last_hit(rs, lo, hi);
                if lh > l {
                    assert(!hits(rs[lh], lo, hi));
                }
                if lh < l {
                    assert(hits(rs[l], lo, hi));
                }
                assert(f == fh && l == lh);
            } else {
                if first_hit(rs, lo, hi) < rs.len() {
                    assert(hits(rs[first_hit(rs, lo, hi)], lo, hi));
                }
            }
        }

        // Determine the re-parse window in the *new* source.
        let (reparse_start, reparse_end, replace_start, replace_end) = match (first_affected, last_affected) {
            (Some(first), Some(last)) => {
                let start = self.entries[first].start;
                assert(rs[first as int].0 == start);
                // End of the last affected item in new-source coordinates.
                let raw_end = shift.apply(self.entries[last].end);
                assert(rs[last as int].1 == self.entries@[last as int].end);
                // The re-parse window must cover at least the inserted text.
                let end1 = if raw_end >= inserted_end { raw_end } else { inserted_end };
                let end2 = if end1 <= src_len { end1 } else { src_len };
                let end = if end2 >= start { end2 } else { start };
                (start, end, first, last + 1)
            },
            _ => {
                // The edit is in whitespace between items (or at the start
                // or end of the file outside any item): re-parse the gap.
                let start = edit.start;
                let end = if inserted_end <= src_len { inserted_end } else { src_len };
                // Insert point: the index where new items would go.
                let mut insert_at = self.entries.len();
                let mut j: usize = 0;
                while j < self.entries.len()
                    invariant_except_break
                        insert_at == self.entries@.len(),
                    invariant
                        j <= self.entries@.len(),
                        self.entries@ == e0,
                        rs == self.ranges(),
                        rs.len() == self.entries@.len(),
                        forall|k: int| 0 <= k < j ==> (#[trigger] rs[k]).0 < lo,
                        lo == edit.start,
                        0 <= insert_point(rs, lo) <= rs.len(),
                        insert_point(rs, lo) < rs.len() ==> rs[insert_point(rs, lo)].0 >= lo,
                        forall|k: int| 0 <= k < insert_point(rs, lo) ==> (#[trigger] rs[k]).0 < lo,
                    ensures
                        insert_at == insert_point(rs, lo),
                    decreases self.entries@.len() - j,
                {
                    assert(rs[j as int] == (self.entries@[j as int].start, self.entries@[j as int].end));
                    if self.entries[j].start >= edit.start {
                        insert_at = j;
                        proof {
                            let ip = insert_point(rs, lo);
                            if ip < j {
                                assert(rs[ip].0 < lo);
                            }
                            if ip > j {
                                assert(rs[j as int].0 >= lo);
                            }
                        }
                        break;
                    }
                    j += 1;
                }
                (start, end, insert_at, insert_at)
            },
        };
        let ghost w = window(rs, *edit, new_source.spec_bytes().len() as int);
        assert(inserted_end == sat_add(edit.start, edit.inserted));
        assert(src_len == new_source.spec_bytes().len());
        assert(w == (reparse_start as int, reparse_end as int, replace_start as int, replace_end as int));

        let window_ok = reparse_start <= reparse_end && reparse_end <= b.len() && (reparse_start == b.len()
            || (b[reparse_start] & 0xC0u8) != 0x80u8) && (reparse_end == b.len() || (b[reparse_end] & 0xC0u8)
            != 0x80u8);
        proof {
            if window_fits(b@, w) {
                if reparse_start < b@.len() {
                    let c = b@[reparse_start as int];
                    assert(!vstd::utf8::is_continuation_byte(c) ==> (c & 0xC0u8) != 0x80u8) by (bit_vector);
                }
                if reparse_end < b@.len() {
                    let c = b@[reparse_end as int];
                    assert(!vstd::utf8::is_continuation_byte(c) ==> (c & 0xC0u8) != 0x80u8) by (bit_vector);
                }
            }
        }
        if !window_ok {
            // Fall back to a full parse.
            *self = IncrementalParser::parse(new_source);
            return self.to_file_and_errors(new_source);
        }
        proof {
            assert(at_boundary(new_source.spec_bytes(), reparse_start as int)) by {
                if reparse_start < b@.len() {
                    let c = b@[reparse_start as int];
                    assert((c & 0xC0u8) != 0x80u8 ==> !vstd::utf8::is_continuation_byte(c)) by (bit_vector);
                }
            }
            assert(at_boundary(new_source.spec_bytes(), reparse_end as int)) by {
                if reparse_end < b@.len() {
                    let c = b@[reparse_end as int];
                    assert((c & 0xC0u8) != 0x80u8 ==> !vstd::utf8::is_continuation_byte(c)) by (bit_vector);
                }
            }
        }

        // Re-parse the affected region as if it were a standalone file.
        let region = substring(new_source, reparse_start, reparse_end);
        let (partial_file, partial_errors) = parse(region.as_str());

        // Offset all items from the partial parse so their spans are
        // relative to the full source.
        let offset = Shift { add: reparse_start, sub: 0 };
        let mut new_items: Vec<CachedItem> = Vec::new();
        let mut items = partial_file.items;
        let mut rev: Vec<CachedItem> = Vec::new();
        while items.len() > 0
            decreases items@.len(),
        {
            let mut item = items.pop().unwrap();
            let span = item_span(&item);
            shift_item_spans(&mut item, offset);
            rev.push(
                CachedItem {
                    item,
                    start: offset.apply(span.start),
                    end: offset.apply(span.end),
                    errors: Vec::new(),
                },
            );
        }
        while rev.len() > 0
            decreases rev@.len(),
        {
            new_items.push(rev.pop().unwrap());
        }

        // Offset errors from the partial parse.
        let mut new_errors: Vec<ParseError> = Vec::new();
        let mut k: usize = 0;
        while k < partial_errors.len()
            invariant
                k <= partial_errors@.len(),
            decreases partial_errors@.len() - k,
        {
            let e = &partial_errors[k];
            new_errors.push(
                ParseError {
                    span: Span::new(offset.apply(e.span.start), offset.apply(e.span.end)),
                    message: String::from_str(e.message.as_str()),
                },
            );
            k += 1;
        }

        // Shift spans and errors of items after the affected region.
        let n = self.entries.len();
        let mut idx = replace_end;
        while idx < self.entries.len()
            invariant
                replace_end <= idx,
                replace_start <= replace_end <= n,
                n == e0.len(),
                self.entries@.len() == n,
                shift.add == edit.inserted,
                shift.sub == edit.removed,
                forall|q: int| 0 <= q < replace_end ==> #[trigger] self.entries@[q] == e0[q],
                forall|q: int| idx <= q < n ==> #[trigger] self.entries@[q] == e0[q],
                forall|q: int| replace_end <= q < idx ==> moved_item(#[trigger] self.entries@[q].item, e0[q].item, shift),
            decreases self.entries@.len() - idx,
        {
            let mut entry = CachedItem { item: placeholder_item(), start: 0, end: 0, errors: Vec::new() };
            std::mem::swap(&mut entry, &mut self.entries[idx]);
            let ghost before = entry.item;
            entry.start = shift.apply(entry.start);
            entry.end = shift.apply(entry.end);
            shift_item_spans(&mut entry.item, shift);
            let mut q: usize = 0;
            while q < entry.errors.len()
                invariant
                    q <= entry.errors@.len(),
                    moved_item(entry.item, before, shift),
                decreases entry.errors@.len() - q,
            {
                let sp = entry.errors[q].span;
                let msg = String::from_str(entry.errors[q].message.as_str());
                entry.errors.set(q, ParseError { span: Span::new(shift.apply(sp.start), shift.apply(sp.end)), message: msg });
                q += 1;
            }
            self.entries.set(idx, entry);
            idx += 1;
        }
        let ghost e1 = self.entries@;

        // Splice in the newly parsed items.
        let mut spliced: Vec<CachedItem> = Vec::new();
        let mut old_entries = Vec::new();
        std::mem::swap(&mut old_entries, &mut self.entries);
        let mut tail: Vec<CachedItem> = Vec::new();
        let n_old = old_entries.len();
        let mut pos: usize = n_old;
        while pos > 0
            invariant
                pos == old_entries@.len(),
                n_old == n,
                n == e1.len(),
                replace_start <= replace_end <= n,
                old_entries@ == e1.subrange(0, pos as int),
                tail@.len() == n - (if pos >= replace_end { pos as int } else { replace_end as int }),
                forall|t: int| 0 <= t < tail@.len() ==> #[trigger] tail@[t] == e1[n - 1 - t],
                spliced@.len() == replace_start - (if pos <= replace_start { pos as int } else { replace_start as int }),
                forall|t: int| 0 <= t < spliced@.len() ==> #[trigger] spliced@[t] == e1[replace_start - 1 - t],
            decreases pos,
        {
            let ghost before = old_entries@;
            let e = old_entries.pop().unwrap();
            pos = old_entries.len();
            assert(old_entries@ =~= e1.subrange(0, pos as int));
            assert(e == e1[pos as int]);
            if pos >= replace_end {
                tail.push(e);
            } else if pos < replace_start {
                spliced.push(e);
            }
        }
        // `spliced` holds the kept prefix in reverse order.
        let mut prefix: Vec<CachedItem> = Vec::new();
        while spliced.len() > 0
            invariant
                spliced@.len() + prefix@.len() == replace_start,
                replace_start <= n,
                n == e1.len(),
                forall|t: int| 0 <= t < spliced@.len() ==> #[trigger] spliced@[t] == e1[replace_start - 1 - t],
                forall|t: int| 0 <= t < prefix@.len() ==> #[trigger] prefix@[t] == e1[t],
            decreases spliced@.len(),
        {
            let e = spliced.pop().unwrap();
            prefix.push(e);
        }
        let range_start = prefix.len();
        let mut news = new_items;
        let mut rev_new: Vec<CachedItem> = Vec::new();
        while news.len() > 0
            decreases news@.len(),
        {
            rev_new.push(news.pop().unwrap());
        }
        let ghost base = prefix@.len();
        while rev_new.len() > 0
            invariant
                base == replace_start,
                replace_start <= n,
                n == e1.len(),
                prefix@.len() >= base,
                forall|t: int| 0 <= t < base ==> #[trigger] prefix@[t] == e1[t],
            decreases rev_new@.len(),
        {
            prefix.push(rev_new.pop().unwrap());
        }
        let ghost mid = prefix@.len();
        while tail.len() > 0
            invariant
                base == replace_start,
                mid >= base,
                n == e1.len(),
                replace_end <= n,
                tail@.len() <= n - replace_end,
                prefix@.len() == mid + (n - replace_end) - tail@.len(),
                forall|t: int| 0 <= t < tail@.len() ==> #[trigger] tail@[t] == e1[n - 1 - t],
                forall|t: int| 0 <= t < base ==> #[trigger] prefix@[t] == e1[t],
                forall|t: int| 0 <= t < prefix@.len() - mid ==> #[trigger] prefix@[mid + t] == e1[replace_end + t],
            decreases tail@.len(),
        {
            let e = tail.pop().unwrap();
            prefix.push(e);
        }
        self.entries = prefix;
        proof {
            assert(self.items().subrange(0, replace_start as int) =~= old(self).items().subrange(0, replace_start as int)) by {
                assert forall|t: int| 0 <= t < replace_start implies self.items()[t] == old(self).items()[t] by {
                    assert(self.entries@[t] == e1[t]);
                    assert(e1[t] == e0[t]);
                }
            }
            assert forall|kk: int| 0 <= kk < n - replace_end implies moved_item(
                #[trigger] self.items()[self.len() - (n - replace_end) + kk],
                old(self).items()[replace_end + kk],
                Shift { add: edit.inserted, sub: edit.removed },
            ) by {
                assert(self.entries@[mid + kk] == e1[replace_end + kk]);
                assert(self.len() - (n - replace_end) + kk == mid + kk);
            }
        }

        // Distribute new errors among the newly spliced items.
        self.distribute_errors_in_range(new_errors, range_start);

        self.to_file_and_errors(new_source)
    }

    /// Build the current `File` and error list from cached state: the
    /// cached items in order, and the errors filed under them, item by
    /// item.
    pub fn to_file_and_errors(&self, source: &str) -> (r: (File, Vec<ParseError>))
        ensures
            r.0.items@.len() == self.len(),
            forall|k: int| 0 <= k < self.len() ==> item_alike(#[trigger] r.0.items@[k], self.items()[k]),
            error_views(r.1@) == flat_errors(self.entry_errors()),
            self.len() == 0 ==> r.0.span == (Span { start: 0, end: source.spec_bytes().len() as usize }),
            self.len() > 0 ==> r.0.span == (Span { start: self.ranges()[0].0, end: self.ranges().last().1 }),
    {
        let ghost ee = self.entry_errors();
        let mut items: Vec<Item> = Vec::new();
        let mut errors: Vec<ParseError> = Vec::new();
        let mut i: usize = 0;
        assert(error_views(errors@) =~= flat_errors(ee.subrange(0, 0)));
        while i < self.entries.len()
            invariant
                i <= self.entries@.len(),
                ee == self.entry_errors(),
                items@.len() == i,
                forall|k: int| 0 <= k < i ==> item_alike(#[trigger] items@[k], self.items()[k]),
                error_views(errors@) == flat_errors(ee.subrange(0, i as int)),
            decreases self.entries@.len() - i,
        {
            let e = &self.entries[i];
            let ghost before = errors@;
            let ghost ge = e.errors@;
            assert(ee[i as int] == ge);
            items.push(e.item.clone());
            let mut j: usize = 0;
            assert(error_views(ge.subrange(0, 0)) =~= Seq::<(Span, Seq<char>)>::empty());
            assert(error_views(errors@) =~= error_views(before) + error_views(ge.subrange(0, 0)));
            while j < e.errors.len()
                invariant
                    j <= e.errors@.len(),
                    ge == e.errors@,
                    error_views(errors@) == error_views(before) + error_views(ge.subrange(0, j as int)),
                decreases e.errors@.len() - j,
            {
                let ghost prev = errors@;
                errors.push(ParseError { span: e.errors[j].span, message: String::from_str(e.errors[j].message.as_str()) });
                assert(error_views(errors@) =~= error_views(prev).push(error_view(ge[j as int])));
                assert(error_views(ge.subrange(0, j + 1)) =~= error_views(ge.subrange(0, j as int)).push(error_view(ge[j as int])));
                assert(error_views(errors@) =~= error_views(before) + error_views(ge.subrange(0, j + 1)));
                j += 1;
            }
            proof {
                assert(ge.subrange(0, ge.len() as int) =~= ge);
                let s1 = ee.subrange(0, i + 1);
                assert(s1.drop_last() =~= ee.subrange(0, i as int));
                assert(s1.last() == ge);
            }
            i += 1;
        }
        assert(ee.subrange(0, i as int) =~= ee);
        let span = if self.entries.len() == 0 {
            Span::new(0, source.len())
        } else {
            Span::new(self.entries[0].start, self.entries[self.entries.len() - 1].end)
        };
        (File { span, items }, errors)
    }

    /// How many cached top-level items are stored.
    pub fn item_count(&self) -> (n: usize)
        ensures
            n == self.len(),
    {
        self.entries.len()
    }

    /// Distribute errors into cached entries by matching error spans to
    /// item byte ranges.  Errors that don't fall inside any item are
    /// assigned to the nearest following entry (or the last entry).
    fn distribute_errors(&mut self, errors: Vec<ParseError>)
        ensures
            final(self).len() == old(self).len(),
            final(self).items() == old(self).items(),
            final(self).ranges() == old(self).ranges(),
            final(self).entry_errors() == file_errors(old(self).entry_errors(), old(self).ranges(), errors@, 0),
            old(self).ranges_match() ==> final(self).ranges_match(),
    {
        let ghost all = errors@;
        let mut errs = errors;
        let mut rev: Vec<ParseError> = Vec::new();
        assert(all.subrange(0, all.len() as int) =~= all);
        while errs.len() > 0
            invariant
                errs@.len() + rev@.len() == all.len(),
                errs@ == all.subrange(0, errs@.len() as int),
                forall|t: int| 0 <= t < rev@.len() ==> #[trigger] rev@[t] == all[all.len() - 1 - t],
            decreases errs@.len(),
        {
            rev.push(errs.pop().unwrap());
            assert(errs@ =~= all.subrange(0, errs@.len() as int));
        }
        assert(all.subrange(0, all.len() - rev@.len()) =~= Seq::<ParseError>::empty());
        while rev.len() > 0
            invariant
                self.entries@.len() == old(self).entries@.len(),
                self.items() == old(self).items(),
                self.ranges() == old(self).ranges(),
                rev@.len() <= all.len(),
                forall|t: int| 0 <= t < rev@.len() ==> #[trigger] rev@[t] == all[all.len() - 1 - t],
                self.entry_errors() == file_errors(
                    old(self).entry_errors(),
                    old(self).ranges(),
                    all.subrange(0, all.len() - rev@.len()),
                    0,
                ),
                old(self).ranges_match() ==> self.ranges_match(),
            decreases rev@.len(),
        {
            let ghost done = all.len() - rev@.len();
            let err = rev.pop().unwrap();
            proof {
                let t = all.subrange(0, done + 1);
                assert(t.drop_last() =~= all.subrange(0, done));
                assert(t.last() == err);
            }
            if self.entries.len() > 0 {
                let idx = self.target_entry(err.span.start, 0);
                self.push_error(idx, err);
            }
        }
        assert(all.subrange(0, all.len() - rev@.len()) =~= all);
    }

    /// Distribute errors among entries starting at `range_start`,
    /// covering all newly spliced items.
    fn distribute_errors_in_range(&mut self, errors: Vec<ParseError>, range_start: usize)
        ensures
            final(self).len() == old(self).len(),
            final(self).items() == old(self).items(),
            final(self).ranges() == old(self).ranges(),
            final(self).entry_errors() == file_errors(
                old(self).entry_errors(),
                old(self).ranges(),
                errors@,
                range_start as int,
            ),
    {
        let ghost all = errors@;
        let mut errs = errors;
        let mut rev: Vec<ParseError> = Vec::new();
        assert(all.subrange(0, all.len() as int) =~= all);
        while errs.len() > 0
            invariant
                errs@.len() + rev@.len() == all.len(),
                errs@ == all.subrange(0, errs@.len() as int),
                forall|t: int| 0 <= t < rev@.len() ==> #[trigger] rev@[t] == all[all.len() - 1 - t],
            decreases errs@.len(),
        {
            rev.push(errs.pop().unwrap());
            assert(errs@ =~= all.subrange(0, errs@.len() as int));
        }
        assert(all.subrange(0, all.len() - rev@.len()) =~= Seq::<ParseError>::empty());
        while rev.len() > 0
            invariant
                self.entries@.len() == old(self).entries@.len(),
                self.items() == old(self).items(),
                self.ranges() == old(self).ranges(),
                rev@.len() <= all.len(),
                forall|t: int| 0 <= t < rev@.len() ==> #[trigger] rev@[t] == all[all.len() - 1 - t],
                self.entry_errors() == file_errors(
                    old(self).entry_errors(),
                    old(self).ranges(),
                    all.subrange(0, all.len() - rev@.len()),
                    range_start as int,
                ),
            decreases rev@.len(),
        {
            let ghost done = all.len() - rev@.len();
            let err = rev.pop().unwrap();
            proof {
                let t = all.subrange(0, done + 1);
                assert(t.drop_last() =~= all.subrange(0, done));
                assert(t.last() == err);
            }
            if self.entries.len() > 0 && range_start <= self.entries.len() {
                let idx = self.target_entry(err.span.start, range_start);
                self.push_error(idx, err);
            }
        }
        assert(all.subrange(0, all.len() - rev@.len()) =~= all);
    }

    /// The entry from `from` on that an error at `offset` belongs to: the
    /// first containing it, else the first starting after it, else the
    /// one before `from` (the last one when `from` is 0).
    fn target_entry(&self, offset: usize, from: usize) -> (idx: usize)
        requires
            self.entries@.len() > 0,
            from <= self.entries@.len(),
        ensures
            idx < self.entries@.len(),
            idx == target_of(self.ranges(), offset as int, from as int),
    {
        let ghost rs = self.ranges();
        let mut i = from;
        while i < self.entries.len()
            invariant
                from <= i <= self.entries@.len(),
                rs == self.ranges(),
                rs.len() == self.entries@.len(),
                containing_from(rs, offset as int, from as int) == containing_from(rs, offset as int, i as int),
            decreases self.entries@.len() - i,
        {
            assert(rs[i as int] == (self.entries@[i as int].start, self.entries@[i as int].end));
            if offset >= self.entries[i].start && offset < self.entries[i].end {
                return i;
            }
            i += 1;
        }
        let mut j = from;
        while j < self.entries.len()
            invariant
                from <= j <= self.entries@.len(),
                rs == self.ranges(),
                rs.len() == self.entries@.len(),
                containing_from(rs, offset as int, from as int) == rs.len(),
                starting_from(rs, offset as int, from as int) == starting_from(rs, offset as int, j as int),
            decreases self.entries@.len() - j,
        {
            assert(rs[j as int] == (self.entries@[j as int].start, self.entries@[j as int].end));
            if self.entries[j].start >= offset {
                return j;
            }
            j += 1;
        }
        if from == 0 {
            self.entries.len() - 1
        } else {
            from - 1
        }
    }

    fn push_error(&mut self, idx: usize, err: ParseError)
        requires
            idx < old(self).entries@.len(),
        ensures
            final(self).entries@.len() == old(self).entries@.len(),
            final(self).items() == old(self).items(),
            final(self).ranges() == old(self).ranges(),
            final(self).entry_errors() == old(self).entry_errors().update(
                idx as int,
                old(self).entry_errors()[idx as int].push(err),
            ),
            old(self).ranges_match() ==> final(self).ranges_match(),
    {
        let mut entry = CachedItem { item: placeholder_item(), start: 0, end: 0, errors: Vec::new() };
        std::mem::swap(&mut entry, &mut self.entries[idx]);
        entry.errors.push(err);
        self.entries.set(idx, entry);
        assert(self.items() =~= old(self).items());
        assert(self.ranges() =~= old(self).ranges());
        assert(self.entry_errors() =~= old(self).entry_errors().update(idx as int, old(self).entry_errors()[idx as int].push(err)));
        assert forall|k: int| 0 <= k < self.entries@.len() && old(self).ranges_match() implies #[trigger] entry_ok(self.entries@[k]) by {
            assert(entry_ok(old(self).entries@[k]));
        }
    }
}

/// The first range from `i` on that holds `off` (`rs.len()` when none).
pub open spec fn containing_from(rs: Seq<(usize, usize)>, off: int, i: int) -> int
    decreases rs.len() - i,
{
    if i < 0 || i >= rs.len() {
        rs.len() as int
    } else if rs[i].0 <= off < rs[i].1 {
        i
    } else {
        containing_from(rs, off, i + 1)
    }
}

/// The first range from `i` on that starts at `off` or later (`rs.len()`
/// when none).
pub open spec fn starting_from(rs: Seq<(usize, usize)>, off: int, i: int) -> int
    decreases rs.len() - i,
{
    if i < 0 || i >= rs.len() {
        rs.len() as int
    } else if rs[i].0 >= off {
        i
    } else {
        starting_from(rs, off, i + 1)
    }
}

/// The entry an error at `off` is filed under, searching from `from`: the
/// first holding it, else the first starting after it, else the one
/// before `from` (the last one when `from` is 0).
pub open spec fn target_of(rs: Seq<(usize, usize)>, off: int, from: int) -> int {
    if containing_from(rs, off, from) < rs.len() {
        containing_from(rs, off, from)
    } else if starting_from(rs, off, from) < rs.len() {
        starting_from(rs, off, from)
    } else if from == 0 {
        rs.len() - 1
    } else {
        from - 1
    }
}

/// The errors filed under each entry after filing `errs` one by one, each
/// under the entry `target_of` picks, searching from `from`. Nothing is
/// filed when there is no entry or `from` lies past the last one.
pub open spec fn file_errors(
    es: Seq<Seq<ParseError>>,
    rs: Seq<(usize, usize)>,
    errs: Seq<ParseError>,
    from: int,
) -> Seq<Seq<ParseError>>
    decreases errs.len(),
{
    if errs.len() == 0 {
        es
    } else {
        let prev = file_errors(es, rs, errs.drop_last(), from);
        if rs.len() > 0 && 0 <= from <= rs.len() {
            let t = target_of(rs, errs.last().span.start as int, from);
            prev.update(t, prev[t].push(errs.last()))
        } else {
            prev
        }
    }
}

/// `n` groups with no error in them.
pub open spec fn no_errors(n: nat) -> Seq<Seq<ParseError>> {
    Seq::new(n, |i: int| Seq::<ParseError>::empty())
}

/// The span of each item, as a byte range.
pub open spec fn item_ranges(items: Seq<Item>) -> Seq<(usize, usize)> {
    items.map_values(|it: Item| (spec_item_span(it).start, spec_item_span(it).end))
}

/// What an error says: where it is and its message.
pub open spec fn error_view(e: ParseError) -> (Span, Seq<char>) {
    (e.span, e.message@)
}

/// The view of each error of a list.
pub open spec fn error_views(es: Seq<ParseError>) -> Seq<(Span, Seq<char>)> {
    es.map_values(|e: ParseError| error_view(e))
}

/// The errors of all groups, one group after the other.
pub open spec fn flat_errors(gs: Seq<Seq<ParseError>>) -> Seq<(Span, Seq<char>)>
    decreases gs.len(),
{
    if gs.len() == 0 {
        Seq::empty()
    } else {
        flat_errors(gs.drop_last()) + error_views(gs.last())
    }
}

/// The first range from `i` on that holds an offset lies in `i..=rs.len()`.
proof fn lemma_containing_range(rs: Seq<(usize, usize)>, off: int, i: int)
    requires
        0 <= i,
    ensures
        0 <= containing_from(rs, off, i) <= rs.len(),
    decreases rs.len() - i,
{
    if i < rs.len() && !(rs[i].0 <= off < rs[i].1) {
        lemma_containing_range(rs, off, i + 1);
    }
}

/// The first range from `i` on that starts after an offset lies in
/// `i..=rs.len()`.
proof fn lemma_starting_range(rs: Seq<(usize, usize)>, off: int, i: int)
    requires
        0 <= i,
    ensures
        0 <= starting_from(rs, off, i) <= rs.len(),
    decreases rs.len() - i,
{
    if i < rs.len() && !(rs[i].0 >= off) {
        lemma_starting_range(rs, off, i + 1);
    }
}

/// An error is always filed under an existing entry.
pub(crate) proof fn lemma_target_in_range(rs: Seq<(usize, usize)>, off: int, from: int)
    requires
        rs.len() > 0,
        0 <= from <= rs.len(),
    ensures
        0 <= target_of(rs, off, from) < rs.len(),
{
    lemma_containing_range(rs, off, from);
    lemma_starting_range(rs, off, from);
}

/// Adding an error to one group adds it once to the errors of all groups.
pub(crate) proof fn lemma_flat_push(gs: Seq<Seq<ParseError>>, t: int, x: ParseError)
    requires
        0 <= t < gs.len(),
    ensures
        flat_errors(gs.update(t, gs[t].push(x))).to_multiset() == flat_errors(gs).to_multiset().insert(error_view(x)),
    decreases gs.len(),
{
    broadcast use vstd::multiset::group_multiset_axioms, vstd::seq_lib::group_to_multiset_ensures;
    let g2 = gs.update(t, gs[t].push(x));
    let d = gs.drop_last();
    if t == gs.len() - 1 {
        assert(g2.drop_last() =~= d);
        assert(error_views(g2.last()) =~= error_views(gs.last()).push(error_view(x)));
        assert(flat_errors(g2) =~= (flat_errors(d) + error_views(gs.last())).push(error_view(x)));
        vstd::seq_lib::to_multiset_build(flat_errors(d) + error_views(gs.last()), error_view(x));
    } else {
        let d2 = d.update(t, d[t].push(x));
        assert(g2.drop_last() =~= d2);
        assert(g2.last() == gs.last());
        lemma_flat_push(d, t, x);
        vstd::seq_lib::lemma_multiset_commutative(flat_errors(d2), error_views(gs.last()));
        vstd::seq_lib::lemma_multiset_commutative(flat_errors(d), error_views(gs.last()));
        assert(flat_errors(g2).to_multiset() =~= flat_errors(gs).to_multiset().insert(error_view(x)));
    }
}

/// Filing errors keeps the number of groups, and adds each error once.
pub(crate) proof fn lemma_filed_errors(
    es: Seq<Seq<ParseError>>,
    rs: Seq<(usize, usize)>,
    errs: Seq<ParseError>,
    from: int,
)
    requires
        es.len() == rs.len(),
        rs.len() > 0,
        0 <= from <= rs.len(),
    ensures
        file_errors(es, rs, errs, from).len() == es.len(),
        flat_errors(file_errors(es, rs, errs, from)).to_multiset() == flat_errors(es).to_multiset().add(
            error_views(errs).to_multiset(),
        ),
    decreases errs.len(),
{
    broadcast use vstd::multiset::group_multiset_axioms, vstd::seq_lib::group_to_multiset_ensures;
    if errs.len() == 0 {
        assert(error_views(errs) =~= Seq::<(Span, Seq<char>)>::empty());
        assert(flat_errors(es).to_multiset().add(error_views(errs).to_multiset()) =~= flat_errors(es).to_multiset());
    } else {
        let init = errs.drop_last();
        let x = errs.last();
        lemma_filed_errors(es, rs, init, from);
        let prev = file_errors(es, rs, init, from);
        lemma_target_in_range(rs, x.span.start as int, from);
        let t = target_of(rs, x.span.start as int, from);
        lemma_flat_push(prev, t, x);
        assert(error_views(errs) =~= error_views(init).push(error_view(x)));
        vstd::seq_lib::to_multiset_build(error_views(init), error_view(x));
        assert(flat_errors(file_errors(es, rs, errs, from)).to_multiset() =~= flat_errors(es).to_multiset().add(
            error_views(errs).to_multiset(),
        ));
    }
}

/// Groups with no error hold no error.
pub(crate) proof fn lemma_flat_no_errors(n: nat)
    ensures
        flat_errors(no_errors(n)) =~= Seq::<(Span, Seq<char>)>::empty(),
    decreases n,
{
    if n > 0 {
        assert(no_errors(n).drop_last() =~= no_errors((n - 1) as nat));
        lemma_flat_no_errors((n - 1) as nat);
        assert(error_views(no_errors(n).last()) =~= Seq::<(Span, Seq<char>)>::empty());
    }
}

/// The cached range of an entry is the span of its item.
spec fn entry_ok(e: CachedItem) -> bool {
    e.start == spec_item_span(e.item).start && e.end == spec_item_span(e.item).end
}

/// A stand-in item used while an entry is taken out of the cache.
fn placeholder_item() -> Item {
    Item::Include(crate::ast::Include { span: Span::dummy(), path: String::new() })
}


// ── What a shift does ──────────────────────────────────────────────

/// `n` is the span `o` moved by `s`; the dummy span stays.
pub open spec fn moved_span(n: Span, o: Span, s: Shift) -> bool {
    if o.start == usize::MAX && o.end == usize::MAX {
        n == o
    } else {
        n == (Span { start: shifted(o.start, s.add, s.sub), end: shifted(o.end, s.add, s.sub) })
    }
}

pub open spec fn moved_ident(n: Identifier, o: Identifier, s: Shift) -> bool {
    n.name == o.name && moved_span(n.span, o.span, s)
}

pub open spec fn moved_idents(n: Seq<Identifier>, o: Seq<Identifier>, s: Shift) -> bool {
    n.len() == o.len() && forall|i: int| 0 <= i < o.len() ==> moved_ident(#[trigger] n[i], o[i], s)
}

/// `n` is the expression `o` with every span moved by `s` and nothing
/// else changed.
pub open spec fn moved_expr(n: Expression, o: Expression, s: Shift) -> bool
    decreases o, 0nat,
{
    &&& moved_span(n.span, o.span, s)
    &&& match *o.kind {
        ExpressionKind::Number(x) => *n.kind == ExpressionKind::Number(x),
        ExpressionKind::Ident(x) => *n.kind == ExpressionKind::Ident(x),
        ExpressionKind::Underscore => *n.kind == ExpressionKind::Underscore,
        ExpressionKind::Error => *n.kind == ExpressionKind::Error,
        ExpressionKind::Unary(op, e) => *n.kind matches ExpressionKind::Unary(op2, e2) && op2 == op && moved_expr(
            e2,
            e,
            s,
        ),
        ExpressionKind::Paren(e) => *n.kind matches ExpressionKind::Paren(e2) && moved_expr(e2, e, s),
        ExpressionKind::Parallel(e) => *n.kind matches ExpressionKind::Parallel(e2) && moved_expr(e2, e, s),
        ExpressionKind::Binary(l, op, r) => *n.kind matches ExpressionKind::Binary(l2, op2, r2) && op2 == op
            && moved_expr(l2, l, s) && moved_expr(r2, r, s),
        ExpressionKind::Ternary(c, t, e) => *n.kind matches ExpressionKind::Ternary(c2, t2, e2) && moved_expr(c2, c, s)
            && moved_expr(t2, t, s) && moved_expr(e2, e, s),
        ExpressionKind::Index(b, i) => *n.kind matches ExpressionKind::Index(b2, i2) && moved_expr(b2, b, s)
            && moved_expr(i2, i, s),
        ExpressionKind::Member(b, f) => *n.kind matches ExpressionKind::Member(b2, f2) && moved_expr(b2, b, s)
            && moved_ident(f2, f, s),
        ExpressionKind::Call(c, args) => *n.kind matches ExpressionKind::Call(c2, args2) && moved_expr(c2, c, s)
            && moved_exprs(args2@, args@, s),
        ExpressionKind::AnonymousComp(ac) => *n.kind matches ExpressionKind::AnonymousComp(ac2) && moved_expr(
            ac2.template,
            ac.template,
            s,
        ) && moved_exprs(ac2.template_args@, ac.template_args@, s) && moved_inputs(ac2.inputs@, ac.inputs@, s),
        ExpressionKind::ArrayLit(es) => *n.kind matches ExpressionKind::ArrayLit(es2) && moved_exprs(es2@, es@, s),
    }
}

pub open spec fn moved_exprs(n: Seq<Expression>, o: Seq<Expression>, s: Shift) -> bool
    decreases o, 1nat,
{
    n.len() == o.len() && forall|i: int| 0 <= i < o.len() ==> moved_expr(#[trigger] n[i], o[i], s)
}

pub open spec fn moved_inputs(n: Seq<AnonCompInput>, o: Seq<AnonCompInput>, s: Shift) -> bool
    decreases o, 1nat,
{
    n.len() == o.len() && forall|i: int|
        0 <= i < o.len() ==> match o[i] {
            AnonCompInput::Positional(e) => #[trigger] n[i] matches AnonCompInput::Positional(e2) && moved_expr(
                e2,
                e,
                s,
            ),
            AnonCompInput::Named(id, e) => n[i] matches AnonCompInput::Named(id2, e2) && moved_ident(id2, id, s)
                && moved_expr(e2, e, s),
        }
}

pub open spec fn moved_opt_expr(n: Option<Expression>, o: Option<Expression>, s: Shift) -> bool {
    match o {
        Some(e) => n matches Some(e2) && moved_expr(e2, e, s),
        None => n is None,
    }
}

pub open spec fn moved_opt_init<T>(n: Option<(T, Expression)>, o: Option<(T, Expression)>, s: Shift) -> bool {
    match o {
        Some((op, e)) => n matches Some((op2, e2)) && op2 == op && moved_expr(e2, e, s),
        None => n is None,
    }
}

pub open spec fn moved_var_entry(n: crate::ast::VarDeclEntry, o: crate::ast::VarDeclEntry, s: Shift) -> bool {
    moved_ident(n.name, o.name, s) && moved_exprs(n.dimensions@, o.dimensions@, s) && moved_opt_expr(n.init, o.init, s)
}

pub open spec fn moved_signal_entry(n: crate::ast::SignalDeclEntry, o: crate::ast::SignalDeclEntry, s: Shift) -> bool {
    moved_ident(n.name, o.name, s) && moved_exprs(n.dimensions@, o.dimensions@, s) && moved_opt_init(n.init, o.init, s)
}

pub open spec fn moved_component_entry(n: crate::ast::ComponentDeclEntry, o: crate::ast::ComponentDeclEntry, s: Shift) -> bool {
    moved_ident(n.name, o.name, s) && moved_exprs(n.dimensions@, o.dimensions@, s) && moved_opt_expr(n.init, o.init, s)
}

pub open spec fn moved_signal_decl(n: crate::ast::SignalDecl, o: crate::ast::SignalDecl, s: Shift) -> bool {
    &&& moved_span(n.span, o.span, s)
    &&& n.kind == o.kind
    &&& moved_idents(n.tags@, o.tags@, s)
    &&& n.names@.len() == o.names@.len()
    &&& forall|i: int| 0 <= i < o.names@.len() ==> moved_signal_entry(#[trigger] n.names@[i], o.names@[i], s)
}

pub open spec fn moved_bus_type(n: BusType, o: BusType, s: Shift) -> bool {
    moved_span(n.span, o.span, s) && moved_ident(n.name, o.name, s) && moved_exprs(n.args@, o.args@, s)
}

/// `n` is the statement `o` with every span moved by `s` and nothing
/// else changed.
pub open spec fn moved_stmt(n: Statement, o: Statement, s: Shift) -> bool
    decreases o, 0nat,
{
    &&& moved_span(n.span, o.span, s)
    &&& match o.kind {
        StatementKind::VarDecl(v) => n.kind matches StatementKind::VarDecl(v2) && moved_span(v2.span, v.span, s)
            && v2.names@.len() == v.names@.len() && forall|i: int|
            0 <= i < v.names@.len() ==> moved_var_entry(#[trigger] v2.names@[i], v.names@[i], s),
        StatementKind::SignalDecl(d) => n.kind matches StatementKind::SignalDecl(d2) && moved_signal_decl(d2, d, s),
        StatementKind::ComponentDecl(c) => n.kind matches StatementKind::ComponentDecl(c2) && moved_span(c2.span, c.span, s)
            && c2.is_parallel == c.is_parallel && c2.names@.len() == c.names@.len() && forall|i: int|
            0 <= i < c.names@.len() ==> moved_component_entry(#[trigger] c2.names@[i], c.names@[i], s),
        StatementKind::BusDecl(b) => n.kind matches StatementKind::BusDecl(b2) && moved_span(b2.span, b.span, s)
            && moved_bus_type(b2.bus_type, b.bus_type, s) && b2.signal_kind == b.signal_kind && moved_idents(
            b2.tags@,
            b.tags@,
            s,
        ) && moved_ident(b2.name, b.name, s) && moved_exprs(b2.dimensions@, b.dimensions@, s) && moved_opt_init(
            b2.init,
            b.init,
            s,
        ),
        StatementKind::Assignment(a) => n.kind matches StatementKind::Assignment(a2) && a2.op == a.op && moved_expr(
            a2.lhs,
            a.lhs,
            s,
        ) && moved_expr(a2.rhs, a.rhs, s),
        StatementKind::CompoundAssign(a) => n.kind matches StatementKind::CompoundAssign(a2) && a2.op == a.op
            && moved_expr(a2.lhs, a.lhs, s) && moved_expr(a2.rhs, a.rhs, s),
        StatementKind::ConstraintEq(c) => n.kind matches StatementKind::ConstraintEq(c2) && moved_expr(c2.lhs, c.lhs, s)
            && moved_expr(c2.rhs, c.rhs, s),
        StatementKind::TupleAssign(t) => n.kind matches StatementKind::TupleAssign(t2) && t2.op == t.op && moved_expr(
            t2.rhs,
            t.rhs,
            s,
        ) && t2.targets@.len() == t.targets@.len() && forall|i: int|
            0 <= i < t.targets@.len() ==> moved_opt_expr(#[trigger] t2.targets@[i], t.targets@[i], s),
        StatementKind::IfElse(ie) => n.kind matches StatementKind::IfElse(ie2) && moved_expr(ie2.cond, ie.cond, s)
            && moved_block(ie2.then_body, ie.then_body, s) && match ie.else_body {
            Some(b) => ie2.else_body matches Some(b2) && moved_block(b2, b, s),
            None => ie2.else_body is None,
        },
        StatementKind::For(f) => n.kind matches StatementKind::For(f2) && moved_stmt(*f2.init, *f.init, s)
            && moved_expr(f2.cond, f.cond, s) && moved_stmt(*f2.step, *f.step, s) && moved_block(f2.body, f.body, s),
        StatementKind::While(w) => n.kind matches StatementKind::While(w2) && moved_expr(w2.cond, w.cond, s)
            && moved_block(w2.body, w.body, s),
        StatementKind::Return(r) => n.kind matches StatementKind::Return(r2) && moved_expr(r2.value, r.value, s),
        StatementKind::Log(l) => n.kind matches StatementKind::Log(l2) && l2.args@.len() == l.args@.len() && forall|
            i: int,
        |
            0 <= i < l.args@.len() ==> match l.args@[i] {
                LogArg::Expr(e) => #[trigger] l2.args@[i] matches LogArg::Expr(e2) && moved_expr(e2, e, s),
                LogArg::String(x) => l2.args@[i] == LogArg::String(x),
            },
        StatementKind::Assert(a) => n.kind matches StatementKind::Assert(a2) && moved_expr(a2.expr, a.expr, s),
        StatementKind::Increment(e) => n.kind matches StatementKind::Increment(e2) && moved_expr(e2, e, s),
        StatementKind::Decrement(e) => n.kind matches StatementKind::Decrement(e2) && moved_expr(e2, e, s),
        StatementKind::Expression(e) => n.kind matches StatementKind::Expression(e2) && moved_expr(e2, e, s),
        StatementKind::Block(b) => n.kind matches StatementKind::Block(b2) && moved_block(b2, b, s),
        StatementKind::Error => n.kind == StatementKind::Error,
    }
}

pub open spec fn moved_block(n: Block, o: Block, s: Shift) -> bool
    decreases o, 1nat,
{
    &&& moved_span(n.span, o.span, s)
    &&& n.stmts@.len() == o.stmts@.len()
    &&& forall|i: int| 0 <= i < o.stmts@.len() ==> moved_stmt(#[trigger] n.stmts@[i], o.stmts@[i], s)
}

// ── Span shifting ──────────────────────────────────────────────────

/// Shift a span, leaving the dummy span alone.
fn shift_span(span: &mut Span, s: Shift)
    ensures
        old(span).start == usize::MAX && old(span).end == usize::MAX ==> *final(span) == *old(span),
        !(old(span).start == usize::MAX && old(span).end == usize::MAX) ==> *final(span) == (Span {
            start: shifted(old(span).start, s.add, s.sub),
            end: shifted(old(span).end, s.add, s.sub),
        }),
{
    if span.start == usize::MAX && span.end == usize::MAX {
        return;
    }
    span.start = s.apply(span.start);
    span.end = s.apply(span.end);
}

fn shift_ident(id: &mut Identifier, s: Shift)
    ensures
        moved_ident(*final(id), *old(id), s),
{
    shift_span(&mut id.span, s);
}

fn shift_idents(ids: &mut Vec<Identifier>, s: Shift)
    ensures
        moved_idents(final(ids)@, old(ids)@, s),
{
    let mut i: usize = 0;
    while i < ids.len()
        invariant
            i <= ids@.len(),
            ids@.len() == old(ids)@.len(),
            forall|k: int| 0 <= k < i ==> moved_ident(#[trigger] ids@[k], old(ids)@[k], s),
            forall|k: int| i <= k < ids@.len() ==> ids@[k] == old(ids)@[k],
        decreases ids@.len() - i,
    {
        shift_ident(&mut ids[i], s);
        i += 1;
    }
}

/// `n` is the item `o` with every span moved by `s`.
pub open spec fn moved_item(n: Item, o: Item, s: Shift) -> bool {
    match o {
        Item::Pragma(p) => n matches Item::Pragma(p2) && moved_span(p2.span, p.span, s) && p2.kind == p.kind,
        Item::Include(i) => n matches Item::Include(i2) && moved_span(i2.span, i.span, s) && i2.path@ == i.path@,
        Item::TemplateDef(t) => n matches Item::TemplateDef(t2) && moved_span(t2.span, t.span, s) && moved_ident(
            t2.name,
            t.name,
            s,
        ) && moved_idents(t2.params@, t.params@, s) && moved_block(t2.body, t.body, s) && t2.is_custom == t.is_custom
            && t2.is_parallel == t.is_parallel && t2.is_extern == t.is_extern,
        Item::FunctionDef(f) => n matches Item::FunctionDef(f2) && moved_span(f2.span, f.span, s) && moved_ident(
            f2.name,
            f.name,
            s,
        ) && moved_idents(f2.params@, f.params@, s) && moved_block(f2.body, f.body, s),
        Item::BusDef(b) => n matches Item::BusDef(b2) && moved_span(b2.span, b.span, s) && moved_ident(
            b2.name,
            b.name,
            s,
        ) && moved_idents(b2.params@, b.params@, s) && b2.body@.len() == b.body@.len() && forall|k: int|
            0 <= k < b.body@.len() ==> moved_bus_member(#[trigger] b2.body@[k], b.body@[k], s),
        Item::MainComponent(m) => n matches Item::MainComponent(m2) && moved_span(m2.span, m.span, s) && moved_idents(
            m2.public_signals@,
            m.public_signals@,
            s,
        ) && moved_expr(m2.expr, m.expr, s),
    }
}

fn shift_item_spans(item: &mut Item, s: Shift)
    ensures
        moved_item(*final(item), *old(item), s),
{
    let ghost i0 = *old(item);
    match item {
        Item::Pragma(p) => shift_span(&mut p.span, s),
        Item::Include(i) => shift_span(&mut i.span, s),
        Item::TemplateDef(t) => {
            shift_span(&mut t.span, s);
            shift_ident(&mut t.name, s);
            shift_idents(&mut t.params, s);
            shift_block(&mut t.body, s);
        },
        Item::FunctionDef(f) => {
            shift_span(&mut f.span, s);
            shift_ident(&mut f.name, s);
            shift_idents(&mut f.params, s);
            shift_block(&mut f.body, s);
        },
        Item::BusDef(b) => {
            shift_span(&mut b.span, s);
            shift_ident(&mut b.name, s);
            shift_idents(&mut b.params, s);
            let ghost m0 = i0->BusDef_0.body@;
            let mut i: usize = 0;
            while i < b.body.len()
                invariant
                    i <= b.body@.len(),
                    b.body@.len() == m0.len(),
                    moved_span(b.span, i0->BusDef_0.span, s),
                    moved_ident(b.name, i0->BusDef_0.name, s),
                    moved_idents(b.params@, i0->BusDef_0.params@, s),
                    forall|k: int| i <= k < m0.len() ==> b.body@[k] == m0[k],
                    forall|k: int| 0 <= k < i ==> moved_bus_member(#[trigger] b.body@[k], m0[k], s),
                decreases b.body@.len() - i,
            {
                shift_bus_member(&mut b.body[i], s);
                i += 1;
            }
        },
        Item::MainComponent(m) => {
            shift_span(&mut m.span, s);
            shift_idents(&mut m.public_signals, s);
            shift_expr(&mut m.expr, s);
        },
    }
}

fn shift_block(block: &mut Block, s: Shift)
    ensures
        moved_block(*final(block), *old(block), s),
    decreases *old(block), 0nat,
{
    shift_span(&mut block.span, s);
    let mut i: usize = 0;
    let ghost b0 = *old(block);
    while i < block.stmts.len()
        invariant
            i <= block.stmts@.len(),
            b0 == *old(block),
            moved_span(block.span, b0.span, s),
            block.stmts@.len() == b0.stmts@.len(),
            forall|k: int| i <= k < b0.stmts@.len() ==> block.stmts@[k] == b0.stmts@[k],
            forall|k: int| 0 <= k < i ==> moved_stmt(#[trigger] block.stmts@[k], b0.stmts@[k], s),
        decreases block.stmts@.len() - i,
    {
        assert(decreases_to!(b0 => b0.stmts@[i as int]));
        let mut st = Statement { span: Span::dummy(), kind: StatementKind::Error };
        std::mem::swap(&mut st, &mut block.stmts[i]);
        assert(st == b0.stmts@[i as int]);
        shift_stmt(&mut st, s);
        block.stmts.set(i, st);
        i += 1;
    }
}

fn shift_exprs(exprs: &mut Vec<Expression>, s: Shift)
    ensures
        moved_exprs(final(exprs)@, old(exprs)@, s),
    decreases *old(exprs), 1nat,
{
    let mut i: usize = 0;
    let ghost v0 = *old(exprs);
    while i < exprs.len()
        invariant
            i <= exprs@.len(),
            v0 == *old(exprs),
            exprs@.len() == v0@.len(),
            forall|k: int| i <= k < v0@.len() ==> exprs@[k] == v0@[k],
            forall|k: int| 0 <= k < i ==> moved_expr(#[trigger] exprs@[k], v0@[k], s),
        decreases exprs@.len() - i,
    {
        assert(decreases_to!(v0 => v0@[i as int]));
        let mut e = Expression { span: Span::dummy(), kind: Box::new(ExpressionKind::Error) };
        std::mem::swap(&mut e, &mut exprs[i]);
        assert(e == v0@[i as int]);
        shift_expr(&mut e, s);
        exprs.set(i, e);
        i += 1;
    }
}

/// Shift every span of a statement.
fn shift_stmt(stmt: &mut Statement, s: Shift)
    ensures
        moved_stmt(*final(stmt), *old(stmt), s),
    decreases *old(stmt), 0nat,
{
    shift_span(&mut stmt.span, s);
    let ghost k0 = old(stmt).kind;
    match &mut stmt.kind {
        StatementKind::VarDecl(v) => {
            shift_span(&mut v.span, s);
            let ghost n0 = k0->VarDecl_0.names@;
            let mut i: usize = 0;
            while i < v.names.len()
                invariant
                    i <= v.names@.len(),
                    v.names@.len() == n0.len(),
                    moved_span(v.span, k0->VarDecl_0.span, s),
                    forall|k: int| i <= k < n0.len() ==> v.names@[k] == n0[k],
                    forall|k: int| 0 <= k < i ==> moved_var_entry(#[trigger] v.names@[k], n0[k], s),
                decreases v.names@.len() - i,
            {
                let entry = &mut v.names[i];
                shift_ident(&mut entry.name, s);
                shift_exprs(&mut entry.dimensions, s);
                match &mut entry.init {
                    Some(init) => shift_expr(init, s),
                    None => {},
                }
                i += 1;
            }
        },
        StatementKind::SignalDecl(d) => {
            shift_span(&mut d.span, s);
            shift_idents(&mut d.tags, s);
            let ghost n0 = k0->SignalDecl_0.names@;
            let mut i: usize = 0;
            while i < d.names.len()
                invariant
                    i <= d.names@.len(),
                    moved_span(d.span, k0->SignalDecl_0.span, s),
                    d.kind == k0->SignalDecl_0.kind,
                    moved_idents(d.tags@, k0->SignalDecl_0.tags@, s),
                    d.names@.len() == n0.len(),
                    forall|k: int| i <= k < n0.len() ==> d.names@[k] == n0[k],
                    forall|k: int| 0 <= k < i ==> moved_signal_entry(#[trigger] d.names@[k], n0[k], s),
                decreases d.names@.len() - i,
            {
                let entry = &mut d.names[i];
                shift_ident(&mut entry.name, s);
                shift_exprs(&mut entry.dimensions, s);
                match &mut entry.init {
                    Some((_, init)) => shift_expr(init, s),
                    None => {},
                }
                i += 1;
            }
        },
        StatementKind::ComponentDecl(c) => {
            shift_span(&mut c.span, s);
            let ghost n0 = k0->ComponentDecl_0.names@;
            let mut i: usize = 0;
            while i < c.names.len()
                invariant
                    i <= c.names@.len(),
                    c.names@.len() == n0.len(),
                    moved_span(c.span, k0->ComponentDecl_0.span, s),
                    c.is_parallel == k0->ComponentDecl_0.is_parallel,
                    forall|k: int| i <= k < n0.len() ==> c.names@[k] == n0[k],
                    forall|k: int| 0 <= k < i ==> moved_component_entry(#[trigger] c.names@[k], n0[k], s),
                decreases c.names@.len() - i,
            {
                let entry = &mut c.names[i];
                shift_ident(&mut entry.name, s);
                shift_exprs(&mut entry.dimensions, s);
                match &mut entry.init {
                    Some(init) => shift_expr(init, s),
                    None => {},
                }
                i += 1;
            }
        },
        StatementKind::BusDecl(b) => {
            shift_span(&mut b.span, s);
            shift_bus_type(&mut b.bus_type, s);
            shift_idents(&mut b.tags, s);
            shift_ident(&mut b.name, s);
            shift_exprs(&mut b.dimensions, s);
            match &mut b.init {
                Some((_, init)) => shift_expr(init, s),
                None => {},
            }
        },
        StatementKind::Assignment(a) => {
            shift_expr(&mut a.lhs, s);
            shift_expr(&mut a.rhs, s);
        },
        StatementKind::CompoundAssign(c) => {
            shift_expr(&mut c.lhs, s);
            shift_expr(&mut c.rhs, s);
        },
        StatementKind::ConstraintEq(c) => {
            shift_expr(&mut c.lhs, s);
            shift_expr(&mut c.rhs, s);
        },
        StatementKind::TupleAssign(t) => {
            let ghost n0 = k0->TupleAssign_0.targets@;
            let mut i: usize = 0;
            while i < t.targets.len()
                invariant
                    i <= t.targets@.len(),
                    t.targets@.len() == n0.len(),
                    t.op == k0->TupleAssign_0.op,
                    t.rhs == k0->TupleAssign_0.rhs,
                    forall|k: int| i <= k < n0.len() ==> t.targets@[k] == n0[k],
                    forall|k: int| 0 <= k < i ==> moved_opt_expr(#[trigger] t.targets@[k], n0[k], s),
                decreases t.targets@.len() - i,
            {
                match &mut t.targets[i] {
                    Some(e) => shift_expr(e, s),
                    None => {},
                }
                i += 1;
            }
            shift_expr(&mut t.rhs, s);
        },
        StatementKind::IfElse(ie) => {
            shift_expr(&mut ie.cond, s);
            assert(decreases_to!(k0 => k0->IfElse_0.then_body));
            shift_block(&mut ie.then_body, s);
            match &mut ie.else_body {
                Some(else_body) => {
                    assert(decreases_to!(k0 => k0->IfElse_0.else_body->0));
                    shift_block(else_body, s);
                },
                None => {},
            }
        },
        StatementKind::For(f) => {
            assert(decreases_to!(k0 => *k0->For_0.init));
            shift_stmt(&mut *f.init, s);
            shift_expr(&mut f.cond, s);
            assert(decreases_to!(k0 => *k0->For_0.step));
            shift_stmt(&mut *f.step, s);
            assert(decreases_to!(k0 => k0->For_0.body));
            shift_block(&mut f.body, s);
        },
        StatementKind::While(w) => {
            shift_expr(&mut w.cond, s);
            assert(decreases_to!(k0 => k0->While_0.body));
            shift_block(&mut w.body, s);
        },
        StatementKind::Return(r) => shift_expr(&mut r.value, s),
        StatementKind::Log(l) => {
            let ghost n0 = k0->Log_0.args@;
            let mut i: usize = 0;
            while i < l.args.len()
                invariant
                    i <= l.args@.len(),
                    l.args@.len() == n0.len(),
                    forall|k: int| i <= k < n0.len() ==> l.args@[k] == n0[k],
                    forall|k: int|
                        0 <= k < i ==> match n0[k] {
                            LogArg::Expr(e) => #[trigger] l.args@[k] matches LogArg::Expr(e2) && moved_expr(e2, e, s),
                            LogArg::String(x) => l.args@[k] == LogArg::String(x),
                        },
                decreases l.args@.len() - i,
            {
                match &mut l.args[i] {
                    LogArg::Expr(e) => shift_expr(e, s),
                    LogArg::String(_) => {},
                }
                i += 1;
            }
        },
        StatementKind::Assert(a) => shift_expr(&mut a.expr, s),
        StatementKind::Increment(e) => shift_expr(e, s),
        StatementKind::Decrement(e) => shift_expr(e, s),
        StatementKind::Expression(e) => shift_expr(e, s),
        StatementKind::Block(b) => {
            assert(decreases_to!(k0 => k0->Block_0));
            shift_block(b, s);
        },
        StatementKind::Error => {},
    }
}

/// Shift every span of an expression.
fn shift_expr(expr: &mut Expression, s: Shift)
    ensures
        moved_expr(*final(expr), *old(expr), s),
    decreases *old(expr), 0nat,
{
    shift_span(&mut expr.span, s);
    let ghost k0 = *old(expr).kind;
    assert(*expr.kind == k0);
    // Leaves hold no span but their own.
    match &*expr.kind {
        ExpressionKind::Number(_) | ExpressionKind::Ident(_) | ExpressionKind::Underscore
        | ExpressionKind::Error => {
            return;
        },
        _ => {},
    }
    match &mut *expr.kind {
        ExpressionKind::Number(_) | ExpressionKind::Ident(_) | ExpressionKind::Underscore
        | ExpressionKind::Error => {},
        ExpressionKind::Unary(_, e) => shift_expr(e, s),
        ExpressionKind::Paren(e) => shift_expr(e, s),
        ExpressionKind::Parallel(e) => shift_expr(e, s),
        ExpressionKind::Binary(l, _, r) => {
            shift_expr(l, s);
            shift_expr(r, s);
        },
        ExpressionKind::Ternary(c, t, e) => {
            shift_expr(c, s);
            shift_expr(t, s);
            shift_expr(e, s);
        },
        ExpressionKind::Index(base, idx) => {
            shift_expr(base, s);
            shift_expr(idx, s);
        },
        ExpressionKind::Member(base, field) => {
            shift_expr(base, s);
            shift_ident(field, s);
        },
        ExpressionKind::Call(callee, args) => {
            shift_expr(callee, s);
            assert(decreases_to!(k0 => k0->Call_1));
            shift_exprs(args, s);
        },
        ExpressionKind::AnonymousComp(ac) => {
            shift_expr(&mut ac.template, s);
            assert(decreases_to!(k0 => k0->AnonymousComp_0.template_args));
            shift_exprs(&mut ac.template_args, s);
            let ghost ins0 = k0->AnonymousComp_0.inputs;
            let mut i: usize = 0;
            while i < ac.inputs.len()
                invariant
                    i <= ac.inputs@.len(),
                    k0 == *old(expr).kind,
                    k0 is AnonymousComp,
                    ins0 == k0->AnonymousComp_0.inputs,
                    moved_expr(ac.template, k0->AnonymousComp_0.template, s),
                    moved_exprs(ac.template_args@, k0->AnonymousComp_0.template_args@, s),
                    ac.inputs@.len() == ins0@.len(),
                    forall|k: int| i <= k < ins0@.len() ==> ac.inputs@[k] == ins0@[k],
                    forall|k: int|
                        0 <= k < i ==> match ins0@[k] {
                            AnonCompInput::Positional(e) => #[trigger] ac.inputs@[k] matches AnonCompInput::Positional(e2)
                                && moved_expr(e2, e, s),
                            AnonCompInput::Named(id, e) => ac.inputs@[k] matches AnonCompInput::Named(id2, e2)
                                && moved_ident(id2, id, s) && moved_expr(e2, e, s),
                        },
                decreases ac.inputs@.len() - i,
            {
                let ghost inp = ins0@[i as int];
                assert(decreases_to!(k0 => k0->AnonymousComp_0));
                assert(decreases_to!(k0->AnonymousComp_0 => ins0));
                assert(decreases_to!(ins0 => inp));
                assert(ac.inputs@[i as int] == inp);
                match &mut ac.inputs[i] {
                    AnonCompInput::Positional(e) => {
                        assert(decreases_to!(inp => inp->Positional_0));
                        shift_expr(e, s);
                    },
                    AnonCompInput::Named(id, e) => {
                        assert(decreases_to!(inp => inp->Named_1));
                        shift_ident(id, s);
                        shift_expr(e, s);
                    },
                }
                i += 1;
            }
            assert(moved_inputs(ac.inputs@, ins0@, s));
        },
        ExpressionKind::ArrayLit(elems) => {
            assert(decreases_to!(k0 => k0->ArrayLit_0));
            shift_exprs(elems, s);
        },
    }
}

/// `n` is the bus member `o` with every span moved by `s`.
pub open spec fn moved_bus_member(n: BusMember, o: BusMember, s: Shift) -> bool {
    match o {
        BusMember::Signal(d) => n matches BusMember::Signal(d2) && moved_signal_decl(d2, d, s),
        BusMember::Bus(b) => n matches BusMember::Bus(b2) && moved_span(b2.span, b.span, s) && moved_bus_type(
            b2.bus_type,
            b.bus_type,
            s,
        ) && moved_idents(b2.tags@, b.tags@, s) && moved_ident(b2.name, b.name, s) && moved_exprs(
            b2.dimensions@,
            b.dimensions@,
            s,
        ),
    }
}

fn shift_bus_member(member: &mut BusMember, s: Shift)
    ensures
        moved_bus_member(*final(member), *old(member), s),
{
    let ghost m0 = *old(member);
    match member {
        BusMember::Signal(d) => {
            shift_span(&mut d.span, s);
            shift_idents(&mut d.tags, s);
            let ghost n0 = m0->Signal_0.names@;
            let mut i: usize = 0;
            while i < d.names.len()
                invariant
                    i <= d.names@.len(),
                    moved_span(d.span, m0->Signal_0.span, s),
                    d.kind == m0->Signal_0.kind,
                    moved_idents(d.tags@, m0->Signal_0.tags@, s),
                    d.names@.len() == n0.len(),
                    forall|k: int| i <= k < n0.len() ==> d.names@[k] == n0[k],
                    forall|k: int| 0 <= k < i ==> moved_signal_entry(#[trigger] d.names@[k], n0[k], s),
                decreases d.names@.len() - i,
            {
                let entry = &mut d.names[i];
                shift_ident(&mut entry.name, s);
                shift_exprs(&mut entry.dimensions, s);
                match &mut entry.init {
                    Some((_, init)) => shift_expr(init, s),
                    None => {},
                }
                i += 1;
            }
        },
        BusMember::Bus(b) => {
            shift_span(&mut b.span, s);
            shift_bus_type(&mut b.bus_type, s);
            shift_idents(&mut b.tags, s);
            shift_ident(&mut b.name, s);
            shift_exprs(&mut b.dimensions, s);
        },
    }
}

fn shift_bus_type(bt: &mut BusType, s: Shift)
    ensures
        moved_bus_type(*final(bt), *old(bt), s),
{
    shift_span(&mut bt.span, s);
    shift_ident(&mut bt.name, s);
    shift_exprs(&mut bt.args, s);
}

} // verus!
