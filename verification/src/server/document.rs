//! The open documents of the language server: their text (held in a
//! rope), their version, and the incremental parser that follows their
//! edits.

use vstd::prelude::*;
use vstd::string::StringSliceAdditionalSpecFns;
use vstd::utf8::*;

use crate::incremental::{IncrementalParser, TextEdit};
use crate::parser::ParseError;
use crate::scope::string_eq;
use crate::text::lemma_encode_utf8_concat;

verus! {

#[verifier::external_type_specification]
#[verifier::external_body]
pub struct ExRope(ropey::Rope);

/// The characters that a rope holds.
pub uninterp spec fn rope_chars(r: ropey::Rope) -> Seq<char>;

/// A character that ends a line for the rope: line feed, vertical tab,
/// form feed, carriage return, next line, line and paragraph separator.
pub open spec fn is_line_break(c: char) -> bool {
    c == '\n' || c == '\u{0B}' || c == '\u{0C}' || c == '\r' || c == '\u{85}' || c == '\u{2028}' || c == '\u{2029}'
}

/// The char offsets just past each line break of `t` at or after `i`; a
/// carriage return followed by a line feed is one break.
pub open spec fn break_ends(t: Seq<char>, i: int) -> Seq<int>
    decreases t.len() - i,
{
    if i < 0 || i >= t.len() {
        Seq::empty()
    } else if t[i] == '\r' && i + 1 < t.len() && t[i + 1] == '\n' {
        seq![i + 2] + break_ends(t, i + 2)
    } else if is_line_break(t[i]) {
        seq![i + 1] + break_ends(t, i + 1)
    } else {
        break_ends(t, i + 1)
    }
}

/// The char offsets at which the lines of `t` start.
pub open spec fn rope_line_starts(t: Seq<char>) -> Seq<int> {
    seq![0int] + break_ends(t, 0)
}

/// The number of chars of line `l` of `t`, its line break included.
pub open spec fn rope_line_len(t: Seq<char>, l: int) -> int {
    let starts = rope_line_starts(t);
    if l + 1 < starts.len() {
        starts[l + 1] - starts[l]
    } else {
        t.len() - starts[l]
    }
}

/// `ropey::Rope::from_str`: a rope that holds the chars of `text`.
#[verifier::external_body]
fn rope_from_str(text: &str) -> (r: ropey::Rope)
    ensures
        rope_chars(r) == text@,
{
    ropey::Rope::from_str(text)
}

/// `ropey::Rope::len_chars`: the number of chars.
#[verifier::external_body]
fn rope_len_chars(r: &ropey::Rope) -> (n: usize)
    ensures
        n == rope_chars(*r).len(),
{
    r.len_chars()
}

/// `ropey::Rope::len_lines`: one more than the number of line breaks.
#[verifier::external_body]
fn rope_len_lines(r: &ropey::Rope) -> (n: usize)
    ensures
        n == rope_line_starts(rope_chars(*r)).len(),
{
    r.len_lines()
}

/// `ropey::Rope::line_to_char`: the char offset where line `line`
/// starts (panics past one-past-the-last line, which `requires` leaves
/// out).
#[verifier::external_body]
fn rope_line_to_char(r: &ropey::Rope, line: usize) -> (c: usize)
    requires
        line < rope_line_starts(rope_chars(*r)).len(),
    ensures
        c == rope_line_starts(rope_chars(*r))[line as int],
{
    r.line_to_char(line)
}

/// `ropey::Rope::line(..).len_chars()`: the chars of line `line`, its
/// line break included.
#[verifier::external_body]
fn rope_line_len_chars(r: &ropey::Rope, line: usize) -> (n: usize)
    requires
        line < rope_line_starts(rope_chars(*r)).len(),
    ensures
        n == rope_line_len(rope_chars(*r), line as int),
{
    r.line(line).len_chars()
}

/// `ropey::Rope::char_to_byte`: the UTF-8 length of the first
/// `char_idx` chars.
#[verifier::external_body]
fn rope_char_to_byte(r: &ropey::Rope, char_idx: usize) -> (b: usize)
    requires
        char_idx <= rope_chars(*r).len(),
    ensures
        b == encode_utf8(rope_chars(*r).take(char_idx as int)).len(),
{
    r.char_to_byte(char_idx)
}

/// `ropey::Rope::remove`: drop the chars from `start` to `end`.
#[verifier::external_body]
fn rope_remove(r: &mut ropey::Rope, start: usize, end: usize)
    requires
        start <= end <= rope_chars(*old(r)).len(),
    ensures
        rope_chars(*final(r)) == rope_chars(*old(r)).take(start as int) + rope_chars(*old(r)).skip(end as int),
{
    r.remove(start..end)
}

/// `ropey::Rope::insert`: put `text` at char `char_idx`.
#[verifier::external_body]
fn rope_insert(r: &mut ropey::Rope, char_idx: usize, text: &str)
    requires
        char_idx <= rope_chars(*old(r)).len(),
    ensures
        rope_chars(*final(r)) == rope_chars(*old(r)).take(char_idx as int) + text@ + rope_chars(*old(r)).skip(
            char_idx as int,
        ),
{
    r.insert(char_idx, text)
}

/// `ropey::Rope`'s `to_string`: the chars it holds.
#[verifier::external_body]
fn rope_to_string(r: &ropey::Rope) -> (s: String)
    ensures
        s@ == rope_chars(*r),
{
    r.to_string()
}

/// A position in a document as the editor gives it: line and column,
/// both counted from 0.
#[derive(Debug, Clone, Copy, PartialEq, Eq, Structural)]
pub struct DocPosition {
    pub line: u32,
    pub character: u32,
}

/// One change the editor sends: the text that replaces a range, or the
/// whole document when there is no range.
#[derive(Debug, Clone, PartialEq)]
pub struct ContentChange {
    pub range: Option<(DocPosition, DocPosition)>,
    pub text: String,
}

/// The char offset of an editor position in `t`: past the last line it
/// is the end of the text; a column past the end of its line stops at
/// the line's end.
pub open spec fn position_char(t: Seq<char>, p: DocPosition) -> int {
    let starts = rope_line_starts(t);
    if p.line >= starts.len() {
        t.len() as int
    } else {
        let len = rope_line_len(t, p.line as int);
        starts[p.line as int] + if p.character <= len {
            p.character as int
        } else {
            len
        }
    }
}

/// A change whose range starts after it ends; it is skipped.
pub open spec fn change_skipped(t: Seq<char>, c: ContentChange) -> bool {
    match c.range {
        Some((s, e)) => position_char(t, s) > position_char(t, e),
        None => false,
    }
}

/// The text after one change. A range whose start comes after its end
/// leaves the text as it was.
pub open spec fn apply_change(t: Seq<char>, c: ContentChange) -> Seq<char> {
    match c.range {
        None => c.text@,
        Some((s, e)) => {
            let a = position_char(t, s);
            let b = position_char(t, e);
            if a <= b {
                t.take(a) + c.text@ + t.skip(b)
            } else {
                t
            }
        },
    }
}

/// The text after a list of changes, applied in order.
pub open spec fn apply_changes_spec(t: Seq<char>, cs: Seq<ContentChange>) -> Seq<char>
    decreases cs.len(),
{
    if cs.len() == 0 {
        t
    } else {
        apply_change(apply_changes_spec(t, cs.drop_last()), cs.last())
    }
}

/// State for a single open document.
pub struct DocumentState {
    /// The current content of the document.
    pub content: ropey::Rope,
    /// The version number from the client.
    pub version: i32,
    /// Cached incremental parser for this document.
    pub(crate) inc_parser: IncrementalParser,
    /// The text last handed to the parser.
    cached_text: String,
}

/// Stores open document state for the language server, one entry per
/// URI.
pub struct DocumentStore {
    documents: Vec<(String, DocumentState)>,
}

/// What the store holds of a document: its text, its version and the
/// text its parser last saw.
pub type DocView = (Seq<char>, i32, Seq<char>);

/// The entry of `uri` in `docs`, the first one with that URI.
pub open spec fn doc_lookup(docs: Seq<(Seq<char>, DocView)>, uri: Seq<char>) -> Option<DocView>
    decreases docs.len(),
{
    if docs.len() == 0 {
        None
    } else if docs[0].0 == uri {
        Some(docs[0].1)
    } else {
        doc_lookup(docs.drop_first(), uri)
    }
}

impl DocumentStore {
    /// The documents, in the order they were opened.
    pub closed spec fn docs(self) -> Seq<(Seq<char>, DocView)> {
        self.documents@.map_values(
            |e: (String, DocumentState)| (e.0@, (rope_chars(e.1.content), e.1.version, e.1.cached_text@)),
        )
    }

    /// What the store holds for `uri`.
    pub open spec fn doc(self, uri: Seq<char>) -> Option<DocView> {
        doc_lookup(self.docs(), uri)
    }

    pub fn new() -> (s: DocumentStore)
        ensures
            forall|u: Seq<char>| s.doc(u) is None,
    {
        DocumentStore { documents: Vec::new() }
    }

    /// The index of the entry of `uri`.
    fn find(&self, uri: &str) -> (r: Option<usize>)
        ensures
            r matches Some(i) ==> i < self.documents@.len() && self.documents@[i as int].0@ == uri@ && forall|
                k: int,
            | 0 <= k < i ==> self.documents@[k].0@ != uri@,
            r is None ==> forall|k: int| 0 <= k < self.documents@.len() ==> self.documents@[k].0@ != uri@,
    {
        let mut i: usize = 0;
        while i < self.documents.len()
            invariant
                i <= self.documents@.len(),
                forall|k: int| 0 <= k < i ==> self.documents@[k].0@ != uri@,
            decreases self.documents@.len() - i,
        {
            if string_eq(&self.documents[i].0, uri) {
                return Some(i);
            }
            i += 1;
        }
        None
    }

    proof fn lemma_lookup_at(docs: Seq<(Seq<char>, DocView)>, i: int, uri: Seq<char>)
        requires
            0 <= i < docs.len(),
            docs[i].0 == uri,
            forall|k: int| 0 <= k < i ==> docs[k].0 != uri,
        ensures
            doc_lookup(docs, uri) == Some(docs[i].1),
        decreases i,
    {
        if i > 0 {
            Self::lemma_lookup_at(docs.drop_first(), i - 1, uri);
        }
    }

    proof fn lemma_lookup_none(docs: Seq<(Seq<char>, DocView)>, uri: Seq<char>)
        requires
            forall|k: int| 0 <= k < docs.len() ==> docs[k].0 != uri,
        ensures
            doc_lookup(docs, uri) is None,
        decreases docs.len(),
    {
        if docs.len() > 0 {
            Self::lemma_lookup_none(docs.drop_first(), uri);
        }
    }

    /// Replacing entry `i` of a list whose entries before `i` have
    /// other URIs changes what the list holds for `docs[i]`'s URI only.
    proof fn lemma_lookup_update(docs: Seq<(Seq<char>, DocView)>, i: int, v: DocView, u: Seq<char>)
        requires
            0 <= i < docs.len(),
            forall|k: int| 0 <= k < i ==> docs[k].0 != docs[i].0,
        ensures
            doc_lookup(docs.update(i, (docs[i].0, v)), u) == (if u == docs[i].0 {
                Some(v)
            } else {
                doc_lookup(docs, u)
            }),
        decreases i,
    {
        let docs2 = docs.update(i, (docs[i].0, v));
        if i > 0 {
            assert(docs2.drop_first() == docs.drop_first().update(i - 1, (docs[i].0, v)));
            Self::lemma_lookup_update(docs.drop_first(), i - 1, v, u);
            assert(docs2[0] == docs[0]);
        } else {
            assert(docs2.drop_first() == docs.drop_first());
        }
    }

    proof fn lemma_lookup_push(docs: Seq<(Seq<char>, DocView)>, e: (Seq<char>, DocView), u: Seq<char>)
        requires
            forall|k: int| 0 <= k < docs.len() ==> docs[k].0 != e.0,
        ensures
            doc_lookup(docs.push(e), u) == (if u == e.0 {
                Some(e.1)
            } else {
                doc_lookup(docs, u)
            }),
        decreases docs.len(),
    {
        if docs.len() > 0 {
            assert(docs.push(e).drop_first() == docs.drop_first().push(e));
            Self::lemma_lookup_push(docs.drop_first(), e, u);
            assert(docs.push(e)[0] == docs[0]);
        } else {
            assert(docs.push(e).drop_first() == docs);
        }
    }

    proof fn lemma_lookup_remove(docs: Seq<(Seq<char>, DocView)>, i: int, u: Seq<char>)
        requires
            0 <= i < docs.len(),
            forall|k: int| 0 <= k < i ==> docs[k].0 != docs[i].0,
            forall|k: int| i < k < docs.len() ==> docs[k].0 != docs[i].0,
        ensures
            doc_lookup(docs.remove(i), u) == (if u == docs[i].0 {
                None
            } else {
                doc_lookup(docs, u)
            }),
        decreases i,
    {
        if i > 0 {
            assert(docs.remove(i).drop_first() == docs.drop_first().remove(i - 1));
            Self::lemma_lookup_remove(docs.drop_first(), i - 1, u);
        } else {
            assert(docs.remove(0) == docs.drop_first());
            if u == docs[0].0 {
                Self::lemma_lookup_none(docs.drop_first(), u);
            }
        }
    }

    /// Each URI has one entry.
    pub closed spec fn wf(self) -> bool {
        forall|i: int, j: int|
            0 <= i < j < self.documents@.len() ==> #[trigger] self.documents@[i].0@ != #[trigger] self.documents@[j].0@
    }

    /// Open a document: the store now holds `text` at `version` for
    /// `uri`, whatever it held before; the other documents are kept.
    pub fn open(&mut self, uri: String, version: i32, text: String)
        requires
            old(self).wf(),
        ensures
            final(self).wf(),
            final(self).doc(uri@) == Some((text@, version, text@)),
            forall|u: Seq<char>| u != uri@ ==> final(self).doc(u) == old(self).doc(u),
    {
        let inc_parser = IncrementalParser::parse(text.as_str());
        let content = rope_from_str(text.as_str());
        let state = DocumentState { content, version, inc_parser, cached_text: text };
        let ghost docs0 = self.docs();
        let ghost v: DocView = (state.cached_text@, version, state.cached_text@);
        match self.find(uri.as_str()) {
            Some(i) => {
                let ghost key = self.documents@[i as int].0@;
                self.documents.set(i, (uri, state));
                proof {
                    assert(self.docs() == docs0.update(i as int, (key, v)));
                    assert forall|u: Seq<char>| #[trigger] self.doc(u) == (if u == key {
                        Some(v)
                    } else {
                        doc_lookup(docs0, u)
                    }) by {
                        Self::lemma_lookup_update(docs0, i as int, v, u);
                    }
                }
            },
            None => {
                self.documents.push((uri, state));
                proof {
                    assert(self.docs() == docs0.push((self.documents@.last().0@, v)));
                    assert forall|u: Seq<char>| #[trigger] self.doc(u) == (if u == self.documents@.last().0@ {
                        Some(v)
                    } else {
                        doc_lookup(docs0, u)
                    }) by {
                        Self::lemma_lookup_push(docs0, (self.documents@.last().0@, v), u);
                    }
                }
            },
        }
    }

    /// The char offset of an editor position in a rope.
    fn position_to_offset(rope: &ropey::Rope, position: DocPosition) -> (r: usize)
        ensures
            r == position_char(rope_chars(*rope), position),
    {
        let line = position.line as usize;
        let total = rope_len_chars(rope);
        if line >= rope_len_lines(rope) {
            return total;
        }
        let line_start = rope_line_to_char(rope, line);
        let col = position.character as usize;
        let line_len = rope_line_len_chars(rope, line);
        proof {
            lemma_line_fits(rope_chars(*rope), line as int);
        }
        line_start + if col <= line_len { col } else { line_len }
    }

    /// Apply one change to a document.
    fn apply_one(doc: &mut DocumentState, change: &ContentChange)
        ensures
            rope_chars(final(doc).content) == apply_change(rope_chars(old(doc).content), *change),
            final(doc).version == old(doc).version,
            final(doc).cached_text@ == (if change_skipped(rope_chars(old(doc).content), *change) {
                old(doc).cached_text@
            } else {
                rope_chars(final(doc).content)
            }),
    {
        match &change.range {
            Some((s, e)) => {
                let s = *s;
                let e = *e;
                let start_char = Self::position_to_offset(&doc.content, s);
                let end_char = Self::position_to_offset(&doc.content, e);
                proof {
                    lemma_position_fits(rope_chars(doc.content), s);
                    lemma_position_fits(rope_chars(doc.content), e);
                }
                if start_char > end_char {
                    return;
                }
                // Byte offsets for the incremental parser.
                let start_byte = rope_char_to_byte(&doc.content, start_char);
                let end_byte = rope_char_to_byte(&doc.content, end_char);
                proof {
                    lemma_utf8_prefix_len(rope_chars(doc.content), start_char as int, end_char as int);
                }
                rope_remove(&mut doc.content, start_char, end_char);
                rope_insert(&mut doc.content, start_char, change.text.as_str());
                // Convert the rope to a string once and keep it, so that
                // the parse errors can be read without a second
                // conversion.
                let new_text = rope_to_string(&doc.content);
                let edit = TextEdit {
                    start: start_byte,
                    removed: end_byte - start_byte,
                    inserted: change.text.as_str().as_bytes().len(),
                };
                let _ = doc.inc_parser.update(new_text.as_str(), &edit);
                doc.cached_text = new_text;
            },
            None => {
                // Full document replacement.
                doc.content = rope_from_str(change.text.as_str());
                doc.inc_parser = IncrementalParser::parse(change.text.as_str());
                doc.cached_text = String::from_str(change.text.as_str());
            },
        }
    }

    /// Apply the editor's changes to a document, in order, and record
    /// its new version. A document that is not open is left alone.
    pub fn apply_changes(&mut self, uri: &str, version: i32, changes: Vec<ContentChange>)
        requires
            old(self).wf(),
        ensures
            final(self).wf(),
            old(self).doc(uri@) is None ==> final(self).doc(uri@) is None,
            old(self).doc(uri@) matches Some(d) ==> final(self).doc(uri@) matches Some(n) && n.0
                == apply_changes_spec(d.0, changes@) && n.1 == version,
            forall|u: Seq<char>| u != uri@ ==> final(self).doc(u) == old(self).doc(u),
    {
        let ghost docs0 = self.docs();
        match self.find(uri) {
            Some(i) => {
                let ghost key = self.documents@[i as int].0@;
                proof {
                    Self::lemma_lookup_at(docs0, i as int, uri@);
                }
                let (name, mut doc) = self.documents.remove(i);
                let ghost t0 = rope_chars(doc.content);
                let ghost all = changes@;
                let mut k: usize = 0;
                while k < changes.len()
                    invariant
                        k <= changes@.len(),
                        all == changes@,
                        rope_chars(doc.content) == apply_changes_spec(t0, all.take(k as int)),
                    decreases changes@.len() - k,
                {
                    proof {
                        assert(all.take(k + 1).drop_last() == all.take(k as int));
                    }
                    Self::apply_one(&mut doc, &changes[k]);
                    k += 1;
                }
                proof {
                    assert(all.take(k as int) == all);
                }
                doc.version = version;
                self.documents.insert(i, (name, doc));
                proof {
                    let v: DocView = (rope_chars(doc.content), version, doc.cached_text@);
                    assert(self.docs() == docs0.update(i as int, (key, v)));
                    assert forall|u: Seq<char>| #[trigger] self.doc(u) == (if u == key {
                        Some(v)
                    } else {
                        doc_lookup(docs0, u)
                    }) by {
                        Self::lemma_lookup_update(docs0, i as int, v, u);
                    }
                }
            },
            None => {
                proof {
                    Self::lemma_lookup_none(docs0, uri@);
                }
            },
        }
    }

    /// Make the text `text` the one the parser follows, parsed afresh: a
    /// save is a resync point, so the next change starts from a clean
    /// state. The document's text and version are kept.
    pub fn reset_parser(&mut self, uri: &str, text: &str)
        requires
            old(self).wf(),
        ensures
            final(self).wf(),
            old(self).doc(uri@) is None ==> final(self).doc(uri@) is None,
            old(self).doc(uri@) matches Some(d) ==> final(self).doc(uri@) == Some((d.0, d.1, text@)),
            forall|u: Seq<char>| u != uri@ ==> final(self).doc(u) == old(self).doc(u),
    {
        let ghost docs0 = self.docs();
        match self.find(uri) {
            Some(i) => {
                let ghost key = self.documents@[i as int].0@;
                proof {
                    Self::lemma_lookup_at(docs0, i as int, uri@);
                }
                let (name, mut doc) = self.documents.remove(i);
                doc.inc_parser = IncrementalParser::parse(text);
                doc.cached_text = String::from_str(text);
                self.documents.insert(i, (name, doc));
                proof {
                    let v: DocView = (rope_chars(doc.content), doc.version, text@);
                    assert(self.docs() == docs0.update(i as int, (key, v)));
                    assert forall|u: Seq<char>| #[trigger] self.doc(u) == (if u == key {
                        Some(v)
                    } else {
                        doc_lookup(docs0, u)
                    }) by {
                        Self::lemma_lookup_update(docs0, i as int, v, u);
                    }
                }
            },
            None => {
                proof {
                    Self::lemma_lookup_none(docs0, uri@);
                }
            },
        }
    }

    /// Close a document, removing it from the store.
    pub fn close(&mut self, uri: &str)
        requires
            old(self).wf(),
        ensures
            final(self).wf(),
            final(self).doc(uri@) is None,
            forall|u: Seq<char>| u != uri@ ==> final(self).doc(u) == old(self).doc(u),
    {
        let ghost docs0 = self.docs();
        match self.find(uri) {
            Some(i) => {
                let ghost key = self.documents@[i as int].0@;
                let _ = self.documents.remove(i);
                proof {
                    assert(self.docs() == docs0.remove(i as int));
                    assert forall|u: Seq<char>| #[trigger] self.doc(u) == (if u == key {
                        None
                    } else {
                        doc_lookup(docs0, u)
                    }) by {
                        Self::lemma_lookup_remove(docs0, i as int, u);
                    }
                }
            },
            None => {
                proof {
                    Self::lemma_lookup_none(docs0, uri@);
                }
            },
        }
    }

    /// Get the full text of a document.
    pub fn get_text(&self, uri: &str) -> (r: Option<String>)
        requires
            self.wf(),
        ensures
            self.doc(uri@) is None ==> r is None,
            self.doc(uri@) matches Some(d) ==> r matches Some(t) && t@ == d.0,
    {
        match self.find(uri) {
            Some(i) => {
                proof {
                    Self::lemma_lookup_at(self.docs(), i as int, uri@);
                }
                Some(rope_to_string(&self.documents[i].1.content))
            },
            None => {
                proof {
                    Self::lemma_lookup_none(self.docs(), uri@);
                }
                None
            },
        }
    }

    /// Get the version of a document.
    pub fn get_version(&self, uri: &str) -> (r: Option<i32>)
        requires
            self.wf(),
        ensures
            self.doc(uri@) is None ==> r is None,
            self.doc(uri@) matches Some(d) ==> r == Some(d.1),
    {
        match self.find(uri) {
            Some(i) => {
                proof {
                    Self::lemma_lookup_at(self.docs(), i as int, uri@);
                }
                Some(self.documents[i].1.version)
            },
            None => {
                proof {
                    Self::lemma_lookup_none(self.docs(), uri@);
                }
                None
            },
        }
    }

    /// Check if a document is open.
    pub fn is_open(&self, uri: &str) -> (r: bool)
        requires
            self.wf(),
        ensures
            r == self.doc(uri@) is Some,
    {
        match self.find(uri) {
            Some(i) => {
                proof {
                    Self::lemma_lookup_at(self.docs(), i as int, uri@);
                }
                true
            },
            None => {
                proof {
                    Self::lemma_lookup_none(self.docs(), uri@);
                }
                false
            },
        }
    }

    /// Every open document: its URI and its text, in the order they were
    /// opened.
    pub fn all_documents(&self) -> (r: Vec<(String, String)>)
        ensures
            r@.len() == self.docs().len(),
            forall|k: int|
                0 <= k < r@.len() ==> (#[trigger] r@[k]).0@ == self.docs()[k].0 && r@[k].1@ == self.docs()[k].1.0,
    {
        let mut out: Vec<(String, String)> = Vec::new();
        let mut i: usize = 0;
        while i < self.documents.len()
            invariant
                i <= self.documents@.len(),
                out@.len() == i,
                forall|k: int|
                    0 <= k < i ==> (#[trigger] out@[k]).0@ == self.docs()[k].0 && out@[k].1@ == self.docs()[k].1.0,
            decreases self.documents@.len() - i,
        {
            let uri = self.documents[i].0.clone();
            let text = rope_to_string(&self.documents[i].1.content);
            out.push((uri, text));
            i += 1;
        }
        out
    }

    /// The text the parser follows and its parse errors, from the cached
    /// incremental parse.
    pub fn get_parse_errors(&self, uri: &str) -> (r: Option<(String, Vec<ParseError>)>)
        requires
            self.wf(),
        ensures
            self.doc(uri@) is None ==> r is None,
            self.doc(uri@) matches Some(d) ==> r matches Some((t, _)) && t@ == d.2,
    {
        match self.find(uri) {
            Some(i) => {
                proof {
                    Self::lemma_lookup_at(self.docs(), i as int, uri@);
                }
                let doc = &self.documents[i].1;
                let (_, errors) = doc.inc_parser.to_file_and_errors(doc.cached_text.as_str());
                Some((doc.cached_text.clone(), errors))
            },
            None => {
                proof {
                    Self::lemma_lookup_none(self.docs(), uri@);
                }
                None
            },
        }
    }
}

/// A line of the rope lies within its text.
proof fn lemma_line_fits(t: Seq<char>, l: int)
    requires
        0 <= l < rope_line_starts(t).len(),
    ensures
        0 <= rope_line_starts(t)[l] <= rope_line_starts(t)[l] + rope_line_len(t, l) <= t.len(),
{
    lemma_break_ends(t, 0);
}

/// The line-break ends after `i` rise strictly and lie in `(i, len]`.
proof fn lemma_break_ends(t: Seq<char>, i: int)
    requires
        0 <= i,
    ensures
        forall|k: int| 0 <= k < break_ends(t, i).len() ==> i < #[trigger] break_ends(t, i)[k] <= t.len(),
        forall|j: int, k: int|
            0 <= j < k < break_ends(t, i).len() ==> #[trigger] break_ends(t, i)[j] < #[trigger] break_ends(t, i)[k],
    decreases t.len() - i,
{
    if i < t.len() {
        lemma_break_ends(t, i + 1);
        if i + 2 <= t.len() {
            lemma_break_ends(t, i + 2);
        }
        let b = break_ends(t, i);
        if t[i] == '\r' && i + 1 < t.len() && t[i + 1] == '\n' {
            let rest = break_ends(t, i + 2);
            assert(b == seq![i + 2] + rest);
            assert forall|k: int| 0 <= k < b.len() implies i < #[trigger] b[k] <= t.len() by {
                if k > 0 {
                    assert(b[k] == rest[k - 1]);
                }
            }
            assert forall|j: int, k: int| 0 <= j < k < b.len() implies #[trigger] b[j] < #[trigger] b[k] by {
                assert(b[k] == rest[k - 1]);
                if j > 0 {
                    assert(b[j] == rest[j - 1]);
                }
            }
        } else if is_line_break(t[i]) {
            let rest = break_ends(t, i + 1);
            assert(b == seq![i + 1] + rest);
            assert forall|k: int| 0 <= k < b.len() implies i < #[trigger] b[k] <= t.len() by {
                if k > 0 {
                    assert(b[k] == rest[k - 1]);
                }
            }
            assert forall|j: int, k: int| 0 <= j < k < b.len() implies #[trigger] b[j] < #[trigger] b[k] by {
                assert(b[k] == rest[k - 1]);
                if j > 0 {
                    assert(b[j] == rest[j - 1]);
                }
            }
        } else {
            assert(b == break_ends(t, i + 1));
        }
    }
}

/// An editor position lies within the text.
pub proof fn lemma_position_fits(t: Seq<char>, p: DocPosition)
    ensures
        0 <= position_char(t, p) <= t.len(),
{
    if p.line < rope_line_starts(t).len() {
        lemma_line_fits(t, p.line as int);
    }
}

/// The UTF-8 length of a prefix grows with the prefix.
proof fn lemma_utf8_prefix_len(t: Seq<char>, a: int, b: int)
    requires
        0 <= a <= b <= t.len(),
    ensures
        encode_utf8(t.take(a)).len() <= encode_utf8(t.take(b)).len(),
{
    assert(t.take(b) == t.take(a) + t.subrange(a, b));
    lemma_encode_utf8_concat(t.take(a), t.subrange(a, b));
}

impl Default for DocumentStore {
    fn default() -> (s: DocumentStore)
        ensures
            forall|u: Seq<char>| s.doc(u) is None,
    {
        DocumentStore::new()
    }
}

} // verus!
