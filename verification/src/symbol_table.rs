//! Symbol table for Circom semantic analysis.
//!
//! The [`SymbolTable`] is the central data structure for tracking all named
//! entities in a Circom project. It supports:
//!
//! - All Circom symbol types (templates, functions, buses, signals, variables, components)
//! - Scope resolution following Circom scoping rules
//! - Cross-file symbol resolution via includes
//! - Qualified name resolution (dot notation)
//! - Incremental updates (re-parse one file without affecting others)
//! - Duplicate and undeclared symbol detection

use vstd::prelude::*;

use crate::ast::{
    AnonCompInput, AnonymousComp, Block, BusDef, BusInstanceDecl, BusMember, ComponentDecl,
    Expression, ExpressionKind, File, FunctionDef, Identifier, Item, LogArg, SignalDecl,
    SignalKind, Statement, StatementKind, TemplateDef, VarDecl, VarDeclEntry, SignalDeclEntry,
    ComponentDeclEntry,
};
use crate::scope::{chain_lookup, string_eq, Scope, ScopeTree};
use crate::span::Span;
use crate::text::views;
use crate::symbol::{
    BusSymbol, ComponentSymbol, DiagnosticKind, FunctionSymbol, ScopeId, ScopeKind, SignalSymbol,
    Symbol, SymbolDiagnostic, SymbolId, SymbolKind, TemplateSymbol,
};

verus! {

/// Per-file metadata in the symbol table.
struct FileEntry {
    /// The file-level scope ID.
    root_scope: ScopeId,
    /// All scope IDs created for this file.
    scope_ids: Vec<ScopeId>,
    /// All symbol IDs created for this file.
    symbol_ids: Vec<SymbolId>,
}

/// The symbol table for a Circom project.
pub struct SymbolTable {
    /// All symbols, indexed by their ID.
    symbols: Vec<Symbol>,
    /// The scope tree.
    pub scopes: ScopeTree,
    /// Per-file tracking: file path, its file scope, and every scope and
    /// symbol created for it. Each path occurs once.
    file_scopes: Vec<(String, FileEntry)>,
    /// Include graph: file path and the paths it includes. Each path
    /// occurs once.
    includes: Vec<(String, Vec<String>)>,
    /// Diagnostics collected during symbol collection.
    diagnostics: Vec<SymbolDiagnostic>,
}

/// The first entry of a keyed list whose key is `key`.
pub open spec fn key_index<T>(entries: Seq<(String, T)>, key: Seq<char>) -> Option<int>
    decreases entries.len(),
{
    if entries.len() == 0 {
        None
    } else {
        match key_index(entries.drop_last(), key) {
            Some(i) => Some(i),
            None => if entries.last().0@ == key {
                Some(entries.len() - 1)
            } else {
                None
            },
        }
    }
}

pub proof fn lemma_key_index<T>(entries: Seq<(String, T)>, key: Seq<char>)
    ensures
        key_index(entries, key) matches Some(i) ==> 0 <= i < entries.len() && entries[i].0@ == key
            && forall|j: int| 0 <= j < i ==> (#[trigger] entries[j]).0@ != key,
        key_index(entries, key) is None <==> forall|j: int| 0 <= j < entries.len() ==> (#[trigger] entries[j]).0@ != key,
    decreases entries.len(),
{
    if entries.len() > 0 {
        let d = entries.drop_last();
        lemma_key_index(d, key);
        assert forall|j: int| 0 <= j < d.len() implies #[trigger] entries[j] == d[j] by {}
    }
}

/// The position of the first entry keyed `key`.
fn find_key<T>(entries: &Vec<(String, T)>, key: &str) -> (r: Option<usize>)
    ensures
        r matches Some(i) ==> key_index(entries@, key@) == Some(i as int) && i < entries@.len() && entries@[i as int].0@ == key@,
        r is None ==> key_index(entries@, key@) is None,
{
    proof {
        lemma_key_index(entries@, key@);
    }
    let mut i: usize = 0;
    while i < entries.len()
        invariant
            i <= entries@.len(),
            forall|j: int| 0 <= j < i ==> (#[trigger] entries@[j]).0@ != key@,
            key_index(entries@, key@) matches Some(k) ==> 0 <= k < entries@.len() && entries@[k].0@ == key@
                && forall|j: int| 0 <= j < k ==> (#[trigger] entries@[j]).0@ != key@,
            key_index(entries@, key@) is None ==> forall|j: int| 0 <= j < entries@.len() ==> (#[trigger] entries@[j]).0@ != key@,
        decreases entries@.len() - i,
    {
        if string_eq(&entries[i].0, key) {
            return Some(i);
        }
        i += 1;
    }
    None
}

/// No two records of a keyed list share a key.
pub open spec fn keys_distinct<T>(l: Seq<(String, T)>) -> bool {
    forall|i: int, j: int| 0 <= i < j < l.len() ==> (#[trigger] l[i]).0@ != (#[trigger] l[j]).0@
}

/// Whether `list` holds a string equal to `s`.
pub open spec fn list_has(list: Seq<String>, s: Seq<char>) -> bool {
    exists|k: int| 0 <= k < list.len() && (#[trigger] list[k])@ == s
}

/// A list that keeps the items of `a` at their places holds all that
/// `a` holds.
proof fn lemma_list_grows(a: Seq<String>, b: Seq<String>)
    requires
        a.len() <= b.len(),
        forall|k: int| 0 <= k < a.len() ==> b[k] == a[k],
    ensures
        forall|x: Seq<char>| list_has(a, x) ==> list_has(b, x),
{
    assert forall|x: Seq<char>| list_has(a, x) implies list_has(b, x) by {
        let w = choose|w: int| 0 <= w < a.len() && (#[trigger] a[w])@ == x;
        assert(b[w] == a[w]);
    }
}

/// Every include target recorded in `list`, record by record.
pub open spec fn all_includes(list: Seq<(String, Vec<String>)>) -> Seq<String>
    decreases list.len(),
{
    if list.len() == 0 {
        Seq::empty()
    } else {
        all_includes(list.drop_last()) + list.last().1@
    }
}

proof fn lemma_in_all_includes(list: Seq<(String, Vec<String>)>, j: int, k: int)
    requires
        0 <= j < list.len(),
        0 <= k < list[j].1@.len(),
    ensures
        list_has(all_includes(list), list[j].1@[k]@),
    decreases list.len(),
{
    let a = all_includes(list.drop_last());
    if j == list.len() - 1 {
        assert(all_includes(list)[a.len() + k] == list[j].1@[k]);
    } else {
        lemma_in_all_includes(list.drop_last(), j, k);
        let m = choose|m: int| 0 <= m < a.len() && (#[trigger] a[m])@ == list[j].1@[k]@;
        assert(all_includes(list)[m] == a[m]);
    }
}

/// A duplicate-free sequence whose items all occur in `fs` is no longer
/// than `fs`.
proof fn lemma_distinct_within(vs: Seq<Seq<char>>, fs: Seq<Seq<char>>)
    requires
        forall|i: int, j: int| 0 <= i < j < vs.len() ==> vs[i] != vs[j],
        forall|k: int| 0 <= k < vs.len() ==> fs.contains(vs[k]),
    ensures
        vs.len() <= fs.len(),
    decreases vs.len(),
{
    if vs.len() > 0 {
        let x = vs.last();
        let m = choose|m: int| 0 <= m < fs.len() && fs[m] == x;
        let fs2 = fs.remove(m);
        let vs2 = vs.drop_last();
        assert forall|k: int| 0 <= k < vs2.len() implies fs2.contains(vs2[k]) by {
            let w = choose|w: int| 0 <= w < fs.len() && fs[w] == vs[k];
            assert(vs[k] != x);
            assert(w != m);
            if w < m {
                assert(fs2[w] == fs[w]);
            } else {
                assert(fs2[w - 1] == fs[w]);
            }
        }
        lemma_distinct_within(vs2, fs2);
    }
}

/// Whether `list` holds `s`.
fn contains_str(list: &Vec<String>, s: &str) -> (r: bool)
    ensures
        r == list_has(list@, s@),
{
    let mut i: usize = 0;
    while i < list.len()
        invariant
            i <= list@.len(),
            forall|k: int| 0 <= k < i ==> (#[trigger] list@[k])@ != s@,
        decreases list@.len() - i,
    {
        if string_eq(&list[i], s) {
            return true;
        }
        i += 1;
    }
    false
}

/// A copy of a string.
fn copy(s: &str) -> (r: String)
    ensures
        r@ == s@,
{
    String::from_str(s)
}

/// The names of a list of identifiers.
fn ident_names(ids: &Vec<Identifier>) -> (r: Vec<String>)
    ensures
        r@.len() == ids@.len(),
        forall|k: int| 0 <= k < ids@.len() ==> (#[trigger] r@[k])@ == ids@[k].name@,
{
    let mut r: Vec<String> = Vec::new();
    let mut i: usize = 0;
    while i < ids.len()
        invariant
            i <= ids@.len(),
            r@.len() == i,
            forall|k: int| 0 <= k < i ==> (#[trigger] r@[k])@ == ids@[k].name@,
        decreases ids@.len() - i,
    {
        r.push(copy(ids[i].name.as_str()));
        i += 1;
    }
    r
}

/// The scopes and symbols that a file entry records exist.
spec fn entry_ok(e: FileEntry, n_scopes: nat, n_symbols: nat) -> bool {
    &&& e.root_scope.0 < n_scopes
    &&& forall|k: int| 0 <= k < e.scope_ids@.len() ==> (#[trigger] e.scope_ids@[k]).0 < n_scopes
    &&& forall|k: int| 0 <= k < e.symbol_ids@.len() ==> (#[trigger] e.symbol_ids@[k]).0 < n_symbols
}

/// The walk state while the symbols of one file are collected.
struct Collect {
    file: String,
    current_scope: ScopeId,
    file_scope_ids: Vec<ScopeId>,
    file_symbol_ids: Vec<SymbolId>,
}

impl SymbolTable {
    /// All symbols, indexed by their ID.
    pub closed spec fn symbols(self) -> Seq<Symbol> {
        self.symbols@
    }

    /// The file scope of a file, if it was indexed.
    pub closed spec fn file_root(self, path: Seq<char>) -> Option<ScopeId> {
        match key_index(self.file_scopes@, path) {
            Some(i) => Some(self.file_scopes@[i].1.root_scope),
            None => None,
        }
    }

    /// The symbols recorded for a file, in the order they were defined
    /// (none when the file was not indexed).
    pub closed spec fn file_symbol_ids(self, path: Seq<char>) -> Seq<SymbolId> {
        match key_index(self.file_scopes@, path) {
            Some(i) => self.file_scopes@[i].1.symbol_ids@,
            None => Seq::empty(),
        }
    }

    /// The diagnostics collected so far.
    pub closed spec fn diags(self) -> Seq<SymbolDiagnostic> {
        self.diagnostics@
    }

    /// The include graph: each indexed file and the files it includes.
    pub closed spec fn include_list(self) -> Seq<(String, Vec<String>)> {
        self.includes@
    }

    /// The scopes of the table, indexed by their ids.
    pub closed spec fn scope_seq(self) -> Seq<Scope> {
        self.scopes.scopes()
    }

    /// The symbols that the scope with index `i` binds to `n`.
    pub open spec fn bound_in(self, i: int, n: Seq<char>) -> Option<Seq<SymbolId>> {
        self.scope_seq()[i].bound(n)
    }

    /// Every symbol bound in a scope exists and carries the name it is
    /// bound to; every scope and symbol recorded for a file exists.
    pub closed spec fn wf(self) -> bool {
        &&& self.scopes.wf()
        &&& self.symbols@.len() <= u32::MAX
        &&& keys_distinct(self.includes@)
        &&& forall|i: int, n: Seq<char>, k: int|
            #![trigger self.bound_in(i, n), self.bound_in(i, n)->0[k]]
            0 <= i < self.scopes.scopes().len() && self.bound_in(i, n) is Some && 0 <= k < self.bound_in(i, n)->0.len()
                ==> self.bound_in(i, n)->0[k].0 < self.symbols@.len()
                && self.symbols@[self.bound_in(i, n)->0[k].0 as int].name@ == n
        &&& forall|j: int| 0 <= j < self.file_scopes@.len() ==> entry_ok(
            (#[trigger] self.file_scopes@[j]).1,
            self.scopes.scopes().len(),
            self.symbols@.len(),
        )
    }

    /// The symbols bound in a scope exist and carry the name they are
    /// bound to.
    pub proof fn lemma_ids_valid(self, i: int, n: Seq<char>)
        requires
            self.wf(),
            0 <= i < self.scope_seq().len(),
        ensures
            self.bound_in(i, n) matches Some(ids) ==> forall|k: int| 0 <= k < ids.len() ==> {
                &&& (#[trigger] ids[k]).0 < self.symbols().len()
                &&& self.symbols()[ids[k].0 as int].name@ == n
            },
    {
        match self.bound_in(i, n) {
            Some(ids) => {
                assert forall|k: int| 0 <= k < ids.len() implies {
                    &&& (#[trigger] ids[k]).0 < self.symbols().len()
                    &&& self.symbols()[ids[k].0 as int].name@ == n
                } by {
                    assert(self.bound_in(i, n)->0[k] == ids[k]);
                }
            },
            None => {},
        }
    }

    /// The scope tree of the table.
    pub fn scope_tree(&self) -> (t: &ScopeTree)
        ensures
            t.scopes() == self.scope_seq(),
            self.wf() ==> t.wf(),
    {
        &self.scopes
    }

    /// Create a new empty symbol table.
    pub fn new() -> (t: SymbolTable)
        ensures
            t.wf(),
            t.symbols() == Seq::<Symbol>::empty(),
            forall|p: Seq<char>| t.file_root(p) is None,
    {
        let t = SymbolTable {
            symbols: Vec::new(),
            scopes: ScopeTree::new(),
            file_scopes: Vec::new(),
            includes: Vec::new(),
            diagnostics: Vec::new(),
        };
        t
    }

    /// Get a symbol by its ID.
    pub fn get_symbol(&self, id: SymbolId) -> (s: &Symbol)
        requires
            id.0 < self.symbols().len(),
        ensures
            *s == self.symbols()[id.0 as int],
    {
        &self.symbols[id.0 as usize]
    }

    /// Look up a simple name from a given scope, walking up the scope chain.
    pub fn lookup(&self, scope: ScopeId, name: &str) -> (r: Option<&Symbol>)
        requires
            self.wf(),
        ensures
            r matches Some(s) ==> chain_lookup(self.scope_seq(), scope.0 as int, name@) matches Some((sid, ids))
                && *s == self.symbols()[ids[0].0 as int] && s.name@ == name@,
            r is None ==> chain_lookup(self.scope_seq(), scope.0 as int, name@) is None,
    {
        match self.scopes.lookup(scope, name) {
            Some((sid, ids)) => {
                proof {
                    self.scopes.lemma_wf();
                    lemma_chain_lookup_bound(self.scope_seq(), scope.0 as int, name@);
                    assert(self.bound_in(sid.0 as int, name@) == Some(ids@));
                    assert(self.bound_in(sid.0 as int, name@)->0[0] == ids@[0]);
                }
                Some(&self.symbols[ids[0].0 as usize])
            },
            None => None,
        }
    }

    /// The first symbol bound to `name` in the file scope of `file`.
    fn lookup_in_file_root(&self, file: &str, name: &str) -> (r: Option<&Symbol>)
        requires
            self.wf(),
        ensures
            r matches Some(s) ==> s.name@ == name@,
            r matches Some(s) ==> self.root_binding(file@, name@) == Some(*s),
            r is None ==> self.root_binding(file@, name@) is None,
    {
        match find_key(&self.file_scopes, file) {
            Some(j) => {
                let root = self.file_scopes[j].1.root_scope;
                match self.scopes.lookup_local(root, name) {
                    Some(ids) => {
                        proof {
                            assert(self.bound_in(root.0 as int, name@) == Some(ids@));
                            assert(self.bound_in(root.0 as int, name@)->0[0] == ids@[0]);
                        }
                        Some(&self.symbols[ids[0].0 as usize])
                    },
                    None => None,
                }
            },
            None => None,
        }
    }

    /// The symbol first bound to `name` in the file scope of `file`.
    pub open spec fn root_binding(self, file: Seq<char>, name: Seq<char>) -> Option<Symbol> {
        match self.file_root(file) {
            Some(root) => match self.bound_in(root.0 as int, name) {
                Some(ids) => Some(self.symbols()[ids[0].0 as int]),
                None => None,
            },
            None => None,
        }
    }

    /// The files `file` includes directly (none when it has no include
    /// record).
    pub open spec fn direct_includes(self, file: Seq<char>) -> Seq<String> {
        match key_index(self.include_list(), file) {
            Some(j) => self.include_list()[j].1@,
            None => Seq::empty(),
        }
    }

    /// `p` is a walk of the include graph: each file includes the next.
    pub open spec fn is_include_path(self, p: Seq<Seq<char>>) -> bool {
        forall|i: int| 0 <= i < p.len() - 1 ==> list_has(self.direct_includes(#[trigger] p[i]), p[i + 1])
    }

    /// `to` can be reached from `from` by following includes.
    pub open spec fn reaches(self, from: Seq<char>, to: Seq<char>) -> bool {
        exists|p: Seq<Seq<char>>| #![trigger self.is_include_path(p)]
            p.len() > 0 && p[0] == from && p.last() == to && self.is_include_path(p)
    }

    /// The files reached from `file_path` through includes, other than
    /// `file_path` itself, breadth first, each once.
    fn bfs_files(&self, file_path: &str) -> (q: Vec<String>)
        ensures
            forall|i: int, j: int| 0 <= i < j < q@.len() ==> (#[trigger] q@[i])@ != (#[trigger] q@[j])@,
            forall|x: Seq<char>| list_has(q@, x) <==> (x != file_path@ && self.reaches(file_path@, x)),
            self.breadth_first(file_path@, q@),
    {
        let mut visited: Vec<String> = Vec::new();
        visited.push(copy(file_path));
        let mut queue: Vec<String> = Vec::new();
        let ghost fp = file_path@;
        proof {
            assert(visited@.len() == 1);
            let p = seq![fp];
            assert(self.is_include_path(p));
        }
        self.enqueue_new(file_path, Ghost(fp), &mut visited, &mut queue);
        let ghost mut par: Seq<int> = Seq::new(queue@.len(), |m: int| -1int);
        assert(self.bfs_parents(fp, queue@, par));
        let bound = self.include_bound();
        let mut head: usize = 0;
        while head < queue.len() && head < bound
            invariant
                head <= queue@.len(),
                self.bfs_parents(fp, queue@, par),
                forall|m: int| 0 <= m < par.len() ==> #[trigger] par[m] < head,
                bound == usize::MAX || bound > all_includes(self.include_list()).len(),
                self.bfs_state(fp, visited@, queue@),
                forall|x: Seq<char>| list_has(self.direct_includes(fp), x) ==> list_has(visited@, x),
                forall|j: int, x: Seq<char>|
                    0 <= j < head && #[trigger] list_has(self.direct_includes(queue@[j]@), x) ==> list_has(visited@, x),
            decreases bound - head,
        {
            let current = copy(queue[head].as_str());
            proof {
                self.lemma_queue_reaches(fp, queue@, head as int);
            }
            let ghost v0 = visited@;
            let ghost q0 = queue@;
            self.enqueue_new(current.as_str(), Ghost(fp), &mut visited, &mut queue);
            proof {
                let h = head as int;
                let par2 = par + Seq::new((queue@.len() - q0.len()) as nat, |m: int| h);
                assert forall|i: int| -1 <= i < q0.len() implies bfs_node(fp, queue@, i) == bfs_node(fp, q0, i) by {
                    if i >= 0 {
                        assert(queue@[i] == q0[i]);
                    }
                }
                assert(bfs_node(fp, queue@, h) == current@);
                assert(self.bfs_parents(fp, queue@, par2)) by {
                    assert forall|j: int| 0 <= j < queue@.len() implies -1 <= #[trigger] par2[j] < j by {
                        if j < q0.len() {
                            assert(par2[j] == par[j]);
                        }
                    }
                    assert forall|i: int, j: int| 0 <= i < j < queue@.len() implies #[trigger] par2[i] <= #[trigger] par2[j] by {
                        if j < q0.len() {
                            assert(par2[i] == par[i] && par2[j] == par[j]);
                        } else if i < q0.len() {
                            assert(par2[i] == par[i]);
                            assert(par[i] < head);
                        }
                    }
                    assert forall|j: int| 0 <= j < queue@.len() implies list_has(
                        self.direct_includes(bfs_node(fp, queue@, #[trigger] par2[j])),
                        queue@[j]@,
                    ) by {
                        if j < q0.len() {
                            assert(par2[j] == par[j]);
                            assert(queue@[j] == q0[j]);
                            assert(list_has(self.direct_includes(bfs_node(fp, q0, par[j])), q0[j]@));
                        } else {
                            assert(par2[j] == h);
                        }
                    }
                    assert forall|i: int, j: int| 0 <= j < queue@.len() && -1 <= i < par2[j] implies !list_has(
                        self.direct_includes(#[trigger] bfs_node(fp, queue@, i)),
                        #[trigger] queue@[j]@,
                    ) by {
                        if j < q0.len() {
                            assert(par2[j] == par[j]);
                            assert(queue@[j] == q0[j]);
                            assert(!list_has(self.direct_includes(bfs_node(fp, q0, i)), q0[j]@));
                        } else {
                            assert(par2[j] == h);
                            let x = queue@[j]@;
                            if list_has(self.direct_includes(bfs_node(fp, q0, i)), x) {
                                if i < 0 {
                                    assert(list_has(self.direct_includes(fp), x));
                                } else {
                                    assert(list_has(self.direct_includes(q0[i]@), x));
                                }
                                assert(list_has(v0, x));
                                let w = choose|w: int| 0 <= w < v0.len() && (#[trigger] v0[w])@ == x;
                                assert(visited@[w] == v0[w]);
                                assert(visited@[j + 1]@ == x);
                                assert(w < j + 1);
                            }
                        }
                    }
                }
                par = par2;
                lemma_list_grows(v0, visited@);
                assert forall|j: int, x: Seq<char>|
                    0 <= j < head + 1 && #[trigger] list_has(self.direct_includes(queue@[j]@), x) implies list_has(visited@, x) by {
                    assert(queue@[j] == q0[j]);
                    if j < head {
                        assert(list_has(v0, x));
                    }
                }
            }
            head += 1;
        }
        proof {
            self.lemma_queue_short(fp, visited@, queue@);
            assert(head == queue@.len());
            self.lemma_bfs_complete(fp, visited@, queue@);
            assert(self.bfs_parents(fp, queue@, par));
        }
        queue
    }

    /// `q` lists files in the order a breadth-first walk from `fp` meets
    /// them: each is included by the file it is found from (`fp`, or a file
    /// listed before it), no file before that one includes it, and files
    /// found from an earlier file come earlier.
    pub open spec fn breadth_first(self, fp: Seq<char>, q: Seq<String>) -> bool {
        exists|par: Seq<int>| self.bfs_parents(fp, q, par)
    }

    /// `par` gives, for each file of `q`, the position of the file it is
    /// found from (`-1` for `fp`), as a breadth-first walk finds them.
    pub open spec fn bfs_parents(self, fp: Seq<char>, q: Seq<String>, par: Seq<int>) -> bool {
        &&& par.len() == q.len()
        &&& forall|j: int| 0 <= j < q.len() ==> -1 <= #[trigger] par[j] < j
        &&& forall|i: int, j: int| 0 <= i < j < q.len() ==> #[trigger] par[i] <= #[trigger] par[j]
        &&& forall|j: int|
            0 <= j < q.len() ==> list_has(self.direct_includes(bfs_node(fp, q, #[trigger] par[j])), q[j]@)
        &&& forall|i: int, j: int|
            0 <= j < q.len() && -1 <= i < par[j] ==> !list_has(
                self.direct_includes(#[trigger] bfs_node(fp, q, i)),
                #[trigger] q[j]@,
            )
    }

    /// What the walk keeps: `visited` is `fp` and then the queue, with no
    /// name twice; each queued file is reached from `fp` and is in some
    /// include list.
    spec fn bfs_state(self, fp: Seq<char>, visited: Seq<String>, queue: Seq<String>) -> bool {
        &&& visited.len() == queue.len() + 1
        &&& visited[0]@ == fp
        &&& forall|k: int| 0 <= k < queue.len() ==> (#[trigger] queue[k])@ == visited[k + 1]@
        &&& forall|i: int, j: int| 0 <= i < j < visited.len() ==> (#[trigger] visited[i])@ != (#[trigger] visited[j])@
        &&& forall|k: int| 0 <= k < queue.len() ==> self.reaches(fp, (#[trigger] queue[k])@)
        &&& forall|k: int| 0 <= k < queue.len() ==> list_has(all_includes(self.include_list()), (#[trigger] queue[k])@)
    }

    proof fn lemma_queue_reaches(self, fp: Seq<char>, queue: Seq<String>, k: int)
        requires
            0 <= k < queue.len(),
            forall|j: int| 0 <= j < queue.len() ==> self.reaches(fp, (#[trigger] queue[j])@),
        ensures
            self.reaches(fp, queue[k]@),
    {
    }

    /// A duplicate-free queue of include targets is shorter than the
    /// bound.
    proof fn lemma_queue_short(self, fp: Seq<char>, visited: Seq<String>, queue: Seq<String>)
        requires
            self.bfs_state(fp, visited, queue),
        ensures
            queue.len() <= all_includes(self.include_list()).len(),
    {
        let vs = queue.map_values(|s: String| s@);
        let fs = all_includes(self.include_list()).map_values(|s: String| s@);
        assert forall|i: int, j: int| 0 <= i < j < vs.len() implies vs[i] != vs[j] by {
            assert(queue[i]@ == visited[i + 1]@);
            assert(queue[j]@ == visited[j + 1]@);
        }
        assert forall|k: int| 0 <= k < vs.len() implies fs.contains(vs[k]) by {
            let m = choose|m: int| 0 <= m < all_includes(self.include_list()).len() && (#[trigger] all_includes(self.include_list())[m])@ == queue[k]@;
            assert(fs[m] == vs[k]);
        }
        lemma_distinct_within(vs, fs);
    }

    /// After the walk, every file reached from `fp` other than `fp` is
    /// queued.
    proof fn lemma_bfs_complete(self, fp: Seq<char>, visited: Seq<String>, queue: Seq<String>)
        requires
            self.bfs_state(fp, visited, queue),
            forall|x: Seq<char>| list_has(self.direct_includes(fp), x) ==> list_has(visited, x),
            forall|j: int, x: Seq<char>|
                0 <= j < queue.len() && #[trigger] list_has(self.direct_includes(queue[j]@), x) ==> list_has(visited, x),
        ensures
            forall|x: Seq<char>| list_has(queue, x) <==> (x != fp && self.reaches(fp, x)),
    {
        assert forall|x: Seq<char>| list_has(queue, x) implies x != fp && self.reaches(fp, x) by {
            let k = choose|k: int| 0 <= k < queue.len() && (#[trigger] queue[k])@ == x;
            assert(queue[k]@ == visited[k + 1]@);
            assert(visited[0]@ != visited[k + 1]@);
        }
        assert forall|x: Seq<char>| x != fp && self.reaches(fp, x) implies list_has(queue, x) by {
            let p = choose|p: Seq<Seq<char>>| #![trigger self.is_include_path(p)]
                p.len() > 0 && p[0] == fp && p.last() == x && self.is_include_path(p);
            self.lemma_path_visited(fp, visited, queue, p, p.len() - 1);
            let m = choose|m: int| 0 <= m < visited.len() && (#[trigger] visited[m])@ == x;
            assert(m != 0);
            assert(queue[m - 1]@ == x);
        }
    }

    /// Every file on an include walk from `fp` is visited.
    proof fn lemma_path_visited(self, fp: Seq<char>, visited: Seq<String>, queue: Seq<String>, p: Seq<Seq<char>>, i: int)
        requires
            self.bfs_state(fp, visited, queue),
            forall|x: Seq<char>| list_has(self.direct_includes(fp), x) ==> list_has(visited, x),
            forall|j: int, x: Seq<char>|
                0 <= j < queue.len() && #[trigger] list_has(self.direct_includes(queue[j]@), x) ==> list_has(visited, x),
            p.len() > 0,
            p[0] == fp,
            self.is_include_path(p),
            0 <= i < p.len(),
        ensures
            list_has(visited, p[i]),
        decreases i,
    {
        if i == 0 {
            assert(visited[0]@ == p[0]);
        } else {
            self.lemma_path_visited(fp, visited, queue, p, i - 1);
            assert(list_has(self.direct_includes(p[i - 1]), p[i]));
            let m = choose|m: int| 0 <= m < visited.len() && (#[trigger] visited[m])@ == p[i - 1];
            if m > 0 {
                assert(queue[m - 1]@ == p[i - 1]);
                assert(list_has(self.direct_includes(queue[m - 1]@), p[i]));
            }
        }
    }

    /// The include list recorded for `file`, if any.
    fn includes_of(&self, file: &str) -> (r: Option<&Vec<String>>)
        ensures
            match key_index(self.include_list(), file@) {
                Some(j) => r matches Some(l) && l@ == self.include_list()[j].1@,
                None => r is None,
            },
    {
        match find_key(&self.includes, file) {
            Some(j) => Some(&self.includes[j].1),
            None => None,
        }
    }

    /// The number of include edges, plus one: a bound on how many files
    /// a walk of the include graph can meet.
    fn include_bound(&self) -> (n: usize)
        ensures
            n == usize::MAX || n > all_includes(self.include_list()).len(),
    {
        let mut n: usize = 1;
        let mut i: usize = 0;
        while i < self.includes.len()
            invariant
                i <= self.includes@.len(),
                n == usize::MAX || n > all_includes(self.includes@.take(i as int)).len(),
            decreases self.includes@.len() - i,
        {
            assert(self.includes@.take(i + 1).drop_last() == self.includes@.take(i as int));
            n = n.saturating_add(self.includes[i].1.len());
            n = n.saturating_add(1);
            i += 1;
        }
        assert(self.includes@.take(i as int) == self.includes@);
        n
    }

    /// Look up a simple name from a given scope, also searching included
    /// files transitively (breadth-first over the include graph): the
    /// scope chain first, then the file scope of each file reached
    /// through includes.
    pub fn lookup_with_includes(&self, scope: ScopeId, name: &str, file_path: &str) -> (r: Option<&Symbol>)
        requires
            self.wf(),
        ensures
            chain_lookup(self.scope_seq(), scope.0 as int, name@) matches Some((sid, ids)) ==> r == Some(
                &self.symbols()[ids[0].0 as int],
            ),
            r matches Some(s) ==> s.name@ == name@,
            chain_lookup(self.scope_seq(), scope.0 as int, name@) is None ==> (r matches Some(s) ==> exists|f: Seq<char>|
                f != file_path@ && self.reaches(file_path@, f) && self.root_binding(f, name@) == Some(*s)),
            r is None ==> forall|f: Seq<char>|
                f != file_path@ && #[trigger] self.reaches(file_path@, f) ==> self.root_binding(f, name@) is None,
            chain_lookup(self.scope_seq(), scope.0 as int, name@) is None ==> (r matches Some(s) ==> exists|
                q: Seq<String>,
                k: int,
            |
                #![trigger self.breadth_first(file_path@, q), q[k]]
                self.breadth_first(file_path@, q) && (forall|x: Seq<char>|
                    list_has(q, x) <==> (x != file_path@ && self.reaches(file_path@, x))) && 0 <= k < q.len()
                    && self.root_binding(q[k]@, name@) == Some(*s) && forall|m: int|
                    0 <= m < k ==> self.root_binding((#[trigger] q[m])@, name@) is None),
    {
        // First try the local scope chain.
        match self.lookup(scope, name) {
            Some(sym) => {
                return Some(sym);
            },
            None => {},
        }
        // Then the file scopes of the included files, breadth first.
        let files = self.bfs_files(file_path);
        let mut k: usize = 0;
        while k < files.len()
            invariant
                self.wf(),
                k <= files@.len(),
                chain_lookup(self.scope_seq(), scope.0 as int, name@) is None,
                forall|x: Seq<char>| list_has(files@, x) <==> (x != file_path@ && self.reaches(file_path@, x)),
                forall|m: int| 0 <= m < k ==> self.root_binding((#[trigger] files@[m])@, name@) is None,
                self.breadth_first(file_path@, files@),
            decreases files@.len() - k,
        {
            match self.lookup_in_file_root(files[k].as_str(), name) {
                Some(sym) => {
                    proof {
                        let f = files@[k as int]@;
                        assert(list_has(files@, f));
                        assert(f != file_path@ && self.reaches(file_path@, f) && self.root_binding(f, name@) == Some(*sym));
                        assert(self.breadth_first(file_path@, files@));
                        let q = files@;
                        let kk = k as int;
                        assert(q[kk]@ == f);
                    }
                    return Some(sym);
                },
                None => {},
            }
            k += 1;
        }
        proof {
            assert forall|f: Seq<char>| f != file_path@ && #[trigger] self.reaches(file_path@, f) implies self.root_binding(
                f,
                name@,
            ) is None by {
                assert(list_has(files@, f));
                let m = choose|m: int| 0 <= m < files@.len() && (#[trigger] files@[m])@ == f;
            }
        }
        None
    }

    /// The symbol that the scope chain from `scope` binds to `name`,
    /// without looking into included files.
    pub open spec fn chain_symbol(self, scope: int, name: Seq<char>) -> Option<Symbol> {
        match chain_lookup(self.scope_seq(), scope, name) {
            Some((sid, ids)) => Some(self.symbols()[ids[0].0 as int]),
            None => None,
        }
    }

    /// The type named by `sym` whose body holds its members: a
    /// component's template or a signal's bus.
    pub open spec fn member_type(sym: Symbol) -> Option<Seq<char>> {
        match sym.kind {
            SymbolKind::Component(c) => match c.template_name {
                Some(n) => Some(n@),
                None => None,
            },
            SymbolKind::Signal(sig) => match sig.bus_type {
                Some(n) => Some(n@),
                None => None,
            },
            _ => None,
        }
    }

    /// The member scope that `ty`, found for the type of `holder`, gives:
    /// a template's body for a component, a bus's body for a signal.
    pub open spec fn typed_body(holder: Symbol, ty: Symbol) -> Option<ScopeId> {
        match (holder.kind, ty.kind) {
            (SymbolKind::Component(_), SymbolKind::Template(t)) => Some(t.body_scope),
            (SymbolKind::Signal(_), SymbolKind::Bus(b)) => Some(b.body_scope),
            _ => None,
        }
    }

    /// Whether the members of `sym` are found without included files:
    /// it names no type, or the scope chain binds the type it names.
    pub open spec fn member_in_chain(self, scope: int, sym: Symbol) -> bool {
        match Self::member_type(sym) {
            Some(n) => chain_lookup(self.scope_seq(), scope, n) is Some,
            None => true,
        }
    }

    /// The scope holding the members of `sym` when its type is found
    /// through the scope chain: a template's or a bus's own body, the
    /// body of a component's template or of a signal's bus.
    pub open spec fn chain_member(self, scope: int, sym: Symbol) -> Option<ScopeId> {
        match sym.kind {
            SymbolKind::Template(t) => Some(t.body_scope),
            SymbolKind::Bus(b) => Some(b.body_scope),
            _ => match Self::member_type(sym) {
                Some(n) => match self.chain_symbol(scope, n) {
                    Some(ty) => Self::typed_body(sym, ty),
                    None => None,
                },
                None => None,
            },
        }
    }

    /// The body scope through which the segment after `current` is
    /// resolved: a component's template, a template, a bus, or the bus
    /// of a bus-typed signal.
    fn member_scope(&self, scope: ScopeId, current: &Symbol, file_path: &str) -> (r: Option<ScopeId>)
        requires
            self.wf(),
        ensures
            self.member_in_chain(scope.0 as int, *current) ==> r == self.chain_member(scope.0 as int, *current),
            !self.member_in_chain(scope.0 as int, *current) ==> (r matches Some(b) ==> exists|f: Seq<char>, ty: Symbol|
                f != file_path@ && self.reaches(file_path@, f) && self.root_binding(
                    f,
                    Self::member_type(*current)->0,
                ) == Some(ty) && Self::typed_body(*current, ty) == Some(b)),
            !self.member_in_chain(scope.0 as int, *current) && (forall|f: Seq<char>|
                f != file_path@ && #[trigger] self.reaches(file_path@, f) ==> self.root_binding(
                    f,
                    Self::member_type(*current)->0,
                ) is None) ==> r is None,
    {
        match &current.kind {
            SymbolKind::Component(comp) => {
                // Look up the component's template, then find its body scope.
                match &comp.template_name {
                    Some(tmpl_name) => match self.lookup_with_includes(scope, tmpl_name.as_str(), file_path) {
                        Some(tmpl) => match &tmpl.kind {
                            SymbolKind::Template(t) => {
                                proof {
                                    if chain_lookup(self.scope_seq(), scope.0 as int, tmpl_name@) is None {
                                        let f = choose|f: Seq<char>|
                                            f != file_path@ && self.reaches(file_path@, f) && self.root_binding(
                                                f,
                                                tmpl_name@,
                                            ) == Some(*tmpl);
                                        assert(Self::typed_body(*current, *tmpl) == Some(t.body_scope));
                                    }
                                }
                                Some(t.body_scope)
                            },
                            _ => None,
                        },
                        None => None,
                    },
                    None => None,
                }
            },
            SymbolKind::Template(t) => Some(t.body_scope),
            SymbolKind::Bus(b) => Some(b.body_scope),
            // A bus-typed signal (`signal input Point() p`) lets the
            // caller drill into the bus's fields via dot notation:
            // `p.x` resolves through the bus's body scope.
            SymbolKind::Signal(sig) => match &sig.bus_type {
                Some(bus_name) => match self.lookup_with_includes(scope, bus_name.as_str(), file_path) {
                    Some(bus) => match &bus.kind {
                        SymbolKind::Bus(b) => {
                            proof {
                                if chain_lookup(self.scope_seq(), scope.0 as int, bus_name@) is None {
                                    let f = choose|f: Seq<char>|
                                        f != file_path@ && self.reaches(file_path@, f) && self.root_binding(
                                            f,
                                            bus_name@,
                                        ) == Some(*bus);
                                    assert(Self::typed_body(*current, *bus) == Some(b.body_scope));
                                }
                            }
                            Some(b.body_scope)
                        },
                        _ => None,
                    },
                    None => None,
                },
                None => None,
            },
            _ => None,
        }
    }

    /// The symbol that the first `n` segments of `parts` name when every
    /// type on the way is found through the scope chain of `scope`: the
    /// first segment is looked up there, each next one in the member
    /// scope of the symbol before it.
    pub open spec fn chain_resolve(self, scope: int, parts: Seq<Seq<char>>, n: nat) -> Option<Symbol>
        decreases n,
    {
        if n == 0 {
            None
        } else if n == 1 {
            self.chain_symbol(scope, parts[0])
        } else {
            match self.chain_resolve(scope, parts, (n - 1) as nat) {
                Some(cur) => match self.chain_member(scope, cur) {
                    Some(b) => if b.0 < self.scope_seq().len() {
                        match self.bound_in(b.0 as int, parts[n - 1]) {
                            Some(ids) => Some(self.symbols()[ids[0].0 as int]),
                            None => None,
                        }
                    } else {
                        None
                    },
                    None => None,
                },
                None => None,
            }
        }
    }

    /// Whether resolving the first `n` segments of `parts` needs no
    /// included file: the scope chain binds the first segment, and the
    /// type of each symbol met on the way is found through the chain.
    pub open spec fn resolves_in_chain(self, scope: int, parts: Seq<Seq<char>>, n: nat) -> bool
        decreases n,
    {
        if n == 0 {
            true
        } else if n == 1 {
            chain_lookup(self.scope_seq(), scope, parts[0]) is Some
        } else {
            self.resolves_in_chain(scope, parts, (n - 1) as nat) && (self.chain_resolve(
                scope,
                parts,
                (n - 1) as nat,
            ) matches Some(cur) ==> self.member_in_chain(scope, cur))
        }
    }

    /// A resolution through the chain covers each shorter prefix, and
    /// once a prefix names nothing, no longer one does.
    proof fn lemma_chain_prefix(self, scope: int, parts: Seq<Seq<char>>, k: nat, n: nat)
        requires
            1 <= k <= n,
        ensures
            self.resolves_in_chain(scope, parts, n) ==> self.resolves_in_chain(scope, parts, k),
            self.chain_resolve(scope, parts, k) is None ==> self.chain_resolve(scope, parts, n) is None,
        decreases n - k,
    {
        if k < n {
            self.lemma_chain_prefix(scope, parts, k, (n - 1) as nat);
        }
    }

    /// Resolve a qualified name like `component.signal` or `bus.field`.
    ///
    /// The first segment is looked up in the scope chain, subsequent
    /// segments are looked up in the body scope of the resolved symbol
    /// (template or bus).
    pub fn resolve_qualified(&self, scope: ScopeId, parts: &[&str], file_path: &str) -> (r: Option<&Symbol>)
        requires
            self.wf(),
        ensures
            parts@.len() == 0 ==> r is None,
            r matches Some(s) ==> s.name@ == parts@.last()@,
            ({
                let ps = parts@.map_values(|p: &str| p@);
                self.resolves_in_chain(scope.0 as int, ps, ps.len()) ==> match r {
                    Some(s) => self.chain_resolve(scope.0 as int, ps, ps.len()) == Some(*s),
                    None => self.chain_resolve(scope.0 as int, ps, ps.len()) is None,
                }
            }),
    {
        let ghost ps = parts@.map_values(|p: &str| p@);
        let ghost sc = scope.0 as int;
        if parts.len() == 0 {
            return None;
        }
        let mut current = match self.lookup_with_includes(scope, parts[0], file_path) {
            Some(s) => s,
            None => {
                proof {
                    self.lemma_chain_prefix(sc, ps, 1, ps.len());
                }
                return None;
            },
        };
        let mut i: usize = 1;
        while i < parts.len()
            invariant
                self.wf(),
                1 <= i <= parts@.len(),
                ps == parts@.map_values(|p: &str| p@),
                sc == scope.0 as int,
                current.name@ == parts@[i - 1]@,
                self.resolves_in_chain(sc, ps, i as nat) ==> self.chain_resolve(sc, ps, i as nat) == Some(*current),
            decreases parts@.len() - i,
        {
            proof {
                self.lemma_chain_prefix(sc, ps, (i + 1) as nat, ps.len());
                self.lemma_chain_prefix(sc, ps, i as nat, (i + 1) as nat);
                assert(ps[i as int] == parts@[i as int]@);
            }
            let body_scope = match self.member_scope(scope, current, file_path) {
                Some(b) => b,
                None => {
                    return None;
                },
            };
            if body_scope.0 as usize >= self.scopes.len() {
                return None;
            }
            match self.scopes.lookup_local(body_scope, parts[i]) {
                Some(ids) => {
                    proof {
                        assert(self.bound_in(body_scope.0 as int, parts@[i as int]@) == Some(ids@));
                        assert(self.bound_in(body_scope.0 as int, parts@[i as int]@)->0[0] == ids@[0]);
                    }
                    current = &self.symbols[ids[0].0 as usize];
                },
                None => {
                    return None;
                },
            }
            i += 1;
        }
        Some(current)
    }

    /// Get the full transitive include closure for a file (breadth-first),
    /// without the file itself: each file reached through includes,
    /// once.
    pub fn transitive_includes(&self, file_path: &str) -> (r: Vec<String>)
        ensures
            forall|i: int, j: int| 0 <= i < j < r@.len() ==> (#[trigger] r@[i])@ != (#[trigger] r@[j])@,
            forall|x: Seq<char>| list_has(r@, x) <==> (x != file_path@ && self.reaches(file_path@, x)),
            self.breadth_first(file_path@, r@),
    {
        self.bfs_files(file_path)
    }

    /// Append to `queue` (and `visited`) each file that `from` includes
    /// and that was not visited yet.
    fn enqueue_new(&self, from: &str, Ghost(fp): Ghost<Seq<char>>, visited: &mut Vec<String>, queue: &mut Vec<String>)
        requires
            self.bfs_state(fp, old(visited)@, old(queue)@),
            self.reaches(fp, from@),
        ensures
            self.bfs_state(fp, final(visited)@, final(queue)@),
            final(queue)@.len() >= old(queue)@.len(),
            forall|k: int| 0 <= k < old(queue)@.len() ==> final(queue)@[k] == old(queue)@[k],
            forall|k: int| 0 <= k < old(visited)@.len() ==> final(visited)@[k] == old(visited)@[k],
            forall|x: Seq<char>| list_has(self.direct_includes(from@), x) ==> list_has(final(visited)@, x),
            forall|m: int|
                old(queue)@.len() <= m < final(queue)@.len() ==> list_has(self.direct_includes(from@), (#[trigger] final(queue)@[m])@),
    {
        match self.includes_of(from) {
            Some(incs) => {
                let ghost j = key_index(self.include_list(), from@)->0;
                proof {
                    lemma_key_index(self.include_list(), from@);
                }
                let mut k: usize = 0;
                while k < incs.len()
                    invariant
                        k <= incs@.len(),
                        incs@ == self.direct_includes(from@),
                        0 <= j < self.include_list().len(),
                        incs@ == self.include_list()[j].1@,
                        self.reaches(fp, from@),
                        self.bfs_state(fp, visited@, queue@),
                        self.bfs_state(fp, old(visited)@, old(queue)@),
                        queue@.len() >= old(queue)@.len(),
                        forall|m: int| 0 <= m < old(queue)@.len() ==> queue@[m] == old(queue)@[m],
                        forall|m: int| 0 <= m < old(visited)@.len() ==> visited@[m] == old(visited)@[m],
                        forall|m: int| 0 <= m < k ==> list_has(visited@, (#[trigger] incs@[m])@),
                        forall|m: int|
                            old(queue)@.len() <= m < queue@.len() ==> list_has(incs@, (#[trigger] queue@[m])@),
                    decreases incs@.len() - k,
                {
                    if !contains_str(visited, incs[k].as_str()) {
                        let ghost v0 = visited@;
                        let ghost q0 = queue@;
                        let item = copy(incs[k].as_str());
                        let item2 = copy(incs[k].as_str());
                        visited.push(item);
                        queue.push(item2);
                        proof {
                            assert(forall|m: int| 0 <= m < v0.len() ==> visited@[m] == v0[m]);
                            assert(forall|m: int| 0 <= m < q0.len() ==> queue@[m] == q0[m]);
                            let x = incs@[k as int]@;
                            // `x` is reached: a walk to `from`, then one step.
                            let p = choose|p: Seq<Seq<char>>| #![trigger self.is_include_path(p)]
                                p.len() > 0 && p[0] == fp && p.last() == from@ && self.is_include_path(p);
                            let p2 = p.push(x);
                            assert(list_has(self.direct_includes(from@), x));
                            assert forall|i: int| 0 <= i < p2.len() - 1 implies list_has(
                                self.direct_includes(#[trigger] p2[i]),
                                p2[i + 1],
                            ) by {
                                if i < p.len() - 1 {
                                    assert(p2[i] == p[i] && p2[i + 1] == p[i + 1]);
                                }
                            }
                            assert(self.is_include_path(p2));
                            assert(self.reaches(fp, x));
                            lemma_in_all_includes(self.include_list(), j, k as int);
                            assert forall|i: int, i2: int| 0 <= i < i2 < visited@.len() implies (#[trigger] visited@[i])@
                                != (#[trigger] visited@[i2])@ by {
                                if i2 == visited@.len() - 1 {
                                    assert(visited@[i] == v0[i]);
                                }
                            }
                            assert forall|m: int| 0 <= m <= k implies list_has(visited@, (#[trigger] incs@[m])@) by {
                                if m < k {
                                    let w = choose|w: int| 0 <= w < v0.len() && (#[trigger] v0[w])@ == incs@[m]@;
                                    assert(visited@[w] == v0[w]);
                                } else {
                                    assert(visited@[visited@.len() - 1]@ == x);
                                }
                            }
                            assert forall|m: int| 0 <= m < queue@.len() implies self.reaches(fp, (#[trigger] queue@[m])@) by {
                                if m < q0.len() {
                                    assert(queue@[m] == q0[m]);
                                }
                            }
                            assert forall|m: int| 0 <= m < queue@.len() implies list_has(
                                all_includes(self.include_list()),
                                (#[trigger] queue@[m])@,
                            ) by {
                                if m < q0.len() {
                                    assert(queue@[m] == q0[m]);
                                }
                            }
                            assert forall|m: int|
                                old(queue)@.len() <= m < queue@.len() implies list_has(incs@, (#[trigger] queue@[m])@) by {
                                if m < q0.len() {
                                    assert(queue@[m] == q0[m]);
                                } else {
                                    assert(queue@[m]@ == incs@[k as int]@);
                                }
                            }
                        }
                    }
                    k += 1;
                }
            },
            None => {},
        }
    }

    /// Get the file-level scope for a file.
    pub fn file_scope(&self, file_path: &str) -> (r: Option<ScopeId>)
        ensures
            r == self.file_root(file_path@),
    {
        match find_key(&self.file_scopes, file_path) {
            Some(j) => Some(self.file_scopes[j].1.root_scope),
            None => None,
        }
    }

    /// Get all diagnostics.
    pub fn diagnostics(&self) -> (d: &[SymbolDiagnostic])
        ensures
            d@ == self.diags(),
    {
        self.diagnostics.as_slice()
    }

    /// Get all symbols in the table.
    pub fn all_symbols(&self) -> (s: &[Symbol])
        ensures
            s@ == self.symbols(),
    {
        self.symbols.as_slice()
    }

    /// Get all symbols recorded for a given file, in the order they were
    /// defined.
    pub fn file_symbols(&self, file_path: &str) -> (r: Vec<&Symbol>)
        requires
            self.wf(),
        ensures
            self.file_root(file_path@) is None ==> r@.len() == 0,
            forall|k: int| 0 <= k < r@.len() ==> self.symbols().contains(*(#[trigger] r@[k])),
            r@.len() == self.file_symbol_ids(file_path@).len(),
            forall|k: int|
                0 <= k < r@.len() ==> *(#[trigger] r@[k]) == self.symbols()[self.file_symbol_ids(file_path@)[k].0 as int],
    {
        match find_key(&self.file_scopes, file_path) {
            Some(j) => {
                let ids = &self.file_scopes[j].1.symbol_ids;
                let mut out: Vec<&Symbol> = Vec::new();
                let mut i: usize = 0;
                while i < ids.len()
                    invariant
                        self.wf(),
                        j < self.file_scopes@.len(),
                        ids@ == self.file_scopes@[j as int].1.symbol_ids@,
                        i <= ids@.len(),
                        forall|k: int| 0 <= k < out@.len() ==> self.symbols@.contains(*(#[trigger] out@[k])),
                        out@.len() == i,
                        forall|k: int| 0 <= k < i ==> *(#[trigger] out@[k]) == self.symbols@[ids@[k].0 as int],
                    decreases ids@.len() - i,
                {
                    let s = &self.symbols[ids[i].0 as usize];
                    out.push(s);
                    proof {
                        assert(self.symbols@[ids@[i as int].0 as int] == *s);
                    }
                    i += 1;
                }
                out
            },
            None => Vec::new(),
        }
    }

    /// Get the include list for a file.
    pub fn includes(&self, file_path: &str) -> (r: Option<&[String]>)
        ensures
            match key_index(self.include_list(), file_path@) {
                Some(j) => r matches Some(l) && l@ == self.include_list()[j].1@,
                None => r is None,
            },
    {
        match find_key(&self.includes, file_path) {
            Some(j) => Some(self.includes[j].1.as_slice()),
            None => None,
        }
    }

    /// Get files that include the given file (reverse lookup), in the
    /// order in which they were indexed.
    pub fn included_by(&self, file_path: &str) -> (r: Vec<String>)
        ensures
            views(r@) == includers(self.include_list(), file_path@),
            forall|j: int| 0 <= j < self.include_list().len() && list_has((#[trigger] self.include_list()[j]).1@, file_path@)
                ==> list_has(r@, self.include_list()[j].0@),
    {
        let mut out: Vec<String> = Vec::new();
        let mut i: usize = 0;
        assert(self.includes@.take(0) =~= Seq::<(String, Vec<String>)>::empty());
        assert(views(out@) =~= Seq::<Seq<char>>::empty());
        while i < self.includes.len()
            invariant
                i <= self.includes@.len(),
                views(out@) == includers(self.includes@.take(i as int), file_path@),
                forall|j: int| 0 <= j < i && list_has((#[trigger] self.includes@[j]).1@, file_path@)
                    ==> list_has(out@, self.includes@[j].0@),
            decreases self.includes@.len() - i,
        {
            let ghost before = out@;
            assert(self.includes@.take(i + 1).drop_last() =~= self.includes@.take(i as int));
            assert(self.includes@.take(i + 1).last() == self.includes@[i as int]);
            if contains_str(&self.includes[i].1, file_path) {
                out.push(copy(self.includes[i].0.as_str()));
                proof {
                    let last = out@.len() - 1;
                    assert(self.includes@[i as int].0@ == out@[last]@);
                    assert(views(out@) =~= views(before).push(self.includes@[i as int].0@));
                    assert forall|j: int| 0 <= j < i + 1 && list_has((#[trigger] self.includes@[j]).1@, file_path@)
                        implies list_has(out@, self.includes@[j].0@) by {
                        if j < i {
                            let m = choose|m: int| 0 <= m < before.len() && (#[trigger] before[m])@ == self.includes@[j].0@;
                            assert(out@[m] == before[m]);
                        } else {
                            assert(out@[last]@ == self.includes@[j].0@);
                        }
                    }
                }
            }
            i += 1;
        }
        assert(self.includes@.take(i as int) =~= self.includes@);
        out
    }

    /// Detect circular includes. Returns the cycle path if found: a list
    /// of files, each including the next, whose last entry is its first.
    /// `None` means the include graph has no cycle.
    pub fn detect_circular_includes(&self) -> (r: Option<Vec<String>>)
        ensures
            r matches Some(c) ==> c@.len() >= 2 && c@[0]@ == c@.last()@ && self.is_include_path(views(c@)),
            r is None ==> self.include_acyclic(),
    {
        let fuel = self.include_bound();
        let mut i: usize = 0;
        while i < self.includes.len()
            invariant
                i <= self.includes@.len(),
                fuel == usize::MAX || fuel > all_includes(self.include_list()).len(),
                forall|k: int, q: Seq<Seq<char>>|
                    0 <= k < i && 1 <= q.len() <= fuel + 1 && q[0] == self.includes@[k].0@ && self.is_include_path(q)
                        ==> !#[trigger] closes_at(k, Seq::<Seq<char>>::empty(), q),
            decreases self.includes@.len() - i,
        {
            let mut visiting: Vec<String> = Vec::new();
            let mut path: Vec<String> = Vec::new();
            assert(views(path@) =~= Seq::<Seq<char>>::empty());
            assert(views(visiting@) =~= Seq::<Seq<char>>::empty());
            match self.dfs_find_cycle(self.includes[i].0.as_str(), &mut visiting, &mut path, fuel) {
                Some(cycle) => {
                    return Some(cycle);
                },
                None => {},
            }
            proof {
                assert forall|k: int, q: Seq<Seq<char>>|
                    0 <= k < i + 1 && 1 <= q.len() <= fuel + 1 && q[0] == self.includes@[k].0@ && self.is_include_path(q)
                        implies !#[trigger] closes_at(k, Seq::<Seq<char>>::empty(), q) by {
                    if k == i {
                        assert(!closes(Seq::<Seq<char>>::empty(), q));
                    }
                }
            }
            i += 1;
        }
        proof {
            self.lemma_no_short_return_acyclic(fuel);
        }
        None
    }

    /// The include graph has no cycle: no walk of two files or more comes
    /// back to the file it started from.
    pub open spec fn include_acyclic(self) -> bool {
        forall|p: Seq<Seq<char>>|
            #![trigger self.is_include_path(p)]
            p.len() >= 2 && p[0] == p.last() ==> !self.is_include_path(p)
    }

    /// The first index from `m` on whose file occurs before it in `p`.
    proof fn lemma_find_repeat(p: Seq<Seq<char>>, m: int) -> (r: int)
        requires
            p.len() >= 2,
            p[0] == p.last(),
            1 <= m <= p.len() - 1,
            forall|j: int| 1 <= j < m ==> !p.subrange(0, j).contains(#[trigger] p[j]),
        ensures
            m <= r <= p.len() - 1,
            p.subrange(0, r).contains(p[r]),
            forall|j: int| 1 <= j < r ==> !p.subrange(0, j).contains(#[trigger] p[j]),
        decreases p.len() - m,
    {
        if p.subrange(0, m).contains(p[m]) {
            m
        } else if m == p.len() - 1 {
            assert(p.subrange(0, m)[0] == p[m]);
            m
        } else {
            Self::lemma_find_repeat(p, m + 1)
        }
    }

    /// A walk whose first `m` files are distinct and each include the next
    /// passes `m` files that have include records.
    proof fn lemma_distinct_keys(self, p: Seq<Seq<char>>, m: int)
        requires
            self.is_include_path(p),
            1 <= m <= p.len() - 1,
            forall|a: int, b: int| 0 <= a < b < m ==> p[a] != p[b],
        ensures
            m <= self.include_list().len(),
    {
        let list = self.include_list();
        let pre = p.subrange(0, m);
        let keys = list.map_values(|e: (String, Vec<String>)| e.0@);
        assert forall|j: int| 0 <= j < pre.len() implies keys.contains(pre[j]) by {
            assert(list_has(self.direct_includes(p[j]), p[j + 1]));
            lemma_key_index(list, p[j]);
            let ki = key_index(list, p[j])->0;
            assert(keys[ki] == p[j]);
        }
        assert forall|a: int, b: int| 0 <= a < b < pre.len() implies pre[a] != pre[b] by {
            assert(pre[a] == p[a] && pre[b] == p[b]);
        }
        lemma_distinct_within(pre, keys);
    }

    /// A walk whose first `m` files are distinct and each include the next
    /// meets `m - 1` distinct include targets after its first file.
    proof fn lemma_distinct_targets(self, p: Seq<Seq<char>>, m: int)
        requires
            self.is_include_path(p),
            1 <= m <= p.len() - 1,
            forall|a: int, b: int| 0 <= a < b < m ==> p[a] != p[b],
        ensures
            m - 1 <= all_includes(self.include_list()).len(),
    {
        let list = self.include_list();
        let tgt = p.subrange(1, m);
        let fs = views(all_includes(list));
        assert forall|j: int| 0 <= j < tgt.len() implies fs.contains(tgt[j]) by {
            assert(tgt[j] == p[j + 1]);
            assert(list_has(self.direct_includes(p[j]), p[j + 1]));
            lemma_key_index(list, p[j]);
            let ki = key_index(list, p[j])->0;
            let kk = choose|kk: int| 0 <= kk < list[ki].1@.len() && (#[trigger] list[ki].1@[kk])@ == p[j + 1];
            lemma_in_all_includes(list, ki, kk);
            let w = choose|w: int| 0 <= w < all_includes(list).len() && (#[trigger] all_includes(list)[w])@
                == list[ki].1@[kk]@;
            assert(fs[w] == tgt[j]);
        }
        assert forall|a: int, b: int| 0 <= a < b < tgt.len() implies tgt[a] != tgt[b] by {
            assert(tgt[a] == p[a + 1] && tgt[b] == p[b + 1]);
        }
        lemma_distinct_within(tgt, fs);
    }

    /// When no walk of at most `fuel` steps from a file with an include
    /// record comes back to a file it passed, the graph has no cycle.
    proof fn lemma_no_short_return_acyclic(self, fuel: usize)
        requires
            fuel == usize::MAX || fuel > all_includes(self.include_list()).len(),
            forall|k: int, q: Seq<Seq<char>>|
                0 <= k < self.includes@.len() && 1 <= q.len() <= fuel + 1 && q[0] == self.includes@[k].0@
                    && self.is_include_path(q) ==> !#[trigger] closes_at(k, Seq::<Seq<char>>::empty(), q),
        ensures
            self.include_acyclic(),
    {
        assert forall|p: Seq<Seq<char>>|
            #![trigger self.is_include_path(p)]
            p.len() >= 2 && p[0] == p.last() implies !self.is_include_path(p) by {
            if self.is_include_path(p) {
                self.lemma_short_return(p, fuel);
            }
        }
    }

    /// A cycle starts with a walk of at most `fuel` steps from a file with
    /// an include record back to a file it passed.
    proof fn lemma_short_return(self, p: Seq<Seq<char>>, fuel: usize)
        requires
            fuel == usize::MAX || fuel > all_includes(self.include_list()).len(),
            p.len() >= 2,
            p[0] == p.last(),
            self.is_include_path(p),
        ensures
            exists|k: int, q: Seq<Seq<char>>|
                0 <= k < self.includes@.len() && 1 <= q.len() <= fuel + 1 && q[0] == self.includes@[k].0@
                    && self.is_include_path(q) && #[trigger] closes_at(k, Seq::<Seq<char>>::empty(), q),
    {
        let list = self.include_list();
        let m = Self::lemma_find_repeat(p, 1);
        assert forall|a: int, b: int| 0 <= a < b < m implies p[a] != p[b] by {
            if p[a] == p[b] {
                assert(p.subrange(0, b)[a] == p[b]);
            }
        }
        self.lemma_distinct_keys(p, m);
        self.lemma_distinct_targets(p, m);
        assert(self.includes.len() == self.includes@.len());
        assert(m <= fuel);
        let q = p.subrange(0, m + 1);
        assert(list_has(self.direct_includes(p[0]), p[1]));
        lemma_key_index(list, p[0]);
        let k0 = key_index(list, p[0])->0;
        assert(self.is_include_path(q)) by {
            assert forall|i: int| 0 <= i < q.len() - 1 implies list_has(self.direct_includes(#[trigger] q[i]), q[i + 1]) by {
                assert(q[i] == p[i] && q[i + 1] == p[i + 1]);
            }
        }
        assert(Seq::<Seq<char>>::empty() + q.drop_last() =~= p.subrange(0, m));
        assert(closes_at(k0, Seq::<Seq<char>>::empty(), q));
    }

    /// Depth-first search for a cycle through `node`. `fuel` bounds the
    /// depth; a path through the include graph never needs more than
    /// `include_bound` steps. `visiting` holds the files of `path`.
    fn dfs_find_cycle(&self, node: &str, visiting: &mut Vec<String>, path: &mut Vec<String>, fuel: usize) -> (r: Option<Vec<String>>)
        requires
            self.is_include_path(views(old(path)@)),
            old(path)@.len() > 0 ==> list_has(self.direct_includes(old(path)@.last()@), node@),
            views(old(visiting)@) == views(old(path)@),
        ensures
            r matches Some(c) ==> c@.len() >= 2 && c@[0]@ == c@.last()@ && self.is_include_path(views(c@)),
            r is None ==> final(path)@ == old(path)@,
            r is None ==> views(final(visiting)@) == views(final(path)@),
            r is None ==> forall|q: Seq<Seq<char>>|
                1 <= q.len() <= fuel + 1 && q[0] == node@ && self.is_include_path(q) ==> !#[trigger] closes(
                    views(old(path)@),
                    q,
                ),
        decreases fuel,
    {
        let ghost v0 = views(path@);
        if contains_str(visiting, node) {
            // Found a cycle — extract it from the path.
            let mut pos: usize = 0;
            while pos < path.len()
                invariant
                    pos <= path@.len(),
                    path@ == old(path)@,
                    self.is_include_path(views(old(path)@)),
                    old(path)@.len() > 0 ==> list_has(self.direct_includes(old(path)@.last()@), node@),
                    forall|j: int| 0 <= j < pos ==> (#[trigger] path@[j])@ != node@,
                decreases path@.len() - pos,
            {
                if string_eq(&path[pos], node) {
                    let mut cycle: Vec<String> = Vec::new();
                    let mut k = pos;
                    while k < path.len()
                        invariant
                            pos <= k <= path@.len(),
                            path@ == old(path)@,
                            path@[pos as int]@ == node@,
                            self.is_include_path(views(old(path)@)),
                            list_has(self.direct_includes(old(path)@.last()@), node@),
                            views(cycle@) == views(path@).subrange(pos as int, k as int),
                        decreases path@.len() - k,
                    {
                        let ghost before = cycle@;
                        cycle.push(copy(path[k].as_str()));
                        assert(views(cycle@) == views(before).push(path@[k as int]@));
                        k += 1;
                    }
                    let ghost before = cycle@;
                    cycle.push(copy(node));
                    proof {
                        assert(views(cycle@) == views(before).push(node@));
                        self.lemma_cycle_path(views(path@), pos as int, node@);
                    }
                    return Some(cycle);
                }
                pos += 1;
            }
            proof {
                let w = choose|w: int| 0 <= w < visiting@.len() && (#[trigger] visiting@[w])@ == node@;
                assert(views(visiting@)[w] == node@);
                assert(views(path@)[w] == path@[w]@);
            }
            return None;
        }
        proof {
            assert forall|w: int| 0 <= w < v0.len() implies v0[w] != node@ by {
                assert(views(visiting@)[w] == visiting@[w]@);
            }
        }
        if fuel == 0 {
            proof {
                assert forall|q: Seq<Seq<char>>|
                    1 <= q.len() <= fuel + 1 && q[0] == node@ && self.is_include_path(q) implies !#[trigger] closes(v0, q) by {
                    assert(v0 + q.drop_last() =~= v0);
                    if v0.contains(q.last()) {
                        let w = choose|w: int| 0 <= w < v0.len() && v0[w] == q.last();
                        assert(q.last() == q[0]);
                    }
                }
            }
            return None;
        }
        let ghost vis0 = visiting@;
        visiting.push(copy(node));
        let ghost p0 = path@;
        path.push(copy(node));
        proof {
            self.lemma_path_push(views(p0), node@);
            assert(views(path@) == views(p0).push(node@));
            assert(views(visiting@) =~= views(vis0).push(node@));
        }
        let ghost p1 = path@;
        let ghost v1 = views(p1);
        match self.includes_of(node) {
            Some(incs) => {
                let mut k: usize = 0;
                while k < incs.len()
                    invariant
                        k <= incs@.len(),
                        fuel > 0,
                        path@ == p1,
                        v1 == views(p1),
                        views(visiting@) == v1,
                        p1 == p0.push(p1.last()),
                        p1.last()@ == node@,
                        self.is_include_path(views(p1)),
                        incs@ == self.direct_includes(node@),
                        forall|kk: int, q: Seq<Seq<char>>|
                            0 <= kk < k && 1 <= q.len() <= fuel && q[0] == incs@[kk]@ && self.is_include_path(q)
                                ==> !#[trigger] closes_at(kk, v1, q),
                    decreases incs@.len() - k,
                {
                    assert(list_has(self.direct_includes(path@.last()@), incs@[k as int]@));
                    match self.dfs_find_cycle(incs[k].as_str(), visiting, path, fuel - 1) {
                        Some(cycle) => {
                            return Some(cycle);
                        },
                        None => {},
                    }
                    proof {
                        assert forall|kk: int, q: Seq<Seq<char>>|
                            0 <= kk < k + 1 && 1 <= q.len() <= fuel && q[0] == incs@[kk]@ && self.is_include_path(q)
                                implies !#[trigger] closes_at(kk, v1, q) by {
                            if kk == k {
                                assert(!closes(v1, q));
                            }
                        }
                    }
                    k += 1;
                }
                proof {
                    assert forall|q: Seq<Seq<char>>|
                        1 <= q.len() <= fuel + 1 && q[0] == node@ && self.is_include_path(q) implies !#[trigger] closes(v0, q) by {
                        if q.len() == 1 {
                            assert(v0 + q.drop_last() =~= v0);
                            if v0.contains(q.last()) {
                                let w = choose|w: int| 0 <= w < v0.len() && v0[w] == q.last();
                                assert(q.last() == q[0]);
                            }
                        } else {
                            let q2 = q.subrange(1, q.len() as int);
                            assert(list_has(self.direct_includes(q[0]), q[1]));
                            let kk = choose|kk: int| 0 <= kk < incs@.len() && (#[trigger] incs@[kk])@ == q[1];
                            assert(self.is_include_path(q2)) by {
                                assert forall|i: int| 0 <= i < q2.len() - 1 implies list_has(self.direct_includes(#[trigger] q2[i]), q2[i + 1]) by {
                                    assert(q2[i] == q[i + 1] && q2[i + 1] == q[i + 2]);
                                }
                            }
                            assert(q2[0] == incs@[kk]@);
                            assert(!closes_at(kk, v1, q2));
                            assert(v1 == v0.push(node@));
                            assert(v0 + q.drop_last() =~= v1 + q2.drop_last());
                            assert(q.last() == q2.last());
                        }
                    }
                }
            },
            None => {
                proof {
                    assert forall|q: Seq<Seq<char>>|
                        1 <= q.len() <= fuel + 1 && q[0] == node@ && self.is_include_path(q) implies !#[trigger] closes(v0, q) by {
                        if q.len() >= 2 {
                            assert(list_has(self.direct_includes(q[0]), q[1]));
                        } else {
                            assert(v0 + q.drop_last() =~= v0);
                            if v0.contains(q.last()) {
                                let w = choose|w: int| 0 <= w < v0.len() && v0[w] == q.last();
                                assert(q.last() == q[0]);
                            }
                        }
                    }
                }
            },
        }
        path.pop();
        assert(path@ == p0);
        let ghost vis1 = visiting@;
        remove_str(visiting, node);
        proof {
            assert(views(vis1) == v1);
            assert(v1 =~= v0.push(node@));
            assert(views(vis1)[vis1.len() - 1] == vis1[vis1.len() - 1]@);
            assert(vis1[vis1.len() - 1]@ == node@);
            assert(list_has(vis1, node@));
            let i = choose|i: int|
                0 <= i < vis1.len() && (#[trigger] vis1[i])@ == node@ && (forall|j: int| 0 <= j < i ==> (#[trigger] vis1[j])@ != node@)
                    && visiting@ == vis1.remove(i);
            if i < vis1.len() - 1 {
                assert(views(vis1)[i] == vis1[i]@);
                assert(views(vis1)[i] == v0[i]);
            }
            assert(i == vis1.len() - 1);
            assert(visiting@ =~= vis1.drop_last());
            assert(views(visiting@) =~= v0) by {
                assert forall|w: int| 0 <= w < v0.len() implies views(visiting@)[w] == v0[w] by {
                    assert(views(visiting@)[w] == visiting@[w]@);
                    assert(visiting@[w] == vis1[w]);
                    assert(views(vis1)[w] == vis1[w]@);
                }
            }
        }
        None
    }

    /// The `k`-th file of a walk from `b0` that follows, from each file of
    /// `fs` picked by `u`, an include to another such file.
    spec fn succ_walk(self, fs: Seq<String>, u: spec_fn(int) -> bool, b0: int, k: nat) -> int
        decreases k,
    {
        if k == 0 {
            b0
        } else {
            let prev = self.succ_walk(fs, u, b0, (k - 1) as nat);
            choose|b2: int| 0 <= b2 < fs.len() && u(b2) && list_has(self.direct_includes(fs[prev]@), fs[b2]@)
        }
    }

    proof fn lemma_succ_walk(self, fs: Seq<String>, u: spec_fn(int) -> bool, b0: int, k: nat)
        requires
            0 <= b0 < fs.len(),
            u(b0),
            forall|b: int|
                #![trigger u(b)]
                0 <= b < fs.len() && u(b) ==> exists|b2: int|
                    0 <= b2 < fs.len() && u(b2) && list_has(self.direct_includes(fs[b]@), #[trigger] fs[b2]@),
        ensures
            0 <= self.succ_walk(fs, u, b0, k) < fs.len(),
            u(self.succ_walk(fs, u, b0, k)),
            k > 0 ==> list_has(
                self.direct_includes(fs[self.succ_walk(fs, u, b0, (k - 1) as nat)]@),
                fs[self.succ_walk(fs, u, b0, k)]@,
            ),
        decreases k,
    {
        if k > 0 {
            self.lemma_succ_walk(fs, u, b0, (k - 1) as nat);
            let prev = self.succ_walk(fs, u, b0, (k - 1) as nat);
            assert(u(prev));
        }
    }

    /// When each file of `fs` picked by `u` includes another such file, the
    /// include graph has a cycle.
    proof fn lemma_endless_walk_cycles(self, fs: Seq<String>, u: spec_fn(int) -> bool, b0: int)
        requires
            0 <= b0 < fs.len(),
            u(b0),
            forall|b: int|
                #![trigger u(b)]
                0 <= b < fs.len() && u(b) ==> exists|b2: int|
                    0 <= b2 < fs.len() && u(b2) && list_has(self.direct_includes(fs[b]@), #[trigger] fs[b2]@),
        ensures
            !self.include_acyclic(),
    {
        let n = fs.len();
        let p = Seq::new(n + 1, |k: int| fs[self.succ_walk(fs, u, b0, k as nat)]@);
        let vs = views(fs);
        assert forall|k: int| 0 <= k < p.len() implies vs.contains(#[trigger] p[k]) by {
            self.lemma_succ_walk(fs, u, b0, k as nat);
            let w = self.succ_walk(fs, u, b0, k as nat);
            assert(vs[w] == fs[w]@);
        }
        assert(self.is_include_path(p)) by {
            assert forall|i: int| 0 <= i < p.len() - 1 implies list_has(self.direct_includes(#[trigger] p[i]), p[i + 1]) by {
                self.lemma_succ_walk(fs, u, b0, (i + 1) as nat);
            }
        }
        if forall|i: int, j: int| 0 <= i < j < p.len() ==> p[i] != p[j] {
            lemma_distinct_within(p, vs);
            assert(false);
        }
        let (i, j) = choose|i: int, j: int| 0 <= i < j < p.len() && p[i] == p[j];
        let c = p.subrange(i, j + 1);
        assert(self.is_include_path(c)) by {
            assert forall|t: int| 0 <= t < c.len() - 1 implies list_has(self.direct_includes(#[trigger] c[t]), c[t + 1]) by {
                assert(c[t] == p[i + t] && c[t + 1] == p[i + t + 1]);
            }
        }
        assert(c.len() >= 2 && c[0] == c.last());
    }

    /// Adding a file that the last one includes keeps a walk a walk.
    proof fn lemma_path_push(self, p: Seq<Seq<char>>, x: Seq<char>)
        requires
            self.is_include_path(p),
            p.len() > 0 ==> list_has(self.direct_includes(p.last()), x),
        ensures
            self.is_include_path(p.push(x)),
    {
        let q = p.push(x);
        assert forall|i: int| 0 <= i < q.len() - 1 implies list_has(self.direct_includes(#[trigger] q[i]), q[i + 1]) by {
            if i < p.len() - 1 {
                assert(q[i] == p[i] && q[i + 1] == p[i + 1]);
            } else {
                assert(q[i] == p.last() && q[i + 1] == x);
            }
        }
    }

    /// The part of a walk from a file back to that file is a cycle.
    proof fn lemma_cycle_path(self, p: Seq<Seq<char>>, pos: int, x: Seq<char>)
        requires
            self.is_include_path(p),
            0 <= pos < p.len(),
            p[pos] == x,
            list_has(self.direct_includes(p.last()), x),
        ensures
            self.is_include_path(p.subrange(pos, p.len() as int).push(x)),
            p.subrange(pos, p.len() as int).push(x).len() >= 2,
            p.subrange(pos, p.len() as int).push(x)[0] == x,
    {
        let t = p.subrange(pos, p.len() as int);
        assert forall|i: int| 0 <= i < t.len() - 1 implies list_has(self.direct_includes(#[trigger] t[i]), t[i + 1]) by {
            assert(t[i] == p[pos + i] && t[i + 1] == p[pos + i + 1]);
        }
        self.lemma_path_push(t, x);
    }

    /// A file the table knows of: one with an include record, one that a
    /// record includes, or one that was indexed.
    pub open spec fn known_file(self, x: Seq<char>) -> bool {
        ||| exists|a: int| 0 <= a < self.include_list().len() && (#[trigger] self.include_list()[a]).0@ == x
        ||| exists|a: int| 0 <= a < self.include_list().len() && list_has((#[trigger] self.include_list()[a]).1@, x)
        ||| self.file_root(x) is Some
    }

    /// `order` lists each known file once, every file after the files it
    /// includes.
    pub open spec fn is_include_order(self, order: Seq<String>) -> bool {
        &&& no_dup_views(order)
        &&& forall|x: Seq<char>| list_has(order, x) <==> self.known_file(x)
        &&& forall|t: int, k: int|
            0 <= t < order.len() && 0 <= k < self.direct_includes(order[t]@).len() ==> comes_before(
                order,
                t,
                #[trigger] self.direct_includes(order[t]@)[k]@,
            )
    }

    /// `x` is a key or a target of one of the first `m` include records.
    spec fn known_in_records(self, m: int, x: Seq<char>) -> bool {
        exists|a: int| 0 <= a < m && (#[trigger] self.includes@[a].0@ == x || list_has(self.includes@[a].1@, x))
    }

    /// The files that the file at position `b` of `files` includes.
    spec fn deps(self, files: Seq<String>, b: int) -> Seq<String> {
        self.direct_includes(files[b]@)
    }

    /// The include record of the file at position `b` of `files` is at
    /// position `a` or later and lists `f`.
    spec fn pending(self, files: Seq<String>, b: int, a: int, f: Seq<char>) -> bool {
        key_index(self.includes@, files[b]@) matches Some(j) && j >= a && list_has(self.includes@[j].1@, f)
    }

    /// Collect every file the table knows of, each once.
    #[verifier::spinoff_prover]
    fn known_files(&self) -> (all: Vec<String>)
        ensures
            no_dup_views(all@),
            forall|x: Seq<char>| list_has(all@, x) <==> self.known_file(x),
    {
        let mut all_files: Vec<String> = Vec::new();
        let mut i: usize = 0;
        while i < self.includes.len()
            invariant
                i <= self.includes@.len(),
                no_dup_views(all_files@),
                forall|x: Seq<char>| list_has(all_files@, x) <==> self.known_in_records(i as int, x),
            decreases self.includes@.len() - i,
        {
            add_unique(&mut all_files, self.includes[i].0.as_str());
            let incs = &self.includes[i].1;
            let mut k: usize = 0;
            while k < incs.len()
                invariant
                    i < self.includes@.len(),
                    incs@ == self.includes@[i as int].1@,
                    k <= incs@.len(),
                    no_dup_views(all_files@),
                    forall|x: Seq<char>|
                        list_has(all_files@, x) <==> (self.known_in_records(i as int, x) || self.includes@[i as int].0@
                            == x || exists|kk: int| 0 <= kk < k && (#[trigger] incs@[kk])@ == x),
                decreases incs@.len() - k,
            {
                add_unique(&mut all_files, incs[k].as_str());
                proof {
                    assert forall|x: Seq<char>|
                        list_has(all_files@, x) <==> (self.known_in_records(i as int, x) || self.includes@[i as int].0@
                            == x || exists|kk: int| 0 <= kk < k + 1 && (#[trigger] incs@[kk])@ == x) by {
                        if x == incs@[k as int]@ {
                            assert(0 <= k < k + 1);
                        }
                    }
                }
                k += 1;
            }
            proof {
                assert forall|x: Seq<char>| list_has(all_files@, x) <==> self.known_in_records(i + 1, x) by {
                    if self.known_in_records(i + 1, x) {
                        let a = choose|a: int| 0 <= a < i + 1 && (#[trigger] self.includes@[a].0@ == x || list_has(
                            self.includes@[a].1@,
                            x,
                        ));
                        if a == i && !(self.includes@[a].0@ == x) {
                            let kk = choose|kk: int| 0 <= kk < incs@.len() && (#[trigger] incs@[kk])@ == x;
                        } else if a < i {
                            assert(self.known_in_records(i as int, x));
                        }
                    }
                    if list_has(all_files@, x) {
                        if self.known_in_records(i as int, x) {
                            let a = choose|a: int| 0 <= a < i && (#[trigger] self.includes@[a].0@ == x || list_has(
                                self.includes@[a].1@,
                                x,
                            ));
                            assert(0 <= a < i + 1);
                        } else if self.includes@[i as int].0@ == x {
                            assert(self.includes@[i as int].0@ == x);
                        } else {
                            let kk = choose|kk: int| 0 <= kk < k && (#[trigger] incs@[kk])@ == x;
                            assert(list_has(self.includes@[i as int].1@, x));
                        }
                    }
                }
            }
            i += 1;
        }
        let mut j: usize = 0;
        while j < self.file_scopes.len()
            invariant
                i == self.includes@.len(),
                j <= self.file_scopes@.len(),
                no_dup_views(all_files@),
                forall|x: Seq<char>|
                    list_has(all_files@, x) <==> (self.known_in_records(i as int, x) || exists|jj: int|
                        0 <= jj < j && (#[trigger] self.file_scopes@[jj]).0@ == x),
            decreases self.file_scopes@.len() - j,
        {
            add_unique(&mut all_files, self.file_scopes[j].0.as_str());
            proof {
                assert forall|x: Seq<char>|
                    list_has(all_files@, x) <==> (self.known_in_records(i as int, x) || exists|jj: int|
                        0 <= jj < j + 1 && (#[trigger] self.file_scopes@[jj]).0@ == x) by {
                    if x == self.file_scopes@[j as int].0@ {
                        assert(0 <= j < j + 1);
                    }
                }
            }
            j += 1;
        }
        proof {
            assert forall|x: Seq<char>| list_has(all_files@, x) <==> self.known_file(x) by {
                lemma_key_index(self.file_scopes@, x);
                if self.known_in_records(i as int, x) {
                    let a = choose|a: int| 0 <= a < i && (#[trigger] self.includes@[a].0@ == x || list_has(
                        self.includes@[a].1@,
                        x,
                    ));
                    assert(self.include_list()[a] == self.includes@[a]);
                }
                if exists|a: int| 0 <= a < self.include_list().len() && (#[trigger] self.include_list()[a]).0@ == x {
                    let a = choose|a: int| 0 <= a < self.include_list().len() && (#[trigger] self.include_list()[a]).0@ == x;
                    assert(self.known_in_records(i as int, x));
                }
                if exists|a: int| 0 <= a < self.include_list().len() && list_has((#[trigger] self.include_list()[a]).1@, x) {
                    let a = choose|a: int| 0 <= a < self.include_list().len() && list_has((#[trigger] self.include_list()[a]).1@, x);
                    assert(self.known_in_records(i as int, x));
                }
                if self.file_root(x) is Some {
                    let jj = key_index(self.file_scopes@, x)->0;
                    assert(self.file_scopes@[jj].0@ == x);
                }
            }
        }
        all_files
    }

    /// Get a topological ordering of all files (for incremental
    /// re-analysis): a file appears after all files it includes. Returns
    /// `None` if there is a cycle.
    pub fn topological_order(&self) -> (r: Option<Vec<String>>)
        requires
            self.wf(),
        ensures
            r matches Some(order) ==> self.is_include_order(order@),
            r is None && self.include_lists_distinct() ==> !self.include_acyclic(),
    {
        // Collect all known files.
        let all_files = self.known_files();
        let ghost fs = all_files@;
        let n = all_files.len();

        // Kahn's algorithm: a file's in-degree counts the files it includes.
        let mut in_degree: Vec<usize> = Vec::new();
        let mut f: usize = 0;
        while f < all_files.len()
            invariant
                f <= all_files@.len(),
                fs == all_files@,
                in_degree@.len() == f,
                forall|b: int| 0 <= b < f ==> #[trigger] in_degree@[b] == self.deps(fs, b).len(),
            decreases all_files@.len() - f,
        {
            let deg = match self.includes_of(all_files[f].as_str()) {
                Some(incs) => incs.len(),
                None => 0,
            };
            in_degree.push(deg);
            f += 1;
        }
        let mut queue: Vec<usize> = Vec::new();
        let mut q: usize = 0;
        while q < all_files.len()
            invariant
                q <= all_files@.len(),
                in_degree@.len() == all_files@.len(),
                forall|b: int| 0 <= b < all_files@.len() ==> #[trigger] in_degree@[b] == self.deps(fs, b).len(),
                forall|k: int| 0 <= k < queue@.len() ==> #[trigger] queue@[k] < q,
                forall|t1: int, t2: int| 0 <= t1 < t2 < queue@.len() ==> (#[trigger] queue@[t1]) < (#[trigger] queue@[t2]),
                forall|k: int| 0 <= k < queue@.len() ==> in_degree@[#[trigger] queue@[k] as int] == 0,
                zeros_queued(in_degree@, queue@, q as int),
            decreases all_files@.len() - q,
        {
            if in_degree[q] == 0 {
                let ghost q0 = queue@;
                queue.push(q);
                proof {
                    assert(queue@[queue@.len() - 1] == q);
                    assert forall|b: usize| b < q + 1 && in_degree@[b as int] == 0 implies #[trigger] queue@.contains(b) by {
                        if b < q {
                            assert(q0.contains(b));
                            let w = choose|w: int| 0 <= w < q0.len() && q0[w] == b;
                            assert(queue@[w] == q0[w]);
                        }
                    }
                }
            }
            q += 1;
        }
        let mut result: Vec<String> = Vec::new();
        let mut head: usize = 0;
        proof {
            assert forall|b: int| 0 <= b < n implies #[trigger] in_degree@[b] >= unproc(self.deps(fs, b), views(result@)) by {
                lemma_unproc_le(self.deps(fs, b), views(result@));
            }
            assert(views(result@) =~= Seq::<Seq<char>>::empty());
            assert forall|b: int| 0 <= b < n implies #[trigger] in_degree@[b] <= unproc(self.deps(fs, b), views(result@)) by {
                lemma_unproc_none_done(self.deps(fs, b));
            }
        }
        while head < queue.len() && head <= n
            invariant
                self.wf(),
                fs == all_files@,
                no_dup_views(fs),
                n == fs.len(),
                in_degree@.len() == n,
                head <= queue@.len(),
                result@.len() == head,
                forall|t: int| 0 <= t < head ==> (#[trigger] result@[t])@ == fs[queue@[t] as int]@,
                forall|k: int| 0 <= k < queue@.len() ==> #[trigger] queue@[k] < n,
                forall|t1: int, t2: int| 0 <= t1 < t2 < queue@.len() ==> (#[trigger] queue@[t1]) != (#[trigger] queue@[t2]),
                forall|k: int| 0 <= k < queue@.len() ==> in_degree@[#[trigger] queue@[k] as int] == 0,
                forall|b: int| 0 <= b < n ==> #[trigger] in_degree@[b] >= unproc(self.deps(fs, b), views(result@)),
                self.include_lists_distinct() ==> forall|b: int|
                    0 <= b < n ==> #[trigger] in_degree@[b] <= unproc(self.deps(fs, b), views(result@)),
                zeros_queued(in_degree@, queue@, n as int),
                forall|t: int, k: int|
                    0 <= t < queue@.len() && 0 <= k < self.deps(fs, queue@[t] as int).len() ==> comes_before(
                        result@,
                        t,
                        #[trigger] self.deps(fs, queue@[t] as int)[k]@,
                    ),
            decreases n + 1 - head,
        {
            let file = queue[head];
            let ghost done0 = views(result@);
            let ghost fname = fs[file as int]@;
            proof {
                assert(!done0.contains(fname)) by {
                    if done0.contains(fname) {
                        let w = choose|w: int| 0 <= w < done0.len() && done0[w] == fname;
                        assert(result@[w]@ == fs[queue@[w] as int]@);
                        assert(queue@[w] != queue@[head as int]);
                    }
                }
            }
            let ghost r0 = result@;
            result.push(copy(all_files[file].as_str()));
            head += 1;
            proof {
                assert(views(result@) =~= done0.push(fname));
                assert(views(result@)[result@.len() - 1] == fname);
                assert forall|t: int, k: int|
                    0 <= t < queue@.len() && 0 <= k < self.deps(fs, queue@[t] as int).len() implies comes_before(
                        result@,
                        t,
                        #[trigger] self.deps(fs, queue@[t] as int)[k]@,
                    ) by {
                    let y = self.deps(fs, queue@[t] as int)[k]@;
                    assert(comes_before(r0, t, y));
                    let w = choose|w: int| 0 <= w < t && w < r0.len() && (#[trigger] r0[w])@ == y;
                    assert(result@[w] == r0[w]);
                }
                assert forall|b: int| 0 <= b < n implies #[trigger] in_degree@[b] >= unproc(self.deps(fs, b), views(result@))
                    + (if self.pending(fs, b, 0, fname) {
                    1nat
                } else {
                    0nat
                }) by {
                    lemma_unproc_push(self.deps(fs, b), done0, fname);
                    lemma_key_index(self.includes@, fs[b]@);
                }
                if self.include_lists_distinct() {
                    assert forall|b: int| 0 <= b < n implies #[trigger] in_degree@[b] <= unproc(self.deps(fs, b), views(result@))
                        + (if self.pending(fs, b, 0, fname) {
                        1nat
                    } else {
                        0nat
                    }) by {
                        self.lemma_deps_distinct(fs[b]@);
                        lemma_unproc_push_exact(self.deps(fs, b), done0, fname);
                        lemma_key_index(self.includes@, fs[b]@);
                    }
                }
            }
            // Each file that includes `file` has one dependency fewer.
            let mut a: usize = 0;
            while a < self.includes.len()
                invariant
                    self.wf(),
                    fs == all_files@,
                    no_dup_views(fs),
                    n == fs.len(),
                    in_degree@.len() == n,
                    0 < head <= queue@.len(),
                    head <= n + 1,
                    result@.len() == head,
                    file < n,
                    fname == fs[file as int]@,
                    views(result@).contains(fname),
                    forall|t: int| 0 <= t < head ==> (#[trigger] result@[t])@ == fs[queue@[t] as int]@,
                    forall|k: int| 0 <= k < queue@.len() ==> #[trigger] queue@[k] < n,
                    forall|t1: int, t2: int| 0 <= t1 < t2 < queue@.len() ==> (#[trigger] queue@[t1]) != (#[trigger] queue@[t2]),
                    forall|k: int| 0 <= k < queue@.len() ==> in_degree@[#[trigger] queue@[k] as int] == 0,
                    forall|b: int|
                        0 <= b < n ==> #[trigger] in_degree@[b] >= unproc(self.deps(fs, b), views(result@)) + (if self.pending(
                            fs,
                            b,
                            a as int,
                            fname,
                        ) {
                            1nat
                        } else {
                            0nat
                        }),
                    self.include_lists_distinct() ==> forall|b: int|
                        0 <= b < n ==> #[trigger] in_degree@[b] <= unproc(self.deps(fs, b), views(result@)) + (if self.pending(
                            fs,
                            b,
                            a as int,
                            fname,
                        ) {
                            1nat
                        } else {
                            0nat
                        }),
                    zeros_queued(in_degree@, queue@, n as int),
                    forall|t: int, k: int|
                        0 <= t < queue@.len() && 0 <= k < self.deps(fs, queue@[t] as int).len() ==> comes_before(
                            result@,
                            t,
                            #[trigger] self.deps(fs, queue@[t] as int)[k]@,
                        ),
                decreases self.includes@.len() - a,
            {
                if contains_str(&self.includes[a].1, all_files[file].as_str()) {
                    match position_str(&all_files, self.includes[a].0.as_str()) {
                        Some(b) => {
                            proof {
                                lemma_key_index(self.includes@, fs[b as int]@);
                                let j = key_index(self.includes@, fs[b as int]@)->0;
                                if j != a {
                                    assert(self.includes@[j].0@ == self.includes@[a as int].0@);
                                }
                                assert(self.pending(fs, b as int, a as int, fname));
                            }
                            if in_degree[b] > 0 {
                                let d = in_degree[b] - 1;
                                let ghost q0 = queue@;
                                let ghost deg0 = in_degree@;
                                in_degree.set(b, d);
                                if d == 0 {
                                    queue.push(b);
                                    proof {
                                        lemma_unproc_zero(self.deps(fs, b as int), views(result@));
                                        assert forall|k: int| 0 <= k < self.deps(fs, b as int).len() implies comes_before(
                                            result@,
                                            q0.len() as int,
                                            #[trigger] self.deps(fs, b as int)[k]@,
                                        ) by {
                                            let y = self.deps(fs, b as int)[k]@;
                                            assert(views(result@).contains(y));
                                            let w = choose|w: int| 0 <= w < views(result@).len() && views(result@)[w] == y;
                                            assert(result@[w]@ == y);
                                        }
                                    }
                                }
                                proof {
                                    assert forall|k: int| 0 <= k < q0.len() implies #[trigger] q0[k] != b by {
                                        assert(deg0[q0[k] as int] == 0);
                                    }
                                    assert forall|b2: int|
                                        0 <= b2 < n implies #[trigger] in_degree@[b2] >= unproc(
                                        self.deps(fs, b2),
                                        views(result@),
                                    ) + (if self.pending(fs, b2, a + 1, fname) {
                                        1nat
                                    } else {
                                        0nat
                                    }) by {
                                        lemma_key_index(self.includes@, fs[b2]@);
                                        if b2 != b {
                                            assert(deg0[b2] == in_degree@[b2]);
                                            if key_index(self.includes@, fs[b2]@) == Some(a as int) {
                                                assert(fs[b2]@ == fs[b as int]@);
                                                if b2 < b {
                                                    assert(fs[b2]@ != fs[b as int]@);
                                                } else {
                                                    assert(fs[b as int]@ != fs[b2]@);
                                                }
                                            }
                                        }
                                    }
                                    if self.include_lists_distinct() {
                                        assert forall|b2: int|
                                            0 <= b2 < n implies #[trigger] in_degree@[b2] <= unproc(
                                            self.deps(fs, b2),
                                            views(result@),
                                        ) + (if self.pending(fs, b2, a + 1, fname) {
                                            1nat
                                        } else {
                                            0nat
                                        }) by {
                                            lemma_key_index(self.includes@, fs[b2]@);
                                            if b2 != b {
                                                assert(deg0[b2] == in_degree@[b2]);
                                                if key_index(self.includes@, fs[b2]@) == Some(a as int) {
                                                    assert(fs[b2]@ == fs[b as int]@);
                                                    if b2 < b {
                                                        assert(fs[b2]@ != fs[b as int]@);
                                                    } else {
                                                        assert(fs[b as int]@ != fs[b2]@);
                                                    }
                                                }
                                            }
                                        }
                                    }
                                    assert forall|x: usize| x < n && in_degree@[x as int] == 0 implies #[trigger] queue@.contains(x) by {
                                        if x == b {
                                            assert(queue@[queue@.len() - 1] == b);
                                        } else {
                                            assert(deg0[x as int] == 0);
                                            assert(q0.contains(x));
                                            let w = choose|w: int| 0 <= w < q0.len() && q0[w] == x;
                                            assert(queue@[w] == q0[w]);
                                        }
                                    }
                                }
                            }
                        },
                        None => {
                            proof {
                                assert forall|b2: int|
                                    0 <= b2 < n implies #[trigger] in_degree@[b2] >= unproc(
                                    self.deps(fs, b2),
                                    views(result@),
                                ) + (if self.pending(fs, b2, a + 1, fname) {
                                    1nat
                                } else {
                                    0nat
                                }) by {
                                    lemma_key_index(self.includes@, fs[b2]@);
                                    if key_index(self.includes@, fs[b2]@) == Some(a as int) {
                                        assert(fs[b2]@ == self.includes@[a as int].0@);
                                    }
                                }
                                if self.include_lists_distinct() {
                                    assert forall|b2: int|
                                        0 <= b2 < n implies #[trigger] in_degree@[b2] <= unproc(
                                        self.deps(fs, b2),
                                        views(result@),
                                    ) + (if self.pending(fs, b2, a + 1, fname) {
                                        1nat
                                    } else {
                                        0nat
                                    }) by {
                                        lemma_key_index(self.includes@, fs[b2]@);
                                        if key_index(self.includes@, fs[b2]@) == Some(a as int) {
                                            assert(fs[b2]@ == self.includes@[a as int].0@);
                                        }
                                    }
                                }
                            }
                        },
                    }
                } else {
                    proof {
                        assert forall|b2: int|
                            0 <= b2 < n implies #[trigger] in_degree@[b2] >= unproc(self.deps(fs, b2), views(result@)) + (
                        if self.pending(fs, b2, a + 1, fname) {
                            1nat
                        } else {
                            0nat
                        }) by {
                            lemma_key_index(self.includes@, fs[b2]@);
                        }
                        if self.include_lists_distinct() {
                            assert forall|b2: int|
                                0 <= b2 < n implies #[trigger] in_degree@[b2] <= unproc(self.deps(fs, b2), views(result@)) + (
                            if self.pending(fs, b2, a + 1, fname) {
                                1nat
                            } else {
                                0nat
                            }) by {
                                lemma_key_index(self.includes@, fs[b2]@);
                            }
                        }
                    }
                }
                a += 1;
            }
            proof {
                assert forall|b: int| 0 <= b < n implies #[trigger] in_degree@[b] >= unproc(self.deps(fs, b), views(result@))
                    by {
                    lemma_key_index(self.includes@, fs[b]@);
                }
                if self.include_lists_distinct() {
                    assert forall|b: int| 0 <= b < n implies #[trigger] in_degree@[b] <= unproc(self.deps(fs, b), views(result@))
                        by {
                        lemma_key_index(self.includes@, fs[b]@);
                    }
                }
            }
        }
        if result.len() == all_files.len() {
            proof {
                lemma_indices_cover(queue@.take(n as int), n as nat);
                assert forall|i: int, j: int| 0 <= i < j < result@.len() implies (#[trigger] result@[i])@
                    != (#[trigger] result@[j])@ by {
                    assert(queue@[i] != queue@[j]);
                    if queue@[i] < queue@[j] {
                        assert(fs[queue@[i] as int]@ != fs[queue@[j] as int]@);
                    } else {
                        assert(fs[queue@[j] as int]@ != fs[queue@[i] as int]@);
                    }
                }
                assert forall|x: Seq<char>| list_has(result@, x) <==> self.known_file(x) by {
                    if list_has(result@, x) {
                        let t = choose|t: int| 0 <= t < result@.len() && (#[trigger] result@[t])@ == x;
                        assert(fs[queue@[t] as int]@ == x);
                    }
                    if self.known_file(x) {
                        let b = choose|b: int| 0 <= b < fs.len() && (#[trigger] fs[b])@ == x;
                        assert(queue@.take(n as int).contains(b as usize));
                        let t = choose|t: int| 0 <= t < n && queue@.take(n as int)[t] == b as usize;
                        assert(result@[t]@ == x);
                    }
                }
                assert forall|t: int, k: int|
                    0 <= t < result@.len() && 0 <= k < self.direct_includes(result@[t]@).len() implies comes_before(
                        result@,
                        t,
                        #[trigger] self.direct_includes(result@[t]@)[k]@,
                    ) by {
                    assert(self.deps(fs, queue@[t] as int) == self.direct_includes(result@[t]@));
                    assert(comes_before(result@, t, self.deps(fs, queue@[t] as int)[k]@));
                }
            }
            Some(result)
        } else {
            proof {
                if self.include_lists_distinct() {
                    assert(all_files.len() == all_files@.len());
                    self.lemma_kahn_stuck(fs, in_degree@, queue@, result@);
                }
            }
            None
        }
    }

    /// Where Kahn's walk stops before taking every file, with no include
    /// list naming a file twice, the files it never queued each include
    /// another such file, so the graph has a cycle.
    proof fn lemma_kahn_stuck(self, fs: Seq<String>, deg: Seq<usize>, qs: Seq<usize>, result: Seq<String>)
        requires
            self.include_lists_distinct(),
            no_dup_views(fs),
            fs.len() <= usize::MAX,
            forall|x: Seq<char>| list_has(fs, x) <==> self.known_file(x),
            deg.len() == fs.len(),
            result.len() <= qs.len(),
            !(result.len() < qs.len() && result.len() <= fs.len()),
            result.len() != fs.len(),
            forall|t: int| 0 <= t < result.len() ==> (#[trigger] result[t])@ == fs[qs[t] as int]@,
            forall|k: int| 0 <= k < qs.len() ==> #[trigger] qs[k] < fs.len(),
            forall|t1: int, t2: int| 0 <= t1 < t2 < qs.len() ==> (#[trigger] qs[t1]) != (#[trigger] qs[t2]),
            forall|b: int| 0 <= b < fs.len() ==> #[trigger] deg[b] <= unproc(self.deps(fs, b), views(result)),
            zeros_queued(deg, qs, fs.len() as int),
        ensures
            !self.include_acyclic(),
    {
        let n = fs.len();
        let done = views(result);
        let vf = views(fs);
        let qn = Seq::new(qs.len(), |t: int| fs[qs[t] as int]@);
        assert forall|i: int, j: int| 0 <= i < j < qn.len() implies qn[i] != qn[j] by {
            assert(qs[i] != qs[j]);
            if qs[i] < qs[j] {
                assert(fs[qs[i] as int]@ != fs[qs[j] as int]@);
            } else {
                assert(fs[qs[j] as int]@ != fs[qs[i] as int]@);
            }
        }
        assert forall|k: int| 0 <= k < qn.len() implies vf.contains(qn[k]) by {
            assert(vf[qs[k] as int] == qn[k]);
        }
        lemma_distinct_within(qn, vf);
        assert(result.len() == qs.len());
        assert(qs.len() < n);
        if forall|x: usize| x < n ==> #[trigger] qs.contains(x) {
            assert forall|k: int| 0 <= k < vf.len() implies qn.contains(vf[k]) by {
                assert(qs.contains(k as usize));
                let t = choose|t: int| 0 <= t < qs.len() && qs[t] == k as usize;
                assert(qs[t] as int == k);
                assert(vf[k] == fs[k]@);
                assert(qn[t] == vf[k]);
            }
            assert forall|i: int, j: int| 0 <= i < j < vf.len() implies vf[i] != vf[j] by {
                assert(fs[i]@ != fs[j]@);
            }
            lemma_distinct_within(vf, qn);
            assert(false);
        }
        let x0 = choose|x: usize| !(x < n ==> #[trigger] qs.contains(x));
        let b0 = x0 as int;
        let u = |b: int| !qs.contains(b as usize);
        assert forall|b: int|
            #![trigger u(b)]
            0 <= b < fs.len() && u(b) implies exists|b2: int|
                0 <= b2 < fs.len() && u(b2) && list_has(self.direct_includes(fs[b]@), #[trigger] fs[b2]@) by {
            assert(!qs.contains(b as usize));
            assert((b as usize) as int == b);
            assert(deg[b] != 0);
            lemma_unproc_pos(self.deps(fs, b), done);
            let k = choose|k: int| 0 <= k < self.deps(fs, b).len() && !done.contains(#[trigger] self.deps(fs, b)[k]@);
            let y = self.deps(fs, b)[k]@;
            lemma_key_index(self.includes@, fs[b]@);
            let j = key_index(self.includes@, fs[b]@)->0;
            assert(list_has(self.include_list()[j].1@, y));
            assert(self.known_file(y));
            let b2 = choose|b2: int| 0 <= b2 < fs.len() && (#[trigger] fs[b2])@ == y;
            if qs.contains(b2 as usize) {
                let t = choose|t: int| 0 <= t < qs.len() && qs[t] == b2 as usize;
                assert(result[t]@ == y);
                assert(done[t] == y);
            }
            assert(u(b2));
            assert(list_has(self.direct_includes(fs[b]@), fs[b2]@)) by {
                assert(self.direct_includes(fs[b]@)[k]@ == y);
            }
        }
        self.lemma_endless_walk_cycles(fs, u, b0);
    }

    /// No include list names a file twice.
    pub open spec fn include_lists_distinct(self) -> bool {
        forall|j: int| 0 <= j < self.include_list().len() ==> no_dup_views(#[trigger] self.include_list()[j].1@)
    }

    /// With no include list naming a file twice, no file includes a file
    /// twice.
    proof fn lemma_deps_distinct(self, x: Seq<char>)
        requires
            self.include_lists_distinct(),
        ensures
            no_dup_views(self.direct_includes(x)),
    {
        lemma_key_index(self.include_list(), x);
    }

    /// Allocate a new symbol and return its ID.
    fn alloc_symbol(&mut self, name: &str, kind: SymbolKind, span: Span, scope: ScopeId, file: &str) -> (id: SymbolId)
        requires
            old(self).symbols@.len() < u32::MAX,
        ensures
            id.0 == old(self).symbols@.len(),
            final(self).symbols@ == old(self).symbols@.push(final(self).symbols@.last()),
            final(self).symbols@.last().name@ == name@,
            final(self).symbols@.last().id == id,
            final(self).symbols@.last().kind == kind,
            final(self).symbols@.last().span == span,
            final(self).symbols@.last().scope == scope,
            final(self).symbols@.last().file@ == file@,
            final(self).scopes == old(self).scopes,
            final(self).file_scopes == old(self).file_scopes,
            final(self).includes == old(self).includes,
            final(self).diagnostics == old(self).diagnostics,
    {
        let id = SymbolId(self.symbols.len() as u32);
        self.symbols.push(Symbol { id, name: copy(name), kind, span, scope, file: copy(file) });
        id
    }
}

impl SymbolTable {
    /// The walk state fits the table: its scopes and symbols exist.
    spec fn collect_ok(self, c: Collect) -> bool {
        &&& self.wf()
        &&& c.current_scope.0 < self.scopes.scopes().len()
        &&& forall|k: int| 0 <= k < c.file_scope_ids@.len() ==> (#[trigger] c.file_scope_ids@[k]).0 < self.scopes.scopes().len()
        &&& forall|k: int| 0 <= k < c.file_symbol_ids@.len() ==> (#[trigger] c.file_symbol_ids@[k]).0 < self.symbols@.len()
    }

    /// Every scope of `prev` but the one at index `cs` binds in `self`
    /// what it bound in `prev`.
    spec fn kept_outside(self, prev: SymbolTable, cs: int) -> bool {
        forall|i: int, n: Seq<char>|
            0 <= i < prev.scope_seq().len() && i != cs ==> #[trigger] self.bound_in(i, n) == prev.bound_in(i, n)
    }

    /// `self` grew from `prev`: no scope or symbol was taken away, and the
    /// file records are unchanged.
    spec fn grew(self, prev: SymbolTable) -> bool {
        &&& prev.scopes.scopes().len() <= self.scopes.scopes().len()
        &&& prev.symbols@.len() <= self.symbols@.len()
        &&& forall|i: int| 0 <= i < prev.symbols@.len() ==> #[trigger] self.symbols@[i] == prev.symbols@[i]
        &&& forall|i: int|
            0 <= i < prev.scopes.scopes().len() ==> (#[trigger] self.scopes.scopes()[i]).kind == prev.scopes.scopes()[i].kind
                && self.scopes.scopes()[i].parent == prev.scopes.scopes()[i].parent
        &&& self.file_scopes == prev.file_scopes
        &&& self.includes == prev.includes
        &&& prev.diagnostics@.len() <= self.diagnostics@.len()
        &&& forall|i: int| 0 <= i < prev.diagnostics@.len() ==> #[trigger] self.diagnostics@[i] == prev.diagnostics@[i]
        &&& forall|i: int|
            prev.diagnostics@.len() <= i < self.diagnostics@.len() ==> (#[trigger] self.diagnostics@[i]).kind
                == DiagnosticKind::DuplicateSymbol
    }

    /// Add (or update) a file's symbols from its parsed AST.
    ///
    /// If the file was previously indexed, its old symbols and scopes are
    /// removed first, so only that file's data is refreshed.
    pub fn index_file(&mut self, file_path: &str, ast: &File)
        requires
            old(self).wf(),
        ensures
            final(self).wf(),
            old(self).scope_seq().len() < u32::MAX ==> final(self).file_root(file_path@) is Some,
            final(self).file_root(file_path@) matches Some(root) ==> {
                let r = root.0 as int;
                &&& 0 <= r < final(self).scope_seq().len()
                &&& final(self).scope_seq()[r].parent is None
                &&& final(self).scope_seq()[r].kind == ScopeKind::File
                &&& forall|n: Seq<char>|
                    #[trigger] final(self).bound_in(r, n) is Some ==> top_declares(ast.items@, n)
                &&& forall|n: Seq<char>|
                    (#[trigger] chain_lookup(final(self).scope_seq(), r, n) is Some) == (final(self).bound_in(r, n) is Some)
                &&& final(self).symbols().len() < u32::MAX && final(self).scope_seq().len() < u32::MAX ==> forall|
                    n: Seq<char>,
                | #[trigger] top_declares(ast.items@, n) ==> final(self).bound_in(r, n) is Some
                &&& views(final(self).direct_includes(file_path@)) == item_include_paths(ast.items@)
            },
            final(self).file_root(file_path@) is None ==> final(self).direct_includes(file_path@).len() == 0,
            ({
                let kept = diags_without(old(self).diags(), file_path@);
                &&& kept.len() <= final(self).diags().len()
                &&& final(self).diags().subrange(0, kept.len() as int) == kept
                &&& forall|k: int|
                    kept.len() <= k < final(self).diags().len() ==> (#[trigger] final(self).diags()[k]).kind
                        == DiagnosticKind::DuplicateSymbol
                &&& final(self).symbols().len() < u32::MAX && final(self).scope_seq().len() < u32::MAX && top_duplicate(
                    ast.items@,
                ) ==> final(self).diags().len() > kept.len()
            }),
    {
        // Remove old data for this file if it exists.
        self.remove_file(file_path);
        if self.scopes.len() >= 0xffff_ffffusize {
            return;
        }
        // Create the file-level scope.
        let ghost cleared = *self;
        proof {
            self.scopes.lemma_wf();
        }
        let root_scope = self.scopes.create_root(ScopeKind::File);
        proof {
            assert forall|i: int, n: Seq<char>| 0 <= i < cleared.scopes.scopes().len() implies #[trigger] self.scopes.scopes()[i].bound(n) == cleared.scopes.scopes()[i].bound(n) by {
                assert(self.scopes.scopes()[i] == cleared.scopes.scopes()[i]);
            }
            self.lemma_wf_after_new_scope(cleared);
        }
        let mut c = Collect {
            file: copy(file_path),
            current_scope: root_scope,
            file_scope_ids: Vec::new(),
            file_symbol_ids: Vec::new(),
        };
        c.file_scope_ids.push(root_scope);
        let ghost start = *self;
        let ghost r = root_scope.0 as int;
        assert(ast.items@.subrange(0, 0) =~= Seq::<Item>::empty());

        // Walk the AST.
        let mut i: usize = 0;
        while i < ast.items.len()
            invariant
                i <= ast.items@.len(),
                self.collect_ok(c),
                c.current_scope == root_scope,
                root_scope.0 < self.scopes.scopes().len(),
                key_index(self.include_list(), file_path@) is None,
                r == root_scope.0 as int,
                r < start.scope_seq().len(),
                start.scope_seq()[r].parent is None,
                start.scope_seq()[r].kind == ScopeKind::File,
                forall|n: Seq<char>| start.bound_in(r, n) is None,
                self.grew(start),
                forall|n: Seq<char>|
                    #[trigger] self.bound_in(r, n) is Some ==> top_declares(ast.items@.subrange(0, i as int), n),
                self.symbols().len() < u32::MAX && self.scope_seq().len() < u32::MAX ==> forall|n: Seq<char>|
                    #[trigger] top_declares(ast.items@.subrange(0, i as int), n) ==> self.bound_in(r, n) is Some,
                self.symbols().len() < u32::MAX && self.scope_seq().len() < u32::MAX && top_duplicate(
                    ast.items@.subrange(0, i as int),
                ) ==> self.diags().len() > start.diags().len(),
            decreases ast.items@.len() - i,
        {
            let ghost its = ast.items@;
            let ghost pre = *self;
            assert(its.subrange(0, i + 1).drop_last() =~= its.subrange(0, i as int));
            assert(its.subrange(0, i + 1).last() == its[i as int]);
            match &ast.items[i] {
                Item::TemplateDef(t) => self.visit_template_def(&mut c, t),
                Item::FunctionDef(f) => self.visit_function_def(&mut c, f),
                Item::BusDef(b) => self.visit_bus_def(&mut c, b),
                _ => {},
            }
            proof {
                assert forall|n: Seq<char>| #[trigger] self.bound_in(r, n) is Some implies top_declares(
                    its.subrange(0, i + 1),
                    n,
                ) by {
                    if item_decl_name(its[i as int]) != Some(n) {
                        assert(self.bound_in(r, n) == pre.bound_in(r, n));
                    }
                }
                if self.symbols().len() < u32::MAX && self.scope_seq().len() < u32::MAX && top_duplicate(
                    its.subrange(0, i + 1),
                ) {
                    if !top_duplicate(its.subrange(0, i as int)) {
                        let n = item_decl_name(its[i as int])->0;
                        assert(top_declares(its.subrange(0, i as int), n));
                        assert(pre.bound_in(r, n) is Some);
                    }
                }
                if self.symbols().len() < u32::MAX && self.scope_seq().len() < u32::MAX {
                    assert forall|n: Seq<char>| #[trigger] top_declares(its.subrange(0, i + 1), n) implies self.bound_in(
                        r,
                        n,
                    ) is Some by {
                        if item_decl_name(its[i as int]) != Some(n) {
                            assert(top_declares(its.subrange(0, i as int), n));
                            assert(self.bound_in(r, n) == pre.bound_in(r, n));
                        }
                    }
                }
            }
            i += 1;
        }
        assert(ast.items@.subrange(0, ast.items@.len() as int) =~= ast.items@);
        let ghost walked = *self;
        assert forall|n: Seq<char>| #[trigger] walked.bound_in(r, n) is Some implies top_declares(ast.items@, n) by {
            assert(top_declares(ast.items@.subrange(0, i as int), n));
        }
        assert(walked.symbols().len() < u32::MAX && walked.scope_seq().len() < u32::MAX ==> forall|n: Seq<char>|
            #[trigger] top_declares(ast.items@, n) ==> walked.bound_in(r, n) is Some);

        // Collect includes.
        let mut include_paths: Vec<String> = Vec::new();
        let mut k: usize = 0;
        while k < ast.items.len()
            invariant
                k <= ast.items@.len(),
                self.collect_ok(c),
                root_scope.0 < self.scopes.scopes().len(),
                key_index(self.include_list(), file_path@) is None,
                *self == walked,
                views(include_paths@) == item_include_paths(ast.items@.subrange(0, k as int)),
            decreases ast.items@.len() - k,
        {
            let ghost its = ast.items@;
            assert(its.subrange(0, k + 1).drop_last() =~= its.subrange(0, k as int));
            assert(its.subrange(0, k + 1).last() == its[k as int]);
            let ghost before = include_paths@;
            match &ast.items[k] {
                Item::Include(inc) => include_paths.push(copy(inc.path.as_str())),
                _ => {},
            }
            assert(views(include_paths@) =~= item_include_paths(its.subrange(0, k + 1)));
            k += 1;
        }
        let ghost inc_view = views(include_paths@);
        let ghost prev = self.file_scopes@;
        let ghost before_push = *self;
        let ghost cs = c;
        self.file_scopes.push(
            (copy(file_path), FileEntry { root_scope, scope_ids: c.file_scope_ids, symbol_ids: c.file_symbol_ids }),
        );
        let ghost incs_before = self.includes@;
        self.includes.push((copy(file_path), include_paths));
        proof {
            lemma_key_index(incs_before, file_path@);
            assert forall|i: int, j: int| 0 <= i < j < self.includes@.len() implies (#[trigger] self.includes@[i]).0@
                != (#[trigger] self.includes@[j]).0@ by {
                assert(self.includes@[i] == incs_before[i]);
                if j < incs_before.len() {
                    assert(self.includes@[j] == incs_before[j]);
                }
            }
            lemma_key_index(self.file_scopes@, file_path@);
            assert(self.file_scopes@[self.file_scopes@.len() - 1].0@ == file_path@);
            assert forall|j: int| 0 <= j < self.file_scopes@.len() implies entry_ok(
                (#[trigger] self.file_scopes@[j]).1,
                self.scopes.scopes().len(),
                self.symbols@.len(),
            ) by {
                if j < prev.len() {
                    assert(self.file_scopes@[j] == prev[j]);
                } else {
                    assert(self.file_scopes@[j].1.scope_ids == cs.file_scope_ids);
                    assert(self.file_scopes@[j].1.symbol_ids == cs.file_symbol_ids);
                    assert(self.file_scopes@[j].1.root_scope == root_scope);
                }
            }
            self.lemma_wf_same_bindings(before_push);
            assert(self.includes@.drop_last() =~= incs_before);
            assert(key_index(self.include_list(), file_path@) == Some(self.includes@.len() - 1));
            assert(self.file_scopes@.drop_last() =~= prev);
            assert(key_index(prev, file_path@) is None);
            assert(self.direct_includes(file_path@) == self.includes@.last().1@);
            assert(self.file_root(file_path@) == Some(root_scope));
            assert(self.scope_seq() == walked.scope_seq());
            assert(self.symbols() == walked.symbols());
            assert forall|n: Seq<char>|
                (#[trigger] chain_lookup(self.scope_seq(), r, n) is Some) == (self.bound_in(r, n) is Some) by {
            }
            assert(0 <= r < self.scope_seq().len());
            assert(self.scope_seq()[r].parent is None);
            assert(self.scope_seq()[r].kind == ScopeKind::File);
            assert forall|n: Seq<char>| #[trigger] self.bound_in(r, n) is Some implies top_declares(ast.items@, n) by {
                assert(self.bound_in(r, n) == walked.bound_in(r, n));
            }
            assert(views(self.direct_includes(file_path@)) == item_include_paths(ast.items@));
        }
    }

    /// Changing only the file records, each of which fits, keeps the
    /// table well formed.
    proof fn lemma_wf_same_bindings(self, prev: SymbolTable)
        requires
            prev.wf(),
            self.scopes == prev.scopes,
            self.symbols == prev.symbols,
            keys_distinct(self.includes@),
            forall|j: int| 0 <= j < self.file_scopes@.len() ==> entry_ok(
                (#[trigger] self.file_scopes@[j]).1,
                self.scopes.scopes().len(),
                self.symbols@.len(),
            ),
        ensures
            self.wf(),
    {
        assert forall|i: int, n: Seq<char>, k: int|
            #![trigger self.bound_in(i, n), self.bound_in(i, n)->0[k]]
            0 <= i < self.scopes.scopes().len() && self.bound_in(i, n) is Some && 0 <= k < self.bound_in(i, n)->0.len()
                implies self.bound_in(i, n)->0[k].0 < self.symbols@.len()
                && self.symbols@[self.bound_in(i, n)->0[k].0 as int].name@ == n by {
            assert(prev.bound_in(i, n) == self.bound_in(i, n));
            assert(prev.bound_in(i, n)->0[k] == self.bound_in(i, n)->0[k]);
        }
    }

    /// A new scope that binds nothing keeps the table well formed.
    proof fn lemma_wf_after_new_scope(self, prev: SymbolTable)
        requires
            prev.wf(),
            self.scopes.wf(),
            self.symbols == prev.symbols,
            self.file_scopes == prev.file_scopes,
            self.includes == prev.includes,
            self.scopes.scopes().len() == prev.scopes.scopes().len() + 1,
            forall|n: Seq<char>| self.scopes.scopes().last().bound(n) is None,
            forall|i: int, n: Seq<char>| 0 <= i < prev.scopes.scopes().len() ==> #[trigger] self.scopes.scopes()[i].bound(n) == prev.scopes.scopes()[i].bound(n),
        ensures
            self.wf(),
    {
        assert forall|i: int, n: Seq<char>, k: int|
            #![trigger self.bound_in(i, n), self.bound_in(i, n)->0[k]]
            0 <= i < self.scopes.scopes().len() && self.bound_in(i, n) is Some && 0 <= k < self.bound_in(i, n)->0.len()
                implies self.bound_in(i, n)->0[k].0 < self.symbols@.len()
                && self.symbols@[self.bound_in(i, n)->0[k].0 as int].name@ == n by {
            if i < prev.scopes.scopes().len() {
                assert(self.bound_in(i, n) == prev.bound_in(i, n));
                assert(prev.bound_in(i, n)->0[k] == self.bound_in(i, n)->0[k]);
            } else {
                assert(self.scopes.scopes()[i] == self.scopes.scopes().last());
            }
        }
        assert forall|j: int| 0 <= j < self.file_scopes@.len() implies entry_ok(
            (#[trigger] self.file_scopes@[j]).1,
            self.scopes.scopes().len(),
            self.symbols@.len(),
        ) by {
            assert(entry_ok(prev.file_scopes@[j].1, prev.scopes.scopes().len(), prev.symbols@.len()));
        }
    }

    /// Define a symbol named `name` in the current scope, reporting a
    /// duplicate when the scope binds the name already. Does nothing once
    /// the table holds `u32::MAX` symbols.
    fn define_symbol(&mut self, c: &mut Collect, name: &str, kind: SymbolKind, span: Span)
        requires
            old(self).collect_ok(*old(c)),
        ensures
            final(self).collect_ok(*final(c)),
            final(self).grew(*old(self)),
            final(self).kept_outside(*old(self), old(c).current_scope.0 as int),
            final(c).current_scope == old(c).current_scope,
            old(self).symbols().len() >= u32::MAX ==> *final(self) == *old(self) && *final(c) == *old(c),
            old(self).symbols().len() < u32::MAX ==> {
                let id = SymbolId(old(self).symbols().len() as u32);
                let cs = old(c).current_scope.0 as int;
                &&& final(self).symbols() == old(self).symbols().push(final(self).symbols().last())
                &&& final(self).symbols().last().id == id
                &&& final(self).symbols().last().name@ == name@
                &&& final(self).symbols().last().kind == kind
                &&& final(self).symbols().last().span == span
                &&& final(self).symbols().last().scope == old(c).current_scope
                &&& final(self).symbols().last().file@ == old(c).file@
                &&& final(self).scope_seq().len() == old(self).scope_seq().len()
                &&& final(self).bound_in(cs, name@) == Some(
                    match old(self).bound_in(cs, name@) {
                        Some(ids) => ids.push(id),
                        None => seq![id],
                    },
                )
                &&& forall|n: Seq<char>| n != name@ ==> #[trigger] final(self).bound_in(cs, n) == old(self).bound_in(cs, n)
                &&& forall|i: int|
                    0 <= i < old(self).scope_seq().len() && i != cs ==> #[trigger] final(self).scope_seq()[i]
                        == old(self).scope_seq()[i]
                &&& final(c).file_symbol_ids@ == old(c).file_symbol_ids@.push(id)
                &&& final(c).file_scope_ids == old(c).file_scope_ids
                &&& final(c).file == old(c).file
                &&& if old(self).bound_in(cs, name@) is Some {
                    &&& final(self).diags().len() == old(self).diags().len() + 1
                    &&& final(self).diags().drop_last() == old(self).diags()
                    &&& final(self).diags().last().kind == DiagnosticKind::DuplicateSymbol
                    &&& final(self).diags().last().span == span
                    &&& final(self).diags().last().file@ == old(c).file@
                } else {
                    final(self).diags() == old(self).diags()
                }
            },
    {
        if self.symbols.len() >= 0xffff_ffffusize {
            return;
        }
        let ghost prev = *self;
        let id = self.alloc_symbol(name, kind, span, c.current_scope, c.file.as_str());
        c.file_symbol_ids.push(id);
        let ghost mid = *self;
        let is_dup = self.scopes.insert_symbol(c.current_scope, name, id);
        proof {
            let cs = c.current_scope.0 as int;
            assert forall|i: int, n: Seq<char>, k: int|
                #![trigger self.bound_in(i, n), self.bound_in(i, n)->0[k]]
                0 <= i < self.scopes.scopes().len() && self.bound_in(i, n) is Some && 0 <= k < self.bound_in(i, n)->0.len()
                    implies self.bound_in(i, n)->0[k].0 < self.symbols@.len()
                    && self.symbols@[self.bound_in(i, n)->0[k].0 as int].name@ == n by {
                if i == cs && n == name@ {
                    match prev.bound_in(i, n) {
                        Some(ids) => {
                            if k < ids.len() {
                                assert(self.bound_in(i, n)->0[k] == ids[k]);
                                assert(prev.bound_in(i, n)->0[k] == ids[k]);
                                assert(self.symbols@[ids[k].0 as int] == prev.symbols@[ids[k].0 as int]);
                            }
                        },
                        None => {},
                    }
                } else if i == cs {
                    assert(self.bound_in(i, n) == prev.bound_in(i, n));
                    assert(self.symbols@[prev.bound_in(i, n)->0[k].0 as int] == prev.symbols@[prev.bound_in(i, n)->0[k].0 as int]);
                } else {
                    assert(self.scopes.scopes()[i] == prev.scopes.scopes()[i]);
                    assert(self.bound_in(i, n) == prev.bound_in(i, n));
                    assert(self.symbols@[prev.bound_in(i, n)->0[k].0 as int] == prev.symbols@[prev.bound_in(i, n)->0[k].0 as int]);
                }
            }
        }
        if is_dup {
            let mut message = String::from_str("duplicate symbol '");
            message.append(name);
            message.append("'");
            self.diagnostics.push(SymbolDiagnostic { span, message, kind: DiagnosticKind::DuplicateSymbol, file: copy(c.file.as_str()) });
            assert(self.diags().drop_last() =~= old(self).diags());
        }
    }

    /// Enter a new child scope of the current one. Stays in the current
    /// scope once the tree holds `u32::MAX` scopes.
    fn push_scope(&mut self, c: &mut Collect, kind: ScopeKind)
        requires
            old(self).collect_ok(*old(c)),
        ensures
            final(self).collect_ok(*final(c)),
            final(self).grew(*old(self)),
            final(self).kept_outside(*old(self), old(c).current_scope.0 as int),
            old(self).scope_seq().len() >= u32::MAX ==> *final(self) == *old(self) && *final(c) == *old(c),
            old(self).scope_seq().len() < u32::MAX ==> {
                let id = ScopeId(old(self).scope_seq().len() as u32);
                let p = old(c).current_scope.0 as int;
                &&& final(c).current_scope == id
                &&& final(c).file_scope_ids@ == old(c).file_scope_ids@.push(id)
                &&& final(c).file_symbol_ids == old(c).file_symbol_ids
                &&& final(c).file == old(c).file
                &&& final(self).symbols() == old(self).symbols()
                &&& final(self).diags() == old(self).diags()
                &&& final(self).scope_seq().len() == old(self).scope_seq().len() + 1
                &&& final(self).scope_seq().last().kind == kind
                &&& final(self).scope_seq().last().parent == Some(old(c).current_scope)
                &&& final(self).scope_seq().last().children@ == Seq::<ScopeId>::empty()
                &&& forall|n: Seq<char>| #[trigger] final(self).scope_seq().last().bound(n) is None
                &&& final(self).scope_seq()[p].children@ == old(self).scope_seq()[p].children@.push(id)
                &&& forall|n: Seq<char>| #[trigger] final(self).bound_in(p, n) == old(self).bound_in(p, n)
                &&& forall|i: int|
                    0 <= i < old(self).scope_seq().len() && i != p ==> #[trigger] final(self).scope_seq()[i]
                        == old(self).scope_seq()[i]
            },
    {
        if self.scopes.len() >= 0xffff_ffffusize {
            return;
        }
        let ghost prev = *self;
        let new_scope = self.scopes.create_child(c.current_scope, kind);
        proof {
            assert forall|i: int, n: Seq<char>| 0 <= i < prev.scopes.scopes().len() implies #[trigger] self.scopes.scopes()[i].bound(n) == prev.scopes.scopes()[i].bound(n) by {
                if i != c.current_scope.0 {
                    assert(self.scopes.scopes()[i] == prev.scopes.scopes()[i]);
                }
            }
            self.lemma_wf_after_new_scope(prev);
        }
        c.file_scope_ids.push(new_scope);
        c.current_scope = new_scope;
    }

    /// Define each parameter in the current scope.
    fn define_params(&mut self, c: &mut Collect, params: &Vec<Identifier>)
        requires
            old(self).collect_ok(*old(c)),
        ensures
            final(self).collect_ok(*final(c)),
            final(self).grew(*old(self)),
            final(self).kept_outside(*old(self), old(c).current_scope.0 as int),
            final(c).current_scope == old(c).current_scope,
            old(self).symbols().len() + params@.len() <= u32::MAX ==> {
                &&& final(self).symbols().len() == old(self).symbols().len() + params@.len()
                &&& final(self).symbols().subrange(0, old(self).symbols().len() as int) == old(self).symbols()
                &&& forall|k: int|
                    0 <= k < params@.len() ==> {
                        let sym = #[trigger] final(self).symbols()[old(self).symbols().len() + k];
                        &&& sym.name@ == params@[k].name@
                        &&& sym.kind == SymbolKind::Parameter
                        &&& sym.span == params@[k].span
                        &&& sym.scope == old(c).current_scope
                    }
            },
    {
        let mut i: usize = 0;
        while i < params.len()
            invariant
                i <= params@.len(),
                self.collect_ok(*c),
                self.grew(*old(self)),
                self.kept_outside(*old(self), old(c).current_scope.0 as int),
                c.current_scope == old(c).current_scope,
                old(self).symbols().len() + params@.len() <= u32::MAX ==> {
                    &&& self.symbols().len() == old(self).symbols().len() + i
                    &&& self.symbols().subrange(0, old(self).symbols().len() as int) == old(self).symbols()
                    &&& forall|k: int|
                        0 <= k < i ==> {
                            let sym = #[trigger] self.symbols()[old(self).symbols().len() + k];
                            &&& sym.name@ == params@[k].name@
                            &&& sym.kind == SymbolKind::Parameter
                            &&& sym.span == params@[k].span
                            &&& sym.scope == old(c).current_scope
                        }
                },
            decreases params@.len() - i,
        {
            let ghost before = self.symbols();
            self.define_symbol(c, params[i].name.as_str(), SymbolKind::Parameter, params[i].span);
            proof {
                if old(self).symbols().len() + params@.len() <= u32::MAX {
                    let o = old(self).symbols().len() as int;
                    assert(self.symbols().subrange(0, o) =~= before.subrange(0, o));
                    assert forall|k: int| 0 <= k < i + 1 implies {
                        let sym = #[trigger] self.symbols()[o + k];
                        &&& sym.name@ == params@[k].name@
                        &&& sym.kind == SymbolKind::Parameter
                        &&& sym.span == params@[k].span
                        &&& sym.scope == old(c).current_scope
                    } by {
                        if k < i {
                            assert(self.symbols()[o + k] == before[o + k]);
                        }
                    }
                }
            }
            i += 1;
        }
    }

    /// Visit statements in the current scope.
    fn visit_statements(&mut self, c: &mut Collect, stmts: &Vec<Statement>)
        requires
            old(self).collect_ok(*old(c)),
        ensures
            final(self).collect_ok(*final(c)),
            final(self).grew(*old(self)),
            final(self).kept_outside(*old(self), old(c).current_scope.0 as int),
            final(c).current_scope == old(c).current_scope,
        decreases stmts, 1nat,
    {
        let mut i: usize = 0;
        while i < stmts.len()
            invariant
                i <= stmts@.len(),
                self.collect_ok(*c),
                self.grew(*old(self)),
                self.kept_outside(*old(self), old(c).current_scope.0 as int),
                c.current_scope == old(c).current_scope,
            decreases stmts@.len() - i,
        {
            assert(decreases_to!(stmts => stmts@[i as int]));
            self.visit_statement(c, &stmts[i]);
            i += 1;
        }
    }

    fn visit_template_def(&mut self, c: &mut Collect, node: &TemplateDef)
        requires
            old(self).collect_ok(*old(c)),
        ensures
            forall|n: Seq<char>|
                n != node.name.name@ ==> #[trigger] final(self).bound_in(old(c).current_scope.0 as int, n) == old(
                    self,
                ).bound_in(old(c).current_scope.0 as int, n),
            old(self).scope_seq().len() < u32::MAX && old(self).symbols().len() < u32::MAX ==> final(self).bound_in(
                old(c).current_scope.0 as int,
                node.name.name@,
            ) is Some,
            old(self).scope_seq().len() < u32::MAX && old(self).symbols().len() < u32::MAX && old(self).bound_in(
                old(c).current_scope.0 as int,
                node.name.name@,
            ) is Some ==> final(self).diags().len() > old(self).diags().len(),
            final(self).collect_ok(*final(c)),
            final(self).grew(*old(self)),
            final(self).kept_outside(*old(self), old(c).current_scope.0 as int),
            final(c).current_scope == old(c).current_scope,
            old(self).scope_seq().len() >= u32::MAX ==> *final(self) == *old(self),
            old(self).scope_seq().len() < u32::MAX && old(self).symbols().len() < u32::MAX ==> {
                let sid = ScopeId(old(self).scope_seq().len() as u32);
                let o = old(self).symbols().len() as int;
                let sym = final(self).symbols()[o];
                &&& final(self).scope_seq().len() > old(self).scope_seq().len()
                &&& final(self).scope_seq()[sid.0 as int].kind == ScopeKind::Template
                &&& final(self).scope_seq()[sid.0 as int].parent == Some(old(c).current_scope)
                &&& final(self).symbols().len() > o
                &&& sym.name@ == node.name.name@
                &&& sym.span == node.name.span
                &&& sym.scope == old(c).current_scope
                &&& sym.kind matches SymbolKind::Template(ts) && ts.body_scope == sid && views(ts.params@)
                    == node.params@.map_values(|p: Identifier| p.name@) && ts.is_custom == node.is_custom
                    && ts.is_parallel == node.is_parallel
                &&& o + 1 + node.params@.len() <= u32::MAX ==> forall|k: int|
                    0 <= k < node.params@.len() ==> {
                        let ps = #[trigger] final(self).symbols()[o + 1 + k];
                        &&& ps.name@ == node.params@[k].name@
                        &&& ps.kind == SymbolKind::Parameter
                        &&& ps.span == node.params@[k].span
                        &&& ps.scope == sid
                    }
            },
    {
        let outer_scope = c.current_scope;
        let before = self.scopes.len();
        // Create the body scope first so we can reference it in the symbol.
        self.push_scope(c, ScopeKind::Template);
        if self.scopes.len() == before {
            c.current_scope = outer_scope;
            return;
        }
        let body_scope = c.current_scope;
        c.current_scope = outer_scope;
        self.define_symbol(
            c,
            node.name.name.as_str(),
            SymbolKind::Template(
                TemplateSymbol { params: ident_names(&node.params), is_custom: node.is_custom, is_parallel: node.is_parallel, body_scope },
            ),
            node.name.span,
        );
        // Enter the body scope to define parameters and body symbols.
        c.current_scope = body_scope;
        self.define_params(c, &node.params);
        // The body's statements go straight into the body scope.
        self.visit_statements(c, &node.body.stmts);
        c.current_scope = outer_scope;
    }

    fn visit_function_def(&mut self, c: &mut Collect, node: &FunctionDef)
        requires
            old(self).collect_ok(*old(c)),
        ensures
            forall|n: Seq<char>|
                n != node.name.name@ ==> #[trigger] final(self).bound_in(old(c).current_scope.0 as int, n) == old(
                    self,
                ).bound_in(old(c).current_scope.0 as int, n),
            old(self).scope_seq().len() < u32::MAX && old(self).symbols().len() < u32::MAX ==> final(self).bound_in(
                old(c).current_scope.0 as int,
                node.name.name@,
            ) is Some,
            old(self).scope_seq().len() < u32::MAX && old(self).symbols().len() < u32::MAX && old(self).bound_in(
                old(c).current_scope.0 as int,
                node.name.name@,
            ) is Some ==> final(self).diags().len() > old(self).diags().len(),
            final(self).collect_ok(*final(c)),
            final(self).grew(*old(self)),
            final(self).kept_outside(*old(self), old(c).current_scope.0 as int),
            final(c).current_scope == old(c).current_scope,
            old(self).scope_seq().len() >= u32::MAX ==> *final(self) == *old(self),
            old(self).scope_seq().len() < u32::MAX && old(self).symbols().len() < u32::MAX ==> {
                let sid = ScopeId(old(self).scope_seq().len() as u32);
                let o = old(self).symbols().len() as int;
                let sym = final(self).symbols()[o];
                &&& final(self).scope_seq().len() > old(self).scope_seq().len()
                &&& final(self).scope_seq()[sid.0 as int].kind == ScopeKind::Function
                &&& final(self).scope_seq()[sid.0 as int].parent == Some(old(c).current_scope)
                &&& final(self).symbols().len() > o
                &&& sym.name@ == node.name.name@
                &&& sym.span == node.name.span
                &&& sym.scope == old(c).current_scope
                &&& sym.kind matches SymbolKind::Function(ts) && ts.body_scope == sid && views(ts.params@)
                    == node.params@.map_values(|p: Identifier| p.name@)
                &&& o + 1 + node.params@.len() <= u32::MAX ==> forall|k: int|
                    0 <= k < node.params@.len() ==> {
                        let ps = #[trigger] final(self).symbols()[o + 1 + k];
                        &&& ps.name@ == node.params@[k].name@
                        &&& ps.kind == SymbolKind::Parameter
                        &&& ps.span == node.params@[k].span
                        &&& ps.scope == sid
                    }
            },
    {
        let outer_scope = c.current_scope;
        let before = self.scopes.len();
        self.push_scope(c, ScopeKind::Function);
        if self.scopes.len() == before {
            c.current_scope = outer_scope;
            return;
        }
        let body_scope = c.current_scope;
        c.current_scope = outer_scope;
        self.define_symbol(
            c,
            node.name.name.as_str(),
            SymbolKind::Function(FunctionSymbol { params: ident_names(&node.params), body_scope }),
            node.name.span,
        );
        c.current_scope = body_scope;
        self.define_params(c, &node.params);
        self.visit_statements(c, &node.body.stmts);
        c.current_scope = outer_scope;
    }

    fn visit_bus_def(&mut self, c: &mut Collect, node: &BusDef)
        requires
            old(self).collect_ok(*old(c)),
        ensures
            forall|n: Seq<char>|
                n != node.name.name@ ==> #[trigger] final(self).bound_in(old(c).current_scope.0 as int, n) == old(
                    self,
                ).bound_in(old(c).current_scope.0 as int, n),
            old(self).scope_seq().len() < u32::MAX && old(self).symbols().len() < u32::MAX ==> final(self).bound_in(
                old(c).current_scope.0 as int,
                node.name.name@,
            ) is Some,
            old(self).scope_seq().len() < u32::MAX && old(self).symbols().len() < u32::MAX && old(self).bound_in(
                old(c).current_scope.0 as int,
                node.name.name@,
            ) is Some ==> final(self).diags().len() > old(self).diags().len(),
            final(self).collect_ok(*final(c)),
            final(self).grew(*old(self)),
            final(self).kept_outside(*old(self), old(c).current_scope.0 as int),
            final(c).current_scope == old(c).current_scope,
            old(self).scope_seq().len() >= u32::MAX ==> *final(self) == *old(self),
            old(self).scope_seq().len() < u32::MAX && old(self).symbols().len() < u32::MAX ==> {
                let sid = ScopeId(old(self).scope_seq().len() as u32);
                let o = old(self).symbols().len() as int;
                let sym = final(self).symbols()[o];
                &&& final(self).scope_seq().len() > old(self).scope_seq().len()
                &&& final(self).scope_seq()[sid.0 as int].kind == ScopeKind::Bus
                &&& final(self).scope_seq()[sid.0 as int].parent == Some(old(c).current_scope)
                &&& final(self).symbols().len() > o
                &&& sym.name@ == node.name.name@
                &&& sym.span == node.name.span
                &&& sym.scope == old(c).current_scope
                &&& sym.kind matches SymbolKind::Bus(ts) && ts.body_scope == sid && views(ts.params@)
                    == node.params@.map_values(|p: Identifier| p.name@)
                &&& o + 1 + node.params@.len() <= u32::MAX ==> forall|k: int|
                    0 <= k < node.params@.len() ==> {
                        let ps = #[trigger] final(self).symbols()[o + 1 + k];
                        &&& ps.name@ == node.params@[k].name@
                        &&& ps.kind == SymbolKind::Parameter
                        &&& ps.span == node.params@[k].span
                        &&& ps.scope == sid
                    }
            },
    {
        let outer_scope = c.current_scope;
        let before = self.scopes.len();
        self.push_scope(c, ScopeKind::Bus);
        if self.scopes.len() == before {
            c.current_scope = outer_scope;
            return;
        }
        let body_scope = c.current_scope;
        c.current_scope = outer_scope;
        self.define_symbol(
            c,
            node.name.name.as_str(),
            SymbolKind::Bus(BusSymbol { params: ident_names(&node.params), body_scope }),
            node.name.span,
        );
        c.current_scope = body_scope;
        self.define_params(c, &node.params);
        let ghost mid = *self;
        let mut i: usize = 0;
        while i < node.body.len()
            invariant
                i <= node.body@.len(),
                self.collect_ok(*c),
                self.grew(*old(self)),
                self.kept_outside(*old(self), old(c).current_scope.0 as int),
                self.grew(mid),
                self.kept_outside(mid, body_scope.0 as int),
                body_scope.0 >= old(self).scope_seq().len(),
                c.current_scope == body_scope,
            decreases node.body@.len() - i,
        {
            match &node.body[i] {
                BusMember::Signal(sig) => {
                    let mut e: usize = 0;
                    while e < sig.names.len()
                        invariant
                            e <= sig.names@.len(),
                            self.collect_ok(*c),
                            self.grew(*old(self)),
                            self.kept_outside(*old(self), old(c).current_scope.0 as int),
                            self.kept_outside(mid, body_scope.0 as int),
                            body_scope.0 >= old(self).scope_seq().len(),
                            self.grew(mid),
                            c.current_scope == body_scope,
                        decreases sig.names@.len() - e,
                    {
                        let entry = &sig.names[e];
                        self.define_symbol(
                            c,
                            entry.name.name.as_str(),
                            SymbolKind::Signal(
                                SignalSymbol { kind: sig.kind, tags: ident_names(&sig.tags), bus_type: None, dimensions: entry.dimensions.len() },
                            ),
                            entry.name.span,
                        );
                        e += 1;
                    }
                },
                BusMember::Bus(field) => {
                    // Bus fields carry no signal kind in the AST; they are
                    // recorded as inputs.
                    self.define_symbol(
                        c,
                        field.name.name.as_str(),
                        SymbolKind::Signal(
                            SignalSymbol {
                                kind: SignalKind::Input,
                                tags: ident_names(&field.tags),
                                bus_type: Some(copy(field.bus_type.name.name.as_str())),
                                dimensions: field.dimensions.len(),
                            },
                        ),
                        field.name.span,
                    );
                },
            }
            i += 1;
        }
        c.current_scope = outer_scope;
    }

    fn visit_var_decl(&mut self, c: &mut Collect, node: &VarDecl)
        requires
            old(self).collect_ok(*old(c)),
        ensures
            final(self).collect_ok(*final(c)),
            final(self).grew(*old(self)),
            final(self).kept_outside(*old(self), old(c).current_scope.0 as int),
            final(c).current_scope == old(c).current_scope,
            old(self).symbols().len() + node.names@.len() <= u32::MAX ==> {
                &&& final(self).symbols().len() == old(self).symbols().len() + node.names@.len()
                &&& final(self).symbols().subrange(0, old(self).symbols().len() as int) == old(self).symbols()
                &&& forall|k: int|
                    0 <= k < node.names@.len() ==> {
                        let sym = #[trigger] final(self).symbols()[old(self).symbols().len() + k];
                        let e = node.names@[k];
                        &&& sym.name@ == e.name.name@
                        &&& sym.kind == SymbolKind::Variable
                        &&& sym.span == e.name.span
                        &&& sym.scope == old(c).current_scope
                    }
            },
    {
        let mut i: usize = 0;
        while i < node.names.len()
            invariant
                i <= node.names@.len(),
                self.collect_ok(*c),
                self.grew(*old(self)),
                self.kept_outside(*old(self), old(c).current_scope.0 as int),
                c.current_scope == old(c).current_scope,
                old(self).symbols().len() + node.names@.len() <= u32::MAX ==> {
                    &&& self.symbols().len() == old(self).symbols().len() + i
                    &&& self.symbols().subrange(0, old(self).symbols().len() as int) == old(self).symbols()
                    &&& forall|k: int|
                        0 <= k < i ==> {
                            let sym = #[trigger] self.symbols()[old(self).symbols().len() + k];
                            let e = node.names@[k];
                                &&& sym.name@ == e.name.name@
                                &&& sym.kind == SymbolKind::Variable
                                &&& sym.span == e.name.span
                                &&& sym.scope == old(c).current_scope
                        }
                },
            decreases node.names@.len() - i,
        {
            let ghost before = self.symbols();
            let entry = &node.names[i];
            self.define_symbol(c, entry.name.name.as_str(), SymbolKind::Variable, entry.name.span);
            proof {
                if old(self).symbols().len() + node.names@.len() <= u32::MAX {
                    let o = old(self).symbols().len() as int;
                    assert(self.symbols().subrange(0, o) =~= before.subrange(0, o));
                    assert forall|k: int| 0 <= k < i + 1 implies {
                        let sym = #[trigger] self.symbols()[o + k];
                        let e = node.names@[k];
                        &&& sym.name@ == e.name.name@
                        &&& sym.kind == SymbolKind::Variable
                        &&& sym.span == e.name.span
                        &&& sym.scope == old(c).current_scope
                    } by {
                        if k < i {
                            assert(self.symbols()[o + k] == before[o + k]);
                        }
                    }
                }
            }
            i += 1;
        }
    }

    fn visit_signal_decl(&mut self, c: &mut Collect, node: &SignalDecl)
        requires
            old(self).collect_ok(*old(c)),
        ensures
            final(self).collect_ok(*final(c)),
            final(self).grew(*old(self)),
            final(self).kept_outside(*old(self), old(c).current_scope.0 as int),
            final(c).current_scope == old(c).current_scope,
            old(self).symbols().len() + node.names@.len() <= u32::MAX ==> {
                &&& final(self).symbols().len() == old(self).symbols().len() + node.names@.len()
                &&& final(self).symbols().subrange(0, old(self).symbols().len() as int) == old(self).symbols()
                &&& forall|k: int|
                    0 <= k < node.names@.len() ==> {
                        let sym = #[trigger] final(self).symbols()[old(self).symbols().len() + k];
                        let e = node.names@[k];
                        &&& sym.name@ == e.name.name@
                        &&& sym.kind matches SymbolKind::Signal(ss) && ss.kind == node.kind && ss.bus_type is None
                            && ss.dimensions == e.dimensions@.len() && views(ss.tags@) == node.tags@.map_values(|t: Identifier| t.name@)
                        &&& sym.span == e.name.span
                        &&& sym.scope == old(c).current_scope
                    }
            },
    {
        let mut i: usize = 0;
        while i < node.names.len()
            invariant
                i <= node.names@.len(),
                self.collect_ok(*c),
                self.grew(*old(self)),
                self.kept_outside(*old(self), old(c).current_scope.0 as int),
                c.current_scope == old(c).current_scope,
                old(self).symbols().len() + node.names@.len() <= u32::MAX ==> {
                    &&& self.symbols().len() == old(self).symbols().len() + i
                    &&& self.symbols().subrange(0, old(self).symbols().len() as int) == old(self).symbols()
                    &&& forall|k: int|
                        0 <= k < i ==> {
                            let sym = #[trigger] self.symbols()[old(self).symbols().len() + k];
                            let e = node.names@[k];
                                &&& sym.name@ == e.name.name@
                                &&& sym.kind matches SymbolKind::Signal(ss) && ss.kind == node.kind && ss.bus_type is None
                                    && ss.dimensions == e.dimensions@.len() && views(ss.tags@) == node.tags@.map_values(|t: Identifier| t.name@)
                                &&& sym.span == e.name.span
                                &&& sym.scope == old(c).current_scope
                        }
                },
            decreases node.names@.len() - i,
        {
            let ghost before = self.symbols();
            let entry = &node.names[i];
            self.define_symbol(
                c,
                entry.name.name.as_str(),
                SymbolKind::Signal(
                    SignalSymbol { kind: node.kind, tags: ident_names(&node.tags), bus_type: None, dimensions: entry.dimensions.len() },
                ),
                entry.name.span,
            );
            proof {
                if old(self).symbols().len() + node.names@.len() <= u32::MAX {
                    let o = old(self).symbols().len() as int;
                    assert(self.symbols().subrange(0, o) =~= before.subrange(0, o));
                    assert forall|k: int| 0 <= k < i + 1 implies {
                        let sym = #[trigger] self.symbols()[o + k];
                        let e = node.names@[k];
                        &&& sym.name@ == e.name.name@
                        &&& sym.kind matches SymbolKind::Signal(ss) && ss.kind == node.kind && ss.bus_type is None
                            && ss.dimensions == e.dimensions@.len() && views(ss.tags@) == node.tags@.map_values(|t: Identifier| t.name@)
                        &&& sym.span == e.name.span
                        &&& sym.scope == old(c).current_scope
                    } by {
                        if k < i {
                            assert(self.symbols()[o + k] == before[o + k]);
                        }
                    }
                }
            }
            i += 1;
        }
    }

    fn visit_component_decl(&mut self, c: &mut Collect, node: &ComponentDecl)
        requires
            old(self).collect_ok(*old(c)),
        ensures
            final(self).collect_ok(*final(c)),
            final(self).grew(*old(self)),
            final(self).kept_outside(*old(self), old(c).current_scope.0 as int),
            final(c).current_scope == old(c).current_scope,
            old(self).symbols().len() + node.names@.len() <= u32::MAX ==> {
                &&& final(self).symbols().len() == old(self).symbols().len() + node.names@.len()
                &&& final(self).symbols().subrange(0, old(self).symbols().len() as int) == old(self).symbols()
                &&& forall|k: int|
                    0 <= k < node.names@.len() ==> {
                        let sym = #[trigger] final(self).symbols()[old(self).symbols().len() + k];
                        let e = node.names@[k];
                        &&& sym.name@ == e.name.name@
                        &&& sym.kind matches SymbolKind::Component(cs) && match (cs.template_name, e.init) {
                            (Some(t), Some(init)) => call_template_name(init) == Some(t@),
                            (None, Some(init)) => call_template_name(init) is None,
                            (None, None) => true,
                            (Some(_), None) => false,
                        }
                        &&& sym.span == e.name.span
                        &&& sym.scope == old(c).current_scope
                    }
            },
    {
        let mut i: usize = 0;
        while i < node.names.len()
            invariant
                i <= node.names@.len(),
                self.collect_ok(*c),
                self.grew(*old(self)),
                self.kept_outside(*old(self), old(c).current_scope.0 as int),
                c.current_scope == old(c).current_scope,
                old(self).symbols().len() + node.names@.len() <= u32::MAX ==> {
                    &&& self.symbols().len() == old(self).symbols().len() + i
                    &&& self.symbols().subrange(0, old(self).symbols().len() as int) == old(self).symbols()
                    &&& forall|k: int|
                        0 <= k < i ==> {
                            let sym = #[trigger] self.symbols()[old(self).symbols().len() + k];
                            let e = node.names@[k];
                                &&& sym.name@ == e.name.name@
                                &&& sym.kind matches SymbolKind::Component(cs) && match (cs.template_name, e.init) {
                                    (Some(t), Some(init)) => call_template_name(init) == Some(t@),
                                    (None, Some(init)) => call_template_name(init) is None,
                                    (None, None) => true,
                                    (Some(_), None) => false,
                                }
                                &&& sym.span == e.name.span
                                &&& sym.scope == old(c).current_scope
                        }
                },
            decreases node.names@.len() - i,
        {
            let ghost before = self.symbols();
            let entry = &node.names[i];
            let template_name = match &entry.init {
                Some(init) => extract_template_name(init),
                None => None,
            };
            self.define_symbol(c, entry.name.name.as_str(), SymbolKind::Component(ComponentSymbol { template_name }), entry.name.span);
            proof {
                if old(self).symbols().len() + node.names@.len() <= u32::MAX {
                    let o = old(self).symbols().len() as int;
                    assert(self.symbols().subrange(0, o) =~= before.subrange(0, o));
                    assert forall|k: int| 0 <= k < i + 1 implies {
                        let sym = #[trigger] self.symbols()[o + k];
                        let e = node.names@[k];
                        &&& sym.name@ == e.name.name@
                        &&& sym.kind matches SymbolKind::Component(cs) && match (cs.template_name, e.init) {
                            (Some(t), Some(init)) => call_template_name(init) == Some(t@),
                            (None, Some(init)) => call_template_name(init) is None,
                            (None, None) => true,
                            (Some(_), None) => false,
                        }
                        &&& sym.span == e.name.span
                        &&& sym.scope == old(c).current_scope
                    } by {
                        if k < i {
                            assert(self.symbols()[o + k] == before[o + k]);
                        }
                    }
                }
            }
            i += 1;
        }
    }

    fn visit_bus_instance_decl(&mut self, c: &mut Collect, node: &BusInstanceDecl)
        requires
            old(self).collect_ok(*old(c)),
        ensures
            final(self).collect_ok(*final(c)),
            final(self).grew(*old(self)),
            final(self).kept_outside(*old(self), old(c).current_scope.0 as int),
            final(c).current_scope == old(c).current_scope,
            old(self).symbols().len() < u32::MAX ==> {
                let sym = final(self).symbols().last();
                &&& final(self).symbols() == old(self).symbols().push(sym)
                &&& sym.name@ == node.name.name@
                &&& sym.kind matches SymbolKind::Signal(ss) && ss.kind == node.signal_kind && ss.dimensions
                    == node.dimensions@.len() && views(ss.tags@) == node.tags@.map_values(|t: Identifier| t.name@)
                    && (ss.bus_type matches Some(b) && b@ == node.bus_type.name.name@)
                &&& sym.span == node.name.span
                &&& sym.scope == old(c).current_scope
            },
    {
        self.define_symbol(
            c,
            node.name.name.as_str(),
            SymbolKind::Signal(
                SignalSymbol {
                    kind: node.signal_kind,
                    tags: ident_names(&node.tags),
                    bus_type: Some(copy(node.bus_type.name.name.as_str())),
                    dimensions: node.dimensions.len(),
                },
            ),
            node.name.span,
        );
    }

    /// Visit a statement: declarations define symbols, and each block,
    /// loop and branch body gets a scope of its own.
    fn visit_statement(&mut self, c: &mut Collect, node: &Statement)
        requires
            old(self).collect_ok(*old(c)),
        ensures
            final(self).collect_ok(*final(c)),
            final(self).grew(*old(self)),
            final(self).kept_outside(*old(self), old(c).current_scope.0 as int),
            final(c).current_scope == old(c).current_scope,
        decreases node, 0nat,
    {
        let saved = c.current_scope;
        match &node.kind {
            StatementKind::Block(block) => {
                self.push_scope(c, ScopeKind::Block);
                self.visit_statements(c, &block.stmts);
                c.current_scope = saved;
            },
            StatementKind::For(for_loop) => {
                // For loops create a new block scope.
                self.push_scope(c, ScopeKind::Block);
                self.visit_statement(c, &for_loop.init);
                self.visit_statement(c, &for_loop.step);
                self.visit_statements(c, &for_loop.body.stmts);
                c.current_scope = saved;
            },
            StatementKind::While(while_loop) => {
                self.push_scope(c, ScopeKind::Block);
                self.visit_statements(c, &while_loop.body.stmts);
                c.current_scope = saved;
            },
            StatementKind::IfElse(if_else) => {
                self.push_scope(c, ScopeKind::Block);
                self.visit_statements(c, &if_else.then_body.stmts);
                c.current_scope = saved;
                match &if_else.else_body {
                    Some(else_body) => {
                        self.push_scope(c, ScopeKind::Block);
                        self.visit_statements(c, &else_body.stmts);
                        c.current_scope = saved;
                    },
                    None => {},
                }
            },
            StatementKind::VarDecl(v) => self.visit_var_decl(c, v),
            StatementKind::SignalDecl(s) => self.visit_signal_decl(c, s),
            StatementKind::ComponentDecl(d) => self.visit_component_decl(c, d),
            StatementKind::BusDecl(b) => self.visit_bus_instance_decl(c, b),
            _ => {},
        }
    }

    /// Remove all symbols and scopes associated with a file.
    pub fn remove_file(&mut self, file_path: &str)
        requires
            old(self).wf(),
        ensures
            final(self).wf(),
            final(self).file_root(file_path@) is None,
            key_index(final(self).include_list(), file_path@) is None,
            final(self).scope_seq().len() == old(self).scope_seq().len(),
            final(self).symbols() == old(self).symbols(),
            final(self).diags() == diags_without(old(self).diags(), file_path@),
    {
        // Drop the diagnostics of the file.
        let mut kept_diags: Vec<SymbolDiagnostic> = Vec::new();
        let mut old_diags = Vec::new();
        std::mem::swap(&mut old_diags, &mut self.diagnostics);
        let ghost orig = old_diags@;
        let mut rev_diags: Vec<SymbolDiagnostic> = Vec::new();
        assert(orig.subrange(0, orig.len() as int) =~= orig);
        while old_diags.len() > 0
            invariant
                old_diags@.len() + rev_diags@.len() == orig.len(),
                old_diags@ == orig.subrange(0, old_diags@.len() as int),
                forall|t: int| 0 <= t < rev_diags@.len() ==> #[trigger] rev_diags@[t] == orig[orig.len() - 1 - t],
            decreases old_diags@.len(),
        {
            rev_diags.push(old_diags.pop().unwrap());
            assert(old_diags@ =~= orig.subrange(0, old_diags@.len() as int));
        }
        assert(orig.subrange(0, 0) =~= Seq::<SymbolDiagnostic>::empty());
        while rev_diags.len() > 0
            invariant
                rev_diags@.len() <= orig.len(),
                forall|t: int| 0 <= t < rev_diags@.len() ==> #[trigger] rev_diags@[t] == orig[orig.len() - 1 - t],
                kept_diags@ == diags_without(orig.subrange(0, orig.len() - rev_diags@.len()), file_path@),
            decreases rev_diags@.len(),
        {
            let ghost done = orig.len() - rev_diags@.len();
            let d = rev_diags.pop().unwrap();
            proof {
                let t = orig.subrange(0, done + 1);
                assert(t.drop_last() =~= orig.subrange(0, done));
                assert(t.last() == d);
            }
            if !string_eq(&d.file, file_path) {
                kept_diags.push(d);
            }
        }
        assert(orig.subrange(0, orig.len() as int) =~= orig);
        self.diagnostics = kept_diags;
        // Drop the include list of the file.
        let mut old_incs: Vec<(String, Vec<String>)> = Vec::new();
        std::mem::swap(&mut old_incs, &mut self.includes);
        let ghost incs0 = old_incs@;
        let mut rev_incs: Vec<(String, Vec<String>)> = Vec::new();
        while old_incs.len() > 0
            invariant
                old_incs@.len() + rev_incs@.len() == incs0.len(),
                old_incs@ == incs0.take(old_incs@.len() as int),
                forall|t: int| 0 <= t < rev_incs@.len() ==> #[trigger] rev_incs@[t] == incs0[incs0.len() - 1 - t],
            decreases old_incs@.len(),
        {
            let ghost before = old_incs@;
            rev_incs.push(old_incs.pop().unwrap());
            assert(old_incs@ == incs0.take(old_incs@.len() as int)) by {
                assert(old_incs@ =~= before.drop_last());
            }
        }
        let mut kept_incs: Vec<(String, Vec<String>)> = Vec::new();
        while rev_incs.len() > 0
            invariant
                keys_distinct(incs0),
                rev_incs@.len() <= incs0.len(),
                forall|t: int| 0 <= t < rev_incs@.len() ==> #[trigger] rev_incs@[t] == incs0[incs0.len() - 1 - t],
                keys_distinct(kept_incs@),
                forall|m: int| 0 <= m < kept_incs@.len() ==> (#[trigger] kept_incs@[m]).0@ != file_path@,
                forall|m: int|
                    0 <= m < kept_incs@.len() ==> exists|k: int|
                        0 <= k < incs0.len() - rev_incs@.len() && (#[trigger] kept_incs@[m]).0@ == incs0[k].0@,
            decreases rev_incs@.len(),
        {
            let ghost done = incs0.len() - rev_incs@.len();
            let e = rev_incs.pop().unwrap();
            assert(e == incs0[done]);
            if !string_eq(&e.0, file_path) {
                let ghost before = kept_incs@;
                kept_incs.push(e);
                assert forall|i: int, j: int| 0 <= i < j < kept_incs@.len() implies (#[trigger] kept_incs@[i]).0@
                    != (#[trigger] kept_incs@[j]).0@ by {
                    if j == before.len() {
                        let k = choose|k: int| 0 <= k < done && (#[trigger] before[i]).0@ == incs0[k].0@;
                        assert(kept_incs@[i] == before[i]);
                    } else {
                        assert(kept_incs@[i] == before[i] && kept_incs@[j] == before[j]);
                    }
                }
                assert forall|m: int| 0 <= m < kept_incs@.len() implies exists|k: int|
                    0 <= k < incs0.len() - rev_incs@.len() && (#[trigger] kept_incs@[m]).0@ == incs0[k].0@ by {
                    if m == before.len() {
                        assert(kept_incs@[m].0@ == incs0[done].0@);
                    } else {
                        assert(kept_incs@[m] == before[m]);
                    }
                }
            }
        }
        self.includes = kept_incs;
        let n_scopes = self.scopes.len();
        let ghost n_syms = self.symbols@.len();
        // Take out every entry of the file, keeping the others in order.
        let mut old_entries: Vec<(String, FileEntry)> = Vec::new();
        std::mem::swap(&mut old_entries, &mut self.file_scopes);
        let mut rev: Vec<(String, FileEntry)> = Vec::new();
        while old_entries.len() > 0
            invariant
                forall|m: int| 0 <= m < old_entries@.len() ==> entry_ok((#[trigger] old_entries@[m]).1, n_scopes as nat, n_syms),
                forall|m: int| 0 <= m < rev@.len() ==> entry_ok((#[trigger] rev@[m]).1, n_scopes as nat, n_syms),
            decreases old_entries@.len(),
        {
            let e = old_entries.pop().unwrap();
            rev.push(e);
        }
        let mut kept: Vec<(String, FileEntry)> = Vec::new();
        let mut removed: Vec<ScopeId> = Vec::new();
        while rev.len() > 0
            invariant
                forall|m: int| 0 <= m < rev@.len() ==> entry_ok((#[trigger] rev@[m]).1, n_scopes as nat, n_syms),
                forall|m: int| 0 <= m < kept@.len() ==> entry_ok((#[trigger] kept@[m]).1, n_scopes as nat, n_syms),
                forall|m: int| 0 <= m < kept@.len() ==> (#[trigger] kept@[m]).0@ != file_path@,
                forall|m: int| 0 <= m < removed@.len() ==> (#[trigger] removed@[m]).0 < n_scopes,
            decreases rev@.len(),
        {
            let e = rev.pop().unwrap();
            if string_eq(&e.0, file_path) {
                let ids = &e.1.scope_ids;
                let mut k: usize = 0;
                while k < ids.len()
                    invariant
                        k <= ids@.len(),
                        forall|q: int| 0 <= q < ids@.len() ==> (#[trigger] ids@[q]).0 < n_scopes,
                        forall|m: int| 0 <= m < removed@.len() ==> (#[trigger] removed@[m]).0 < n_scopes,
                    decreases ids@.len() - k,
                {
                    removed.push(ids[k]);
                    k += 1;
                }
            } else {
                kept.push(e);
            }
        }
        self.file_scopes = kept;
        let ghost prev = self.scopes.scopes();
        proof {
            self.scopes.lemma_wf();
        }
        self.scopes.remove_scopes(removed.as_slice());
        proof {
            lemma_key_index(self.file_scopes@, file_path@);
            lemma_key_index(self.includes@, file_path@);
            assert forall|i: int, n: Seq<char>, k: int|
                #![trigger self.bound_in(i, n), self.bound_in(i, n)->0[k]]
                0 <= i < self.scopes.scopes().len() && self.bound_in(i, n) is Some && 0 <= k < self.bound_in(i, n)->0.len()
                    implies self.bound_in(i, n)->0[k].0 < self.symbols@.len()
                    && self.symbols@[self.bound_in(i, n)->0[k].0 as int].name@ == n by {
                if removed@.contains(ScopeId(i as u32)) {
                    let q = choose|q: int| 0 <= q < removed@.len() && removed@[q] == ScopeId(i as u32);
                    assert(self.scopes.scopes()[removed@[q].0 as int].bound(n) is None);
                } else {
                    assert(self.scopes.scopes()[i].bound(n) == prev[i].bound(n));
                    assert(old(self).bound_in(i, n) == self.bound_in(i, n));
                    assert(old(self).bound_in(i, n)->0[k] == self.bound_in(i, n)->0[k]);
                }
            }
            assert(self.scopes.scopes().len() == n_scopes);
            assert forall|j: int| 0 <= j < self.file_scopes@.len() implies entry_ok(
                (#[trigger] self.file_scopes@[j]).1,
                self.scopes.scopes().len(),
                self.symbols@.len(),
            ) by {
                assert(entry_ok(self.file_scopes@[j].1, n_scopes as nat, n_syms));
            }
            assert(self.wf());
        }
    }
}

impl SymbolTable {
    /// Run constraint checks on a file's AST and append diagnostics.
    pub fn check_constraints(&mut self, file_path: &str, ast: &File)
        requires
            old(self).wf(),
        ensures
            final(self).wf(),
            final(self).symbols() == old(self).symbols(),
            final(self).diags().len() >= old(self).diags().len(),
            forall|k: int| 0 <= k < old(self).diags().len() ==> #[trigger] final(self).diags()[k] == old(self).diags()[k],
            crate::constraint_checker::constraint_diags_ok(final(self).diags().subrange(old(self).diags().len() as int, final(self).diags().len() as int), file_path@),
            old(self).file_root(file_path@) is None ==> final(self).diags() == old(self).diags(),
            match old(self).file_root(file_path@) {
                Some(root) => crate::constraint_checker::items_decided(*old(self), root, ast.items@)
                    ==> crate::constraint_checker::diag_marks(
                    final(self).diags().subrange(old(self).diags().len() as int, final(self).diags().len() as int),
                ) == crate::constraint_checker::items_marks(*old(self), root, ast.items@),
                None => true,
            },
    {
        let diags = crate::constraint_checker::check_constraints(self, file_path, ast);
        let ghost added = diags@;
        self.extend_diagnostics(diags);
        assert(self.diags().subrange(old(self).diags().len() as int, self.diags().len() as int) =~= added);
        assert(added.len() == 0 ==> self.diags() =~= old(self).diags());
    }

    /// Append diagnostics in order.
    fn extend_diagnostics(&mut self, diags: Vec<SymbolDiagnostic>)
        requires
            old(self).wf(),
        ensures
            final(self).wf(),
            final(self).symbols() == old(self).symbols(),
            final(self).diags() == old(self).diags() + diags@,
    {
        let ghost target = self.diagnostics@ + diags@;
        let mut ds = diags;
        let mut rev: Vec<SymbolDiagnostic> = Vec::new();
        let ghost orig = ds@;
        while ds.len() > 0
            invariant
                orig == ds@ + rev@.reverse(),
                self.scopes == old(self).scopes,
                self.symbols == old(self).symbols,
                self.file_scopes == old(self).file_scopes,
            decreases ds@.len(),
        {
            let d = ds.pop().unwrap();
            rev.push(d);
            assert(orig =~= ds@ + rev@.reverse());
        }
        assert(rev@.reverse() =~= orig);
        let ghost base = self.diagnostics@;
        let mut taken: Vec<SymbolDiagnostic> = Vec::new();
        std::mem::swap(&mut taken, &mut self.diagnostics);
        while rev.len() > 0
            invariant
                taken@ + rev@.reverse() == target,
                self.scopes == old(self).scopes,
                self.symbols == old(self).symbols,
                self.file_scopes == old(self).file_scopes,
            decreases rev@.len(),
        {
            let d = rev.pop().unwrap();
            taken.push(d);
            assert(taken@ + rev@.reverse() =~= target);
        }
        assert(taken@ =~= target);
        self.diagnostics = taken;
        proof {
            self.lemma_wf_same_bindings(*old(self));
        }
    }

    /// Check for undeclared symbol usage in a file's AST.
    pub fn check_undeclared(&mut self, file_path: &str, ast: &File)
        requires
            old(self).wf(),
        ensures
            final(self).wf(),
            final(self).symbols() == old(self).symbols(),
            final(self).diags().len() >= old(self).diags().len(),
            forall|k: int| 0 <= k < old(self).diags().len() ==> #[trigger] final(self).diags()[k] == old(self).diags()[k],
            forall|k: int| old(self).diags().len() <= k < final(self).diags().len() ==> {
                &&& (#[trigger] final(self).diags()[k]).kind == DiagnosticKind::UndeclaredSymbol
                &&& final(self).diags()[k].file@ == file_path@
            },
            match old(self).file_root(file_path@) {
                Some(root) => diag_spans(
                    final(self).diags().subrange(old(self).diags().len() as int, final(self).diags().len() as int),
                ) == items_walk(
                    *old(self),
                    file_path@,
                    root,
                    Seq::new(old(self).scope_seq().len(), |i: int| 0usize),
                    ast.items@,
                ).0,
                None => final(self).diags() == old(self).diags(),
            },
    {
        let file_scope = match self.file_scope(file_path) {
            Some(s) => s,
            None => {
                return;
            },
        };
        let mut cursor: Vec<usize> = Vec::new();
        let n = self.scopes.len();
        let mut i: usize = 0;
        while i < n
            invariant
                i <= n,
                cursor@.len() == i,
                forall|j: int| 0 <= j < i ==> cursor@[j] == 0usize,
            decreases n - i,
        {
            cursor.push(0);
            i += 1;
        }
        assert(cursor@ =~= Seq::new(old(self).scope_seq().len(), |i: int| 0usize));
        let mut checker = UndeclaredChecker {
            file: copy(file_path),
            current_scope: file_scope,
            new_diagnostics: Vec::new(),
            child_cursor: cursor,
        };
        let ghost cur0 = checker.child_cursor@;
        let mut k: usize = 0;
        while k < ast.items.len()
            invariant
                k <= ast.items@.len(),
                self.wf(),
                *self == *old(self),
                checker.ok(*self, file_path@),
                checker.current_scope == file_scope,
                file_scope == old(self).file_root(file_path@)->0,
                cur0 == Seq::new(old(self).scope_seq().len(), |i: int| 0usize),
                ({
                    let w = items_walk(*self, file_path@, file_scope, cur0, ast.items@.subrange(0, k as int));
                    diag_spans(checker.new_diagnostics@) == w.0 && checker.child_cursor@ == w.1
                }),
            decreases ast.items@.len() - k,
        {
            let ghost its = ast.items@;
            assert(its.subrange(0, k + 1).drop_last() =~= its.subrange(0, k as int));
            assert(its.subrange(0, k + 1).last() == its[k as int]);
            match &ast.items[k] {
                Item::TemplateDef(t) => checker.check_template(self, t),
                Item::FunctionDef(f) => checker.check_function(self, f),
                _ => {},
            }
            k += 1;
        }
        assert(ast.items@.subrange(0, ast.items@.len() as int) =~= ast.items@);
        let ghost added = checker.new_diagnostics@;
        self.extend_diagnostics(checker.new_diagnostics);
        assert(self.diags().subrange(old(self).diags().len() as int, self.diags().len() as int) =~= added);
    }
}

/// The name a top-level item declares: a template's, a function's or a
/// bus's.
pub open spec fn item_decl_name(it: Item) -> Option<Seq<char>> {
    match it {
        Item::TemplateDef(t) => Some(t.name.name@),
        Item::FunctionDef(f) => Some(f.name.name@),
        Item::BusDef(b) => Some(b.name.name@),
        _ => None,
    }
}

/// The files of `list` whose include list holds `f`, in list order.
pub open spec fn includers(list: Seq<(String, Vec<String>)>, f: Seq<char>) -> Seq<Seq<char>>
    decreases list.len(),
{
    if list.len() == 0 {
        Seq::empty()
    } else if list_has(list.last().1@, f) {
        includers(list.drop_last(), f).push(list.last().0@)
    } else {
        includers(list.drop_last(), f)
    }
}

/// Whether the walk `q`, taken after the files `before`, comes back to a
/// file it passed: its last file is among `before` or its earlier files.
pub open spec fn closes(before: Seq<Seq<char>>, q: Seq<Seq<char>>) -> bool {
    (before + q.drop_last()).contains(q.last())
}

/// [`closes`], for a walk from the file at position `k` of some list.
pub open spec fn closes_at(k: int, before: Seq<Seq<char>>, q: Seq<Seq<char>>) -> bool {
    closes(before, q)
}

/// The file at position `i` of a breadth-first walk from `fp` over `q`:
/// `fp` itself for `-1`.
pub open spec fn bfs_node(fp: Seq<char>, q: Seq<String>, i: int) -> Seq<char> {
    if i < 0 {
        fp
    } else {
        q[i]@
    }
}

/// Whether two of `items` declare the same name at the top level.
pub open spec fn top_duplicate(items: Seq<Item>) -> bool
    decreases items.len(),
{
    items.len() > 0 && (top_duplicate(items.drop_last()) || (item_decl_name(items.last()) matches Some(n)
        && top_declares(items.drop_last(), n)))
}

/// Whether one of `items` declares `n` at the top level.
pub open spec fn top_declares(items: Seq<Item>, n: Seq<char>) -> bool
    decreases items.len(),
{
    items.len() > 0 && (top_declares(items.drop_last(), n) || item_decl_name(items.last()) == Some(n))
}

/// The paths of the includes among `items`, in order.
pub open spec fn item_include_paths(items: Seq<Item>) -> Seq<Seq<char>>
    decreases items.len(),
{
    if items.len() == 0 {
        Seq::empty()
    } else {
        item_include_paths(items.drop_last()) + match items.last() {
            Item::Include(i) => seq![i.path@],
            _ => Seq::empty(),
        }
    }
}

/// The diagnostics of `ds` that belong to a file other than `file`, in
/// order.
pub open spec fn diags_without(ds: Seq<SymbolDiagnostic>, file: Seq<char>) -> Seq<SymbolDiagnostic>
    decreases ds.len(),
{
    if ds.len() == 0 {
        Seq::empty()
    } else {
        diags_without(ds.drop_last(), file) + if ds.last().file@ == file {
            Seq::empty()
        } else {
            seq![ds.last()]
        }
    }
}

impl SymbolTable {
    /// `name` is declared nowhere visible from `scope` in `file`: the
    /// scope chain does not bind it, nor does the file scope of any file
    /// that `file` reaches through includes.
    pub open spec fn undeclared_at(self, scope: int, name: Seq<char>, file: Seq<char>) -> bool {
        &&& chain_lookup(self.scope_seq(), scope, name) is None
        &&& forall|f: Seq<char>| f != file && #[trigger] self.reaches(file, f) ==> self.root_binding(f, name) is None
    }

    /// The scope entered next below `scope`, and the cursor after it: the
    /// child that the cursor of `scope` points at, if there is one.
    pub open spec fn child_step(self, scope: ScopeId, cursor: Seq<usize>) -> (ScopeId, Seq<usize>) {
        let cur = scope.0 as int;
        if cur < self.scope_seq().len() && cursor[cur] < self.scope_seq()[cur].children@.len() {
            (self.scope_seq()[cur].children@[cursor[cur] as int], cursor.update(cur, (cursor[cur] + 1) as usize))
        } else {
            (scope, cursor)
        }
    }
}

/// Where each diagnostic points.
pub open spec fn diag_spans(ds: Seq<SymbolDiagnostic>) -> Seq<Span> {
    ds.map_values(|d: SymbolDiagnostic| d.span)
}

/// Where the undeclared identifiers of `e` are, in the order in which
/// they are met, names resolved from `scope` in `file`. Of a member
/// access only the base is looked at.
pub open spec fn expr_reports(table: SymbolTable, scope: int, file: Seq<char>, e: Expression) -> Seq<Span>
    decreases e,
{
    match *e.kind {
        ExpressionKind::Ident(n) => if table.undeclared_at(scope, n@, file) {
            seq![e.span]
        } else {
            Seq::empty()
        },
        ExpressionKind::Member(b, _) => expr_reports(table, scope, file, b),
        ExpressionKind::Unary(_, x) => expr_reports(table, scope, file, x),
        ExpressionKind::Binary(l, _, r) => expr_reports(table, scope, file, l) + expr_reports(table, scope, file, r),
        ExpressionKind::Ternary(c, t, f) => expr_reports(table, scope, file, c) + expr_reports(table, scope, file, t)
            + expr_reports(table, scope, file, f),
        ExpressionKind::Index(b, i) => expr_reports(table, scope, file, b) + expr_reports(table, scope, file, i),
        ExpressionKind::Call(c, args) => expr_reports(table, scope, file, c) + exprs_reports(table, scope, file, args@),
        ExpressionKind::ArrayLit(es) => exprs_reports(table, scope, file, es@),
        ExpressionKind::Paren(x) => expr_reports(table, scope, file, x),
        ExpressionKind::Parallel(x) => expr_reports(table, scope, file, x),
        ExpressionKind::AnonymousComp(ac) => expr_reports(table, scope, file, ac.template) + exprs_reports(
            table,
            scope,
            file,
            ac.template_args@,
        ) + inputs_reports(table, scope, file, ac.inputs@),
        _ => Seq::empty(),
    }
}

/// [`expr_reports`] of each of `es`, in order.
pub open spec fn exprs_reports(table: SymbolTable, scope: int, file: Seq<char>, es: Seq<Expression>) -> Seq<Span>
    decreases es,
{
    if es.len() == 0 {
        Seq::empty()
    } else {
        exprs_reports(table, scope, file, es.subrange(0, es.len() - 1)) + expr_reports(
            table,
            scope,
            file,
            es[es.len() - 1],
        )
    }
}

/// [`expr_reports`] of the value of each of `is`, in order.
pub open spec fn inputs_reports(table: SymbolTable, scope: int, file: Seq<char>, is: Seq<AnonCompInput>) -> Seq<Span>
    decreases is,
{
    if is.len() == 0 {
        Seq::empty()
    } else {
        inputs_reports(table, scope, file, is.subrange(0, is.len() - 1)) + match is[is.len() - 1] {
            AnonCompInput::Positional(e) => expr_reports(table, scope, file, e),
            AnonCompInput::Named(_, e) => expr_reports(table, scope, file, e),
        }
    }
}

/// [`expr_reports`] of the initial value of each variable of a
/// declaration.
pub open spec fn var_inits_reports(table: SymbolTable, scope: int, file: Seq<char>, es: Seq<VarDeclEntry>) -> Seq<Span>
    decreases es.len(),
{
    if es.len() == 0 {
        Seq::empty()
    } else {
        var_inits_reports(table, scope, file, es.drop_last()) + match es.last().init {
            Some(e) => expr_reports(table, scope, file, e),
            None => Seq::empty(),
        }
    }
}

/// [`expr_reports`] of the initial value of each signal of a declaration.
pub open spec fn signal_inits_reports(table: SymbolTable, scope: int, file: Seq<char>, es: Seq<SignalDeclEntry>) -> Seq<
    Span,
>
    decreases es.len(),
{
    if es.len() == 0 {
        Seq::empty()
    } else {
        signal_inits_reports(table, scope, file, es.drop_last()) + match es.last().init {
            Some((_, e)) => expr_reports(table, scope, file, e),
            None => Seq::empty(),
        }
    }
}

/// [`expr_reports`] of the initial value of each component of a
/// declaration.
pub open spec fn component_inits_reports(
    table: SymbolTable,
    scope: int,
    file: Seq<char>,
    es: Seq<ComponentDeclEntry>,
) -> Seq<Span>
    decreases es.len(),
{
    if es.len() == 0 {
        Seq::empty()
    } else {
        component_inits_reports(table, scope, file, es.drop_last()) + match es.last().init {
            Some(e) => expr_reports(table, scope, file, e),
            None => Seq::empty(),
        }
    }
}

/// [`expr_reports`] of each expression argument of a `log`.
pub open spec fn log_reports(table: SymbolTable, scope: int, file: Seq<char>, args: Seq<LogArg>) -> Seq<Span>
    decreases args.len(),
{
    if args.len() == 0 {
        Seq::empty()
    } else {
        log_reports(table, scope, file, args.drop_last()) + match args.last() {
            LogArg::Expr(e) => expr_reports(table, scope, file, e),
            LogArg::String(_) => Seq::empty(),
        }
    }
}

/// [`expr_reports`] of each target of a tuple assignment.
pub open spec fn targets_reports(table: SymbolTable, scope: int, file: Seq<char>, ts: Seq<Option<Expression>>) -> Seq<
    Span,
>
    decreases ts.len(),
{
    if ts.len() == 0 {
        Seq::empty()
    } else {
        targets_reports(table, scope, file, ts.drop_last()) + match ts.last() {
            Some(e) => expr_reports(table, scope, file, e),
            None => Seq::empty(),
        }
    }
}

/// The undeclared identifiers of a statement, in the order in which
/// they are met, and the child-scope cursor after it. Loops, branches
/// and blocks are walked in the next child scope of `scope`, the one the
/// cursor points at; every other statement in `scope` itself.
pub open spec fn stmt_walk(
    table: SymbolTable,
    file: Seq<char>,
    scope: ScopeId,
    cur: Seq<usize>,
    st: Statement,
) -> (Seq<Span>, Seq<usize>)
    decreases st,
{
    let sc = scope.0 as int;
    match st.kind {
        StatementKind::For(f) => {
            let (c1, k1) = table.child_step(scope, cur);
            let (r1, k2) = stmt_walk(table, file, c1, k1, *f.init);
            let r2 = expr_reports(table, c1.0 as int, file, f.cond);
            let (r3, k3) = stmt_walk(table, file, c1, k2, *f.step);
            let (r4, k4) = block_walk(table, file, c1, k3, f.body.stmts@);
            (r1 + r2 + r3 + r4, k4)
        },
        StatementKind::While(w) => {
            let (c1, k1) = table.child_step(scope, cur);
            let r1 = expr_reports(table, c1.0 as int, file, w.cond);
            let (r2, k2) = block_walk(table, file, c1, k1, w.body.stmts@);
            (r1 + r2, k2)
        },
        StatementKind::IfElse(ie) => {
            let r0 = expr_reports(table, sc, file, ie.cond);
            let (c1, k1) = table.child_step(scope, cur);
            let (r1, k2) = block_walk(table, file, c1, k1, ie.then_body.stmts@);
            match ie.else_body {
                Some(eb) => {
                    let (c2, k3) = table.child_step(scope, k2);
                    let (r2, k4) = block_walk(table, file, c2, k3, eb.stmts@);
                    (r0 + r1 + r2, k4)
                },
                None => (r0 + r1, k2),
            }
        },
        StatementKind::Block(b) => {
            let (c1, k1) = table.child_step(scope, cur);
            block_walk(table, file, c1, k1, b.stmts@)
        },
        StatementKind::VarDecl(v) => (var_inits_reports(table, sc, file, v.names@), cur),
        StatementKind::SignalDecl(d) => (signal_inits_reports(table, sc, file, d.names@), cur),
        StatementKind::ComponentDecl(c) => (component_inits_reports(table, sc, file, c.names@), cur),
        StatementKind::BusDecl(b) => (
            match b.init {
                Some((_, e)) => expr_reports(table, sc, file, e),
                None => Seq::empty(),
            },
            cur,
        ),
        StatementKind::Assignment(a) => (expr_reports(table, sc, file, a.lhs) + expr_reports(table, sc, file, a.rhs), cur),
        StatementKind::CompoundAssign(a) => (
            expr_reports(table, sc, file, a.lhs) + expr_reports(table, sc, file, a.rhs),
            cur,
        ),
        StatementKind::ConstraintEq(c) => (expr_reports(table, sc, file, c.lhs) + expr_reports(table, sc, file, c.rhs), cur),
        StatementKind::Return(r) => (expr_reports(table, sc, file, r.value), cur),
        StatementKind::Assert(a) => (expr_reports(table, sc, file, a.expr), cur),
        StatementKind::Log(l) => (log_reports(table, sc, file, l.args@), cur),
        StatementKind::Expression(e) => (expr_reports(table, sc, file, e), cur),
        StatementKind::Increment(e) => (expr_reports(table, sc, file, e), cur),
        StatementKind::Decrement(e) => (expr_reports(table, sc, file, e), cur),
        StatementKind::TupleAssign(t) => (
            targets_reports(table, sc, file, t.targets@) + expr_reports(table, sc, file, t.rhs),
            cur,
        ),
        StatementKind::Error => (Seq::empty(), cur),
    }
}

/// [`stmt_walk`] of each of `ss` in turn, in `scope`: what they report, in
/// order, and the cursor after the last.
pub open spec fn block_walk(
    table: SymbolTable,
    file: Seq<char>,
    scope: ScopeId,
    cur: Seq<usize>,
    ss: Seq<Statement>,
) -> (Seq<Span>, Seq<usize>)
    decreases ss,
{
    if ss.len() == 0 {
        (Seq::empty(), cur)
    } else {
        let (r1, k1) = block_walk(table, file, scope, cur, ss.subrange(0, ss.len() - 1));
        let (r2, k2) = stmt_walk(table, file, scope, k1, ss[ss.len() - 1]);
        (r1 + r2, k2)
    }
}

/// What checking a template reports, and the cursor after it: when its
/// name, looked up through the scope chain of `scope`, names a template,
/// its body is walked in the template's own scope.
pub open spec fn template_walk(table: SymbolTable, file: Seq<char>, scope: ScopeId, cur: Seq<usize>, t: TemplateDef) -> (
    Seq<Span>,
    Seq<usize>,
) {
    match table.chain_symbol(scope.0 as int, t.name.name@) {
        Some(sym) => match sym.kind {
            SymbolKind::Template(ts) => block_walk(table, file, ts.body_scope, cur, t.body.stmts@),
            _ => (Seq::empty(), cur),
        },
        None => (Seq::empty(), cur),
    }
}

/// What checking a function reports, and the cursor after it: when its
/// name, looked up through the scope chain of `scope`, names a function,
/// its body is walked in the function's own scope.
pub open spec fn function_walk(table: SymbolTable, file: Seq<char>, scope: ScopeId, cur: Seq<usize>, f: FunctionDef) -> (
    Seq<Span>,
    Seq<usize>,
) {
    match table.chain_symbol(scope.0 as int, f.name.name@) {
        Some(sym) => match sym.kind {
            SymbolKind::Function(fs) => block_walk(table, file, fs.body_scope, cur, f.body.stmts@),
            _ => (Seq::empty(), cur),
        },
        None => (Seq::empty(), cur),
    }
}

/// What checking the templates and functions of `items` reports, in
/// order, and the cursor after the last.
pub open spec fn items_walk(table: SymbolTable, file: Seq<char>, scope: ScopeId, cur: Seq<usize>, items: Seq<Item>) -> (
    Seq<Span>,
    Seq<usize>,
)
    decreases items.len(),
{
    if items.len() == 0 {
        (Seq::empty(), cur)
    } else {
        let (r1, k1) = items_walk(table, file, scope, cur, items.drop_last());
        let (r2, k2) = match items.last() {
            Item::TemplateDef(t) => template_walk(table, file, scope, k1, t),
            Item::FunctionDef(f) => function_walk(table, file, scope, k1, f),
            _ => (Seq::empty(), k1),
        };
        (r1 + r2, k2)
    }
}

/// Walks the AST and reports identifiers that are not in scope.
struct UndeclaredChecker {
    file: String,
    current_scope: ScopeId,
    new_diagnostics: Vec<SymbolDiagnostic>,
    /// For each scope, the next child scope to enter, so that the walk
    /// meets the block scopes in the order in which they were created.
    child_cursor: Vec<usize>,
}

impl UndeclaredChecker {
    spec fn ok(self, table: SymbolTable, file: Seq<char>) -> bool {
        &&& self.file@ == file
        &&& self.child_cursor@.len() == table.scopes.scopes().len()
        &&& forall|k: int| 0 <= k < self.new_diagnostics@.len() ==> {
            &&& (#[trigger] self.new_diagnostics@[k]).kind == DiagnosticKind::UndeclaredSymbol
            &&& self.new_diagnostics@[k].file@ == file
        }
    }

    /// Enter the next child scope of the current scope, mirroring the
    /// order in which the collector created them.
    fn enter_child_scope(&mut self, table: &SymbolTable)
        requires
            table.wf(),
            old(self).ok(*table, old(self).file@),
        ensures
            final(self).ok(*table, old(self).file@),
            final(self).new_diagnostics == old(self).new_diagnostics,
            (final(self).current_scope, final(self).child_cursor@) == table.child_step(
                old(self).current_scope,
                old(self).child_cursor@,
            ),
    {
        let cur = self.current_scope.0 as usize;
        if cur >= table.scopes.len() {
            return;
        }
        let idx = self.child_cursor[cur];
        let children = &table.scopes.get(self.current_scope).children;
        if idx < children.len() {
            let child = children[idx];
            self.child_cursor.set(cur, idx + 1);
            self.current_scope = child;
        }
    }

    fn check_template(&mut self, table: &SymbolTable, node: &TemplateDef)
        requires
            table.wf(),
            old(self).ok(*table, old(self).file@),
        ensures
            final(self).ok(*table, old(self).file@),
            final(self).current_scope == old(self).current_scope,
            ({
                let w = template_walk(*table, old(self).file@, old(self).current_scope, old(self).child_cursor@, *node);
                diag_spans(final(self).new_diagnostics@) == diag_spans(old(self).new_diagnostics@) + w.0
                    && final(self).child_cursor@ == w.1
            }),
    {
        // Find the template symbol to get its body scope.
        match table.lookup(self.current_scope, node.name.name.as_str()) {
            Some(sym) => match &sym.kind {
                SymbolKind::Template(t) => {
                    let outer = self.current_scope;
                    self.current_scope = t.body_scope;
                    self.check_block(table, &node.body);
                    self.current_scope = outer;
                },
                _ => {},
            },
            None => {},
        }
    }

    fn check_function(&mut self, table: &SymbolTable, node: &FunctionDef)
        requires
            table.wf(),
            old(self).ok(*table, old(self).file@),
        ensures
            final(self).ok(*table, old(self).file@),
            final(self).current_scope == old(self).current_scope,
            ({
                let w = function_walk(*table, old(self).file@, old(self).current_scope, old(self).child_cursor@, *node);
                diag_spans(final(self).new_diagnostics@) == diag_spans(old(self).new_diagnostics@) + w.0
                    && final(self).child_cursor@ == w.1
            }),
    {
        match table.lookup(self.current_scope, node.name.name.as_str()) {
            Some(sym) => match &sym.kind {
                SymbolKind::Function(f) => {
                    let outer = self.current_scope;
                    self.current_scope = f.body_scope;
                    self.check_block(table, &node.body);
                    self.current_scope = outer;
                },
                _ => {},
            },
            None => {},
        }
    }

    fn check_block(&mut self, table: &SymbolTable, block: &Block)
        requires
            table.wf(),
            old(self).ok(*table, old(self).file@),
        ensures
            final(self).ok(*table, old(self).file@),
            final(self).current_scope == old(self).current_scope,
            ({
                let w = block_walk(*table, old(self).file@, old(self).current_scope, old(self).child_cursor@, block.stmts@);
                diag_spans(final(self).new_diagnostics@) == diag_spans(old(self).new_diagnostics@) + w.0
                    && final(self).child_cursor@ == w.1
            }),
        decreases block, 1nat,
    {
        let mut i: usize = 0;
        while i < block.stmts.len()
            invariant
                i <= block.stmts@.len(),
                table.wf(),
                self.ok(*table, old(self).file@),
                self.current_scope == old(self).current_scope,
                ({
                    let w = block_walk(
                        *table,
                        old(self).file@,
                        old(self).current_scope,
                        old(self).child_cursor@,
                        block.stmts@.subrange(0, i as int),
                    );
                    diag_spans(self.new_diagnostics@) == diag_spans(old(self).new_diagnostics@) + w.0
                        && self.child_cursor@ == w.1
                }),
            decreases block.stmts@.len() - i,
        {
            assert(decreases_to!(block => block.stmts@[i as int]));
            let ghost ss = block.stmts@;
            assert(ss.subrange(0, i + 1).subrange(0, i as int) =~= ss.subrange(0, i as int));
            self.check_statement(table, &block.stmts[i]);
            proof {
                let w0 = block_walk(*table, old(self).file@, old(self).current_scope, old(self).child_cursor@, ss.subrange(0, i as int));
                let w1 = block_walk(*table, old(self).file@, old(self).current_scope, old(self).child_cursor@, ss.subrange(0, i + 1));
                let ws = stmt_walk(*table, old(self).file@, old(self).current_scope, w0.1, ss[i as int]);
                assert(w1.0 == w0.0 + ws.0);
                assert(diag_spans(self.new_diagnostics@) =~= diag_spans(old(self).new_diagnostics@) + w1.0);
            }
            i += 1;
        }
        assert(block.stmts@.subrange(0, block.stmts@.len() as int) =~= block.stmts@);
    }

    /// Check the body of a loop, branch or block in the next child scope.
    fn check_in_child_scope(&mut self, table: &SymbolTable, block: &Block)
        requires
            table.wf(),
            old(self).ok(*table, old(self).file@),
        ensures
            final(self).ok(*table, old(self).file@),
            final(self).current_scope == old(self).current_scope,
            ({
                let w = {
                    let (c1, k1) = table.child_step(old(self).current_scope, old(self).child_cursor@);
                    block_walk(*table, old(self).file@, c1, k1, block.stmts@)
                };
                diag_spans(final(self).new_diagnostics@) == diag_spans(old(self).new_diagnostics@) + w.0
                    && final(self).child_cursor@ == w.1
            }),
        decreases block, 2nat,
    {
        let saved = self.current_scope;
        self.enter_child_scope(table);
        self.check_block(table, block);
        self.current_scope = saved;
    }

    fn check_statement(&mut self, table: &SymbolTable, stmt: &Statement)
        requires
            table.wf(),
            old(self).ok(*table, old(self).file@),
        ensures
            final(self).ok(*table, old(self).file@),
            final(self).current_scope == old(self).current_scope,
            ({
                let w = stmt_walk(*table, old(self).file@, old(self).current_scope, old(self).child_cursor@, *stmt);
                diag_spans(final(self).new_diagnostics@) == diag_spans(old(self).new_diagnostics@) + w.0
                    && final(self).child_cursor@ == w.1
            }),
        decreases stmt, 0nat,
    {
        let ghost d0 = diag_spans(self.new_diagnostics@);
        let ghost walk = stmt_walk(*table, old(self).file@, old(self).current_scope, old(self).child_cursor@, *stmt);
        let ghost sc = old(self).current_scope.0 as int;
        let ghost file = old(self).file@;
        match &stmt.kind {
            StatementKind::For(f) => {
                let saved = self.current_scope;
                self.enter_child_scope(table);
                self.check_statement(table, &f.init);
                self.check_expr(table, &f.cond);
                self.check_statement(table, &f.step);
                self.check_block(table, &f.body);
                self.current_scope = saved;
                assert(diag_spans(self.new_diagnostics@) =~= d0 + walk.0);
            },
            StatementKind::While(w) => {
                let saved = self.current_scope;
                self.enter_child_scope(table);
                self.check_expr(table, &w.cond);
                self.check_block(table, &w.body);
                self.current_scope = saved;
                assert(diag_spans(self.new_diagnostics@) =~= d0 + walk.0);
            },
            StatementKind::IfElse(ie) => {
                self.check_expr(table, &ie.cond);
                self.check_in_child_scope(table, &ie.then_body);
                match &ie.else_body {
                    Some(eb) => self.check_in_child_scope(table, eb),
                    None => {},
                }
                assert(diag_spans(self.new_diagnostics@) =~= d0 + walk.0);
            },
            StatementKind::Block(b) => self.check_in_child_scope(table, b),
            StatementKind::VarDecl(v) => {
                let mut i: usize = 0;
                while i < v.names.len()
                    invariant
                        i <= v.names@.len(),
                        table.wf(),
                        self.ok(*table, old(self).file@),
                        self.current_scope == old(self).current_scope,
                        self.child_cursor == old(self).child_cursor,
                        diag_spans(self.new_diagnostics@) == d0 + var_inits_reports(*table, sc, file, v.names@.subrange(0, i as int)),
                        d0 == diag_spans(old(self).new_diagnostics@),
                        sc == old(self).current_scope.0 as int,
                        file == old(self).file@,
                    decreases v.names@.len() - i,
                {
                    assert(v.names@.subrange(0, i + 1).drop_last() =~= v.names@.subrange(0, i as int));
                    assert(v.names@.subrange(0, i + 1).last() == v.names@[i as int]);
                    match &v.names[i].init {
                        Some(init) => self.check_expr(table, init),
                        None => {},
                    }
                    i += 1;
                }
                assert(v.names@.subrange(0, v.names@.len() as int) =~= v.names@);
            },
            StatementKind::SignalDecl(d) => {
                let mut i: usize = 0;
                while i < d.names.len()
                    invariant
                        i <= d.names@.len(),
                        table.wf(),
                        self.ok(*table, old(self).file@),
                        self.current_scope == old(self).current_scope,
                        self.child_cursor == old(self).child_cursor,
                        diag_spans(self.new_diagnostics@) == d0 + signal_inits_reports(*table, sc, file, d.names@.subrange(0, i as int)),
                        d0 == diag_spans(old(self).new_diagnostics@),
                        sc == old(self).current_scope.0 as int,
                        file == old(self).file@,
                    decreases d.names@.len() - i,
                {
                    assert(d.names@.subrange(0, i + 1).drop_last() =~= d.names@.subrange(0, i as int));
                    assert(d.names@.subrange(0, i + 1).last() == d.names@[i as int]);
                    match &d.names[i].init {
                        Some((_, init)) => self.check_expr(table, init),
                        None => {},
                    }
                    i += 1;
                }
                assert(d.names@.subrange(0, d.names@.len() as int) =~= d.names@);
            },
            StatementKind::ComponentDecl(c) => {
                let mut i: usize = 0;
                while i < c.names.len()
                    invariant
                        i <= c.names@.len(),
                        table.wf(),
                        self.ok(*table, old(self).file@),
                        self.current_scope == old(self).current_scope,
                        self.child_cursor == old(self).child_cursor,
                        diag_spans(self.new_diagnostics@) == d0 + component_inits_reports(*table, sc, file, c.names@.subrange(0, i as int)),
                        d0 == diag_spans(old(self).new_diagnostics@),
                        sc == old(self).current_scope.0 as int,
                        file == old(self).file@,
                    decreases c.names@.len() - i,
                {
                    assert(c.names@.subrange(0, i + 1).drop_last() =~= c.names@.subrange(0, i as int));
                    assert(c.names@.subrange(0, i + 1).last() == c.names@[i as int]);
                    match &c.names[i].init {
                        Some(init) => self.check_expr(table, init),
                        None => {},
                    }
                    i += 1;
                }
                assert(c.names@.subrange(0, c.names@.len() as int) =~= c.names@);
            },
            StatementKind::BusDecl(b) => {
                match &b.init {
                    Some((_, init)) => self.check_expr(table, init),
                    None => {},
                }
            },
            StatementKind::Assignment(a) => {
                self.check_expr(table, &a.lhs);
                self.check_expr(table, &a.rhs);
            },
            StatementKind::CompoundAssign(a) => {
                self.check_expr(table, &a.lhs);
                self.check_expr(table, &a.rhs);
            },
            StatementKind::ConstraintEq(c) => {
                self.check_expr(table, &c.lhs);
                self.check_expr(table, &c.rhs);
            },
            StatementKind::Return(r) => self.check_expr(table, &r.value),
            StatementKind::Assert(a) => self.check_expr(table, &a.expr),
            StatementKind::Log(l) => {
                let mut i: usize = 0;
                while i < l.args.len()
                    invariant
                        i <= l.args@.len(),
                        table.wf(),
                        self.ok(*table, old(self).file@),
                        self.current_scope == old(self).current_scope,
                        self.child_cursor == old(self).child_cursor,
                        diag_spans(self.new_diagnostics@) == d0 + log_reports(*table, sc, file, l.args@.subrange(0, i as int)),
                        d0 == diag_spans(old(self).new_diagnostics@),
                        sc == old(self).current_scope.0 as int,
                        file == old(self).file@,
                    decreases l.args@.len() - i,
                {
                    assert(l.args@.subrange(0, i + 1).drop_last() =~= l.args@.subrange(0, i as int));
                    assert(l.args@.subrange(0, i + 1).last() == l.args@[i as int]);
                    match &l.args[i] {
                        LogArg::Expr(e) => self.check_expr(table, e),
                        LogArg::String(_) => {},
                    }
                    i += 1;
                }
                assert(l.args@.subrange(0, l.args@.len() as int) =~= l.args@);
            },
            StatementKind::Expression(e) => self.check_expr(table, e),
            StatementKind::Increment(e) => self.check_expr(table, e),
            StatementKind::Decrement(e) => self.check_expr(table, e),
            StatementKind::TupleAssign(t) => {
                let mut i: usize = 0;
                while i < t.targets.len()
                    invariant
                        i <= t.targets@.len(),
                        table.wf(),
                        self.ok(*table, old(self).file@),
                        self.current_scope == old(self).current_scope,
                        self.child_cursor == old(self).child_cursor,
                        diag_spans(self.new_diagnostics@) == d0 + targets_reports(*table, sc, file, t.targets@.subrange(0, i as int)),
                        d0 == diag_spans(old(self).new_diagnostics@),
                        sc == old(self).current_scope.0 as int,
                        file == old(self).file@,
                    decreases t.targets@.len() - i,
                {
                    assert(t.targets@.subrange(0, i + 1).drop_last() =~= t.targets@.subrange(0, i as int));
                    assert(t.targets@.subrange(0, i + 1).last() == t.targets@[i as int]);
                    match &t.targets[i] {
                        Some(e) => self.check_expr(table, e),
                        None => {},
                    }
                    i += 1;
                }
                assert(t.targets@.subrange(0, t.targets@.len() as int) =~= t.targets@);
                self.check_expr(table, &t.rhs);
            },
            StatementKind::Error => {},
        }
        assert(diag_spans(self.new_diagnostics@) =~= d0 + walk.0);
    }

    fn report_undeclared_ident(&mut self, table: &SymbolTable, name: &str, span: Span)
        requires
            table.wf(),
            old(self).ok(*table, old(self).file@),
        ensures
            final(self).ok(*table, old(self).file@),
            final(self).current_scope == old(self).current_scope,
            final(self).child_cursor == old(self).child_cursor,
            diag_spans(final(self).new_diagnostics@) == diag_spans(old(self).new_diagnostics@) + (if table.undeclared_at(
                old(self).current_scope.0 as int,
                name@,
                old(self).file@,
            ) {
                seq![span]
            } else {
                Seq::empty()
            }),
    {
        if table.lookup_with_includes(self.current_scope, name, self.file.as_str()).is_none() {
            let mut message = String::from_str("undeclared symbol '");
            message.append(name);
            message.append("'");
            let file = copy(self.file.as_str());
            self.new_diagnostics.push(SymbolDiagnostic { span, message, kind: DiagnosticKind::UndeclaredSymbol, file });
            assert(diag_spans(self.new_diagnostics@) =~= diag_spans(old(self).new_diagnostics@) + seq![span]);
        } else {
            assert(diag_spans(self.new_diagnostics@) =~= diag_spans(old(self).new_diagnostics@) + Seq::<Span>::empty());
        }
    }

    fn check_exprs(&mut self, table: &SymbolTable, exprs: &Vec<Expression>)
        requires
            table.wf(),
            old(self).ok(*table, old(self).file@),
        ensures
            final(self).ok(*table, old(self).file@),
            final(self).current_scope == old(self).current_scope,
            final(self).child_cursor == old(self).child_cursor,
            diag_spans(final(self).new_diagnostics@) == diag_spans(old(self).new_diagnostics@) + exprs_reports(
                *table,
                old(self).current_scope.0 as int,
                old(self).file@,
                exprs@,
            ),
        decreases exprs, 1nat,
    {
        let mut i: usize = 0;
        while i < exprs.len()
            invariant
                i <= exprs@.len(),
                table.wf(),
                self.ok(*table, old(self).file@),
                self.current_scope == old(self).current_scope,
                self.child_cursor == old(self).child_cursor,
                diag_spans(self.new_diagnostics@) == diag_spans(old(self).new_diagnostics@) + exprs_reports(
                    *table,
                    old(self).current_scope.0 as int,
                    old(self).file@,
                    exprs@.subrange(0, i as int),
                ),
            decreases exprs@.len() - i,
        {
            assert(decreases_to!(exprs => exprs@[i as int]));
            let ghost es = exprs@;
            assert(es.subrange(0, i + 1).subrange(0, i as int) =~= es.subrange(0, i as int));
            self.check_expr(table, &exprs[i]);
            i += 1;
        }
        assert(exprs@.subrange(0, exprs@.len() as int) =~= exprs@);
    }

    fn check_anon_comp(&mut self, table: &SymbolTable, ac: &AnonymousComp)
        requires
            table.wf(),
            old(self).ok(*table, old(self).file@),
        ensures
            final(self).ok(*table, old(self).file@),
            final(self).current_scope == old(self).current_scope,
            final(self).child_cursor == old(self).child_cursor,
            diag_spans(final(self).new_diagnostics@) == diag_spans(old(self).new_diagnostics@) + expr_reports(
                *table,
                old(self).current_scope.0 as int,
                old(self).file@,
                ac.template,
            ) + exprs_reports(*table, old(self).current_scope.0 as int, old(self).file@, ac.template_args@)
                + inputs_reports(*table, old(self).current_scope.0 as int, old(self).file@, ac.inputs@),
        decreases ac, 1nat,
    {
        self.check_expr(table, &ac.template);
        self.check_exprs(table, &ac.template_args);
        let ghost mid = diag_spans(self.new_diagnostics@);
        let mut i: usize = 0;
        while i < ac.inputs.len()
            invariant
                i <= ac.inputs@.len(),
                table.wf(),
                self.ok(*table, old(self).file@),
                self.current_scope == old(self).current_scope,
                self.child_cursor == old(self).child_cursor,
                diag_spans(self.new_diagnostics@) == mid + inputs_reports(
                    *table,
                    old(self).current_scope.0 as int,
                    old(self).file@,
                    ac.inputs@.subrange(0, i as int),
                ),
            decreases ac.inputs@.len() - i,
        {
            assert(decreases_to!(ac => ac.inputs@[i as int]));
            let ghost is = ac.inputs@;
            assert(is.subrange(0, i + 1).subrange(0, i as int) =~= is.subrange(0, i as int));
            match &ac.inputs[i] {
                AnonCompInput::Positional(e) => self.check_expr(table, e),
                AnonCompInput::Named(_, e) => self.check_expr(table, e),
            }
            i += 1;
        }
        assert(ac.inputs@.subrange(0, ac.inputs@.len() as int) =~= ac.inputs@);
    }

    fn check_expr(&mut self, table: &SymbolTable, expr: &Expression)
        requires
            table.wf(),
            old(self).ok(*table, old(self).file@),
        ensures
            final(self).ok(*table, old(self).file@),
            final(self).current_scope == old(self).current_scope,
            final(self).child_cursor == old(self).child_cursor,
            diag_spans(final(self).new_diagnostics@) == diag_spans(old(self).new_diagnostics@) + expr_reports(
                *table,
                old(self).current_scope.0 as int,
                old(self).file@,
                *expr,
            ),
        decreases expr, 0nat,
    {
        match &*expr.kind {
            ExpressionKind::Ident(name) => self.report_undeclared_ident(table, name.as_str(), expr.span),
            // For member access only the base is checked; qualified
            // resolution is a separate analysis.
            ExpressionKind::Member(base, _) => self.check_expr(table, base),
            ExpressionKind::Unary(_, e) => self.check_expr(table, e),
            ExpressionKind::Binary(l, _, r) => {
                self.check_expr(table, l);
                self.check_expr(table, r);
            },
            ExpressionKind::Ternary(c, t, f) => {
                self.check_expr(table, c);
                self.check_expr(table, t);
                self.check_expr(table, f);
            },
            ExpressionKind::Index(base, idx) => {
                self.check_expr(table, base);
                self.check_expr(table, idx);
            },
            ExpressionKind::Call(callee, args) => {
                self.check_expr(table, callee);
                self.check_exprs(table, args);
            },
            ExpressionKind::ArrayLit(elems) => self.check_exprs(table, elems),
            ExpressionKind::Paren(e) => self.check_expr(table, e),
            ExpressionKind::Parallel(e) => self.check_expr(table, e),
            ExpressionKind::AnonymousComp(ac) => self.check_anon_comp(table, ac),
            ExpressionKind::Number(_) | ExpressionKind::Underscore | ExpressionKind::Error => {},
        }
    }
}

/// The template a call expression like `Poseidon(2)` names.
pub open spec fn call_template_name(e: Expression) -> Option<Seq<char>> {
    match *e.kind {
        ExpressionKind::Call(callee, _) => match *callee.kind {
            ExpressionKind::Ident(name) => Some(name@),
            _ => None,
        },
        _ => None,
    }
}

/// Extract a template name from a call expression like `Poseidon(2)`.
fn extract_template_name(expr: &Expression) -> (r: Option<String>)
    ensures
        match call_template_name(*expr) {
            Some(n) => r matches Some(s) && s@ == n,
            None => r is None,
        },
{
    match &*expr.kind {
        ExpressionKind::Call(callee, _) => match &*callee.kind {
            ExpressionKind::Ident(name) => Some(copy(name.as_str())),
            _ => None,
        },
        _ => None,
    }
}

/// Remove the first string equal to `s`, if any.
fn remove_str(list: &mut Vec<String>, s: &str)
    ensures
        !list_has(old(list)@, s@) ==> final(list)@ == old(list)@,
        list_has(old(list)@, s@) ==> exists|i: int|
            0 <= i < old(list)@.len() && (#[trigger] old(list)@[i])@ == s@ && (forall|j: int| 0 <= j < i ==> (#[trigger] old(list)@[j])@ != s@)
                && final(list)@ == old(list)@.remove(i),
{
    let mut i: usize = 0;
    while i < list.len()
        invariant
            i <= list@.len(),
            list@ == old(list)@,
            forall|k: int| 0 <= k < i ==> (#[trigger] list@[k])@ != s@,
        decreases list@.len() - i,
    {
        if string_eq(&list[i], s) {
            list.remove(i);
            return;
        }
        i += 1;
    }
}

/// Append `s` unless an equal string is already there.
fn add_unique(list: &mut Vec<String>, s: &str)
    ensures
        forall|x: Seq<char>| list_has(final(list)@, x) <==> (list_has(old(list)@, x) || x == s@),
        no_dup_views(old(list)@) ==> no_dup_views(final(list)@),
{
    if !contains_str(list, s) {
        let ghost before = list@;
        list.push(copy(s));
        proof {
            lemma_list_grows(before, list@);
            assert(list@[before.len() as int]@ == s@);
            assert forall|x: Seq<char>| list_has(list@, x) implies (list_has(before, x) || x == s@) by {
                let k = choose|k: int| 0 <= k < list@.len() && (#[trigger] list@[k])@ == x;
                if k < before.len() {
                    assert(before[k] == list@[k]);
                }
            }
            if no_dup_views(before) {
                assert forall|i: int, j: int| 0 <= i < j < list@.len() implies (#[trigger] list@[i])@
                    != (#[trigger] list@[j])@ by {
                    assert(list@[i] == before[i]);
                    if j < before.len() {
                        assert(list@[j] == before[j]);
                    }
                }
            }
        }
    }
}

/// The first position of `s` in `list`.
fn position_str(list: &Vec<String>, s: &str) -> (r: Option<usize>)
    ensures
        r matches Some(i) ==> i < list@.len() && list@[i as int]@ == s@,
        r is None ==> !list_has(list@, s@),
{
    let mut i: usize = 0;
    while i < list.len()
        invariant
            i <= list@.len(),
            forall|k: int| 0 <= k < i ==> (#[trigger] list@[k])@ != s@,
        decreases list@.len() - i,
    {
        if string_eq(&list[i], s) {
            return Some(i);
        }
        i += 1;
    }
    None
}

/// No two strings of `l` are equal.
pub open spec fn no_dup_views(l: Seq<String>) -> bool {
    forall|i: int, j: int| 0 <= i < j < l.len() ==> (#[trigger] l[i])@ != (#[trigger] l[j])@
}

/// `y` stands in `order` before position `t`.
pub open spec fn comes_before(order: Seq<String>, t: int, y: Seq<char>) -> bool {
    exists|s: int| 0 <= s < t && s < order.len() && (#[trigger] order[s])@ == y
}

/// Every index below `n` whose degree is zero is in `queue`.
spec fn zeros_queued(deg: Seq<usize>, queue: Seq<usize>, n: int) -> bool {
    forall|x: usize| x < n && deg[x as int] == 0 ==> #[trigger] queue.contains(x)
}

/// How many entries of `l` are not among `done`.
spec fn unproc(l: Seq<String>, done: Seq<Seq<char>>) -> nat
    decreases l.len(),
{
    if l.len() == 0 {
        0
    } else {
        unproc(l.drop_last(), done) + if done.contains(l.last()@) {
            0nat
        } else {
            1nat
        }
    }
}

/// Nothing done: every entry is still to do.
proof fn lemma_unproc_none_done(l: Seq<String>)
    ensures
        unproc(l, Seq::empty()) == l.len(),
    decreases l.len(),
{
    if l.len() > 0 {
        lemma_unproc_none_done(l.drop_last());
    }
}

/// In a list with no name twice, marking `f` done takes exactly one from
/// the count when the list holds `f`.
proof fn lemma_unproc_push_exact(l: Seq<String>, done: Seq<Seq<char>>, f: Seq<char>)
    requires
        !done.contains(f),
        no_dup_views(l),
    ensures
        unproc(l, done) <= unproc(l, done.push(f)) + (if list_has(l, f) {
            1nat
        } else {
            0nat
        }),
    decreases l.len(),
{
    if l.len() > 0 {
        let d = l.drop_last();
        assert(no_dup_views(d)) by {
            assert forall|i: int, j: int| 0 <= i < j < d.len() implies (#[trigger] d[i])@ != (#[trigger] d[j])@ by {
                assert(d[i] == l[i] && d[j] == l[j]);
            }
        }
        lemma_unproc_push_exact(d, done, f);
        let x = l.last()@;
        assert(done.push(f).contains(x) <==> (done.contains(x) || x == f)) by {
            if done.push(f).contains(x) {
                let w = choose|w: int| 0 <= w < done.push(f).len() && done.push(f)[w] == x;
                if w < done.len() {
                    assert(done[w] == x);
                }
            }
            if done.contains(x) {
                let w = choose|w: int| 0 <= w < done.len() && done[w] == x;
                assert(done.push(f)[w] == x);
            }
            if x == f {
                assert(done.push(f)[done.len() as int] == x);
            }
        }
        if list_has(d, f) {
            let k = choose|k: int| 0 <= k < d.len() && (#[trigger] d[k])@ == f;
            assert(l[k] == d[k]);
            if x == f {
                assert(l[k]@ != l[l.len() - 1]@);
            }
        }
        if x == f {
            assert(l[l.len() - 1]@ == f);
        }
        if list_has(l, f) && x != f {
            let k = choose|k: int| 0 <= k < l.len() && (#[trigger] l[k])@ == f;
            assert(d[k] == l[k]);
        }
    }
}

/// A list with an entry still to do has an entry not among `done`.
proof fn lemma_unproc_pos(l: Seq<String>, done: Seq<Seq<char>>)
    requires
        unproc(l, done) > 0,
    ensures
        exists|k: int| 0 <= k < l.len() && !done.contains(#[trigger] l[k]@),
    decreases l.len(),
{
    let d = l.drop_last();
    if done.contains(l.last()@) {
        lemma_unproc_pos(d, done);
        let k = choose|k: int| 0 <= k < d.len() && !done.contains(#[trigger] d[k]@);
        assert(l[k] == d[k]);
    } else {
        assert(!done.contains(l[l.len() - 1]@));
    }
}

proof fn lemma_unproc_le(l: Seq<String>, done: Seq<Seq<char>>)
    ensures
        unproc(l, done) <= l.len(),
    decreases l.len(),
{
    if l.len() > 0 {
        lemma_unproc_le(l.drop_last(), done);
    }
}

proof fn lemma_unproc_zero(l: Seq<String>, done: Seq<Seq<char>>)
    requires
        unproc(l, done) == 0,
    ensures
        forall|k: int| 0 <= k < l.len() ==> done.contains(#[trigger] l[k]@),
    decreases l.len(),
{
    if l.len() > 0 {
        let d = l.drop_last();
        lemma_unproc_zero(d, done);
        assert forall|k: int| 0 <= k < l.len() implies done.contains(#[trigger] l[k]@) by {
            if k < d.len() {
                assert(l[k] == d[k]);
            }
        }
    }
}

/// Marking `f` done takes at least one from the count of a list that
/// holds it, and nothing from any other.
proof fn lemma_unproc_push(l: Seq<String>, done: Seq<Seq<char>>, f: Seq<char>)
    requires
        !done.contains(f),
    ensures
        unproc(l, done.push(f)) + (if list_has(l, f) {
            1nat
        } else {
            0nat
        }) <= unproc(l, done),
    decreases l.len(),
{
    if l.len() > 0 {
        let d = l.drop_last();
        lemma_unproc_push(d, done, f);
        let x = l.last()@;
        assert(done.push(f).contains(x) <==> (done.contains(x) || x == f)) by {
            if done.push(f).contains(x) {
                let w = choose|w: int| 0 <= w < done.push(f).len() && done.push(f)[w] == x;
                if w < done.len() {
                    assert(done[w] == x);
                }
            }
            if done.contains(x) {
                let w = choose|w: int| 0 <= w < done.len() && done[w] == x;
                assert(done.push(f)[w] == x);
            }
            if x == f {
                assert(done.push(f)[done.len() as int] == x);
            }
        }
        if list_has(l, f) && !list_has(d, f) {
            let k = choose|k: int| 0 <= k < l.len() && (#[trigger] l[k])@ == f;
            if k < d.len() {
                assert(d[k] == l[k]);
            }
        }
        if list_has(d, f) {
            let k = choose|k: int| 0 <= k < d.len() && (#[trigger] d[k])@ == f;
            assert(l[k] == d[k]);
        }
    }
}

/// Distinct indices below `n`, `n` of them, take every index below `n`.
proof fn lemma_indices_cover(q: Seq<usize>, n: nat)
    requires
        q.len() == n,
        forall|t: int| 0 <= t < q.len() ==> (#[trigger] q[t]) < n,
        forall|t1: int, t2: int| 0 <= t1 < t2 < q.len() ==> (#[trigger] q[t1]) != (#[trigger] q[t2]),
    ensures
        forall|b: usize| b < n ==> #[trigger] q.contains(b),
{
    let qi = q.map_values(|x: usize| x as int);
    assert(qi.no_duplicates()) by {
        assert forall|i: int, j: int| 0 <= i < qi.len() && 0 <= j < qi.len() && i != j implies qi[i] != qi[j] by {
            if i < j {
                assert(q[i] != q[j]);
            } else {
                assert(q[j] != q[i]);
            }
        }
    }
    qi.unique_seq_to_set();
    vstd::set_lib::lemma_int_range(0, n as int);
    let range = vstd::set_lib::set_int_range(0, n as int);
    assert(qi.to_set().subset_of(range)) by {
        assert forall|v: int| qi.to_set().contains(v) implies range.contains(v) by {
            assert(qi.contains(v));
            let w = choose|w: int| 0 <= w < qi.len() && qi[w] == v;
            assert(q[w] < n);
        }
    }
    vstd::set_lib::lemma_subset_equality(qi.to_set(), range);
    assert forall|b: usize| b < n implies #[trigger] q.contains(b) by {
        assert(range.contains(b as int));
        assert(qi.to_set().contains(b as int));
        assert(qi.contains(b as int));
        let w = choose|w: int| 0 <= w < qi.len() && qi[w] == b as int;
        assert(q[w] == b);
    }
}

proof fn lemma_chain_lookup_bound(scopes: Seq<Scope>, sid: int, name: Seq<char>)
    requires
        scopes.len() <= u32::MAX,
    ensures
        chain_lookup(scopes, sid, name) matches Some((s, ids)) ==> 0 <= s.0 < scopes.len() && scopes[s.0 as int].bound(name) == Some(ids),
    decreases sid,
{
    if 0 <= sid < scopes.len() {
        match scopes[sid].bound(name) {
            Some(ids) => {},
            None => match scopes[sid].parent {
                Some(p) => if (p.0 as int) < sid {
                    lemma_chain_lookup_bound(scopes, p.0 as int, name);
                },
                None => {},
            },
        }
    }
}

impl Default for SymbolTable {
    fn default() -> (t: SymbolTable)
        ensures
            t.wf(),
    {
        SymbolTable::new()
    }
}

} // verus!
