//! Scope tree for Circom symbol resolution.
//!
//! Scopes form a tree: the root is the file scope, and nested scopes
//! (template bodies, function bodies, blocks) are children. Symbol lookup
//! walks from the current scope up to the root.

use vstd::prelude::*;

use crate::symbol::{ScopeId, ScopeKind, SymbolId};

verus! {

/// The symbols bound to `name` in a list of (name, symbols) entries.
pub open spec fn entry_lookup(entries: Seq<(Seq<char>, Seq<SymbolId>)>, name: Seq<char>) -> Option<Seq<SymbolId>>
    decreases entries.len(),
{
    if entries.len() == 0 {
        None
    } else if entries.last().0 == name {
        Some(entries.last().1)
    } else {
        entry_lookup(entries.drop_last(), name)
    }
}

/// All the symbols of a list of entries, entry by entry.
pub open spec fn flat_ids(entries: Seq<(Seq<char>, Seq<SymbolId>)>) -> Seq<SymbolId>
    decreases entries.len(),
{
    if entries.len() == 0 {
        Seq::empty()
    } else {
        flat_ids(entries.drop_last()) + entries.last().1
    }
}

/// A single scope in the scope tree.
#[derive(Debug, Clone)]
pub struct Scope {
    pub id: ScopeId,
    pub kind: ScopeKind,
    pub parent: Option<ScopeId>,
    pub children: Vec<ScopeId>,
    /// Symbols defined directly in this scope, by name, in the order in
    /// which the names were first bound. Use `insert` and `lookup_local`,
    /// which keep each name bound once.
    pub symbols: Vec<(String, Vec<SymbolId>)>,
}

impl Scope {
    /// The bindings of the scope, as plain values.
    pub open spec fn entries(self) -> Seq<(Seq<char>, Seq<SymbolId>)> {
        self.symbols@.map_values(|e: (String, Vec<SymbolId>)| (e.0@, e.1@))
    }

    /// `self` has the identity, kind, parent and children of `other`.
    pub open spec fn same_place(self, other: Scope) -> bool {
        &&& self.id == other.id
        &&& self.kind == other.kind
        &&& self.parent == other.parent
        &&& self.children == other.children
    }

    /// The symbols bound to `name` in this scope.
    pub open spec fn bound(self, name: Seq<char>) -> Option<Seq<SymbolId>> {
        entry_lookup(self.entries(), name)
    }

    /// Each name is bound once, to a non-empty list of symbols.
    pub open spec fn wf(self) -> bool {
        &&& forall|i: int, j: int| 0 <= i < j < self.symbols@.len() ==> #[trigger] self.symbols@[i].0@ != #[trigger] self.symbols@[j].0@
        &&& forall|i: int| 0 <= i < self.symbols@.len() ==> #[trigger] self.symbols@[i].1@.len() > 0
    }

    fn new(id: ScopeId, kind: ScopeKind, parent: Option<ScopeId>) -> (s: Scope)
        ensures
            s.wf(),
            s.id == id,
            s.kind == kind,
            s.parent == parent,
            s.children@ == Seq::<ScopeId>::empty(),
            forall|n: Seq<char>| s.bound(n) is None,
    {
        let s = Scope { id, kind, parent, children: Vec::new(), symbols: Vec::new() };
        assert(s.entries() =~= Seq::empty());
        s
    }

    /// The position of `name` among the entries.
    fn find(&self, name: &str) -> (r: Option<usize>)
        requires
            self.wf(),
        ensures
            r matches Some(i) ==> i < self.symbols@.len() && self.symbols@[i as int].0@ == name@,
            r is None ==> forall|i: int| 0 <= i < self.symbols@.len() ==> #[trigger] self.symbols@[i].0@ != name@,
    {
        let mut i: usize = 0;
        while i < self.symbols.len()
            invariant
                i <= self.symbols@.len(),
                forall|k: int| 0 <= k < i ==> #[trigger] self.symbols@[k].0@ != name@,
            decreases self.symbols@.len() - i,
        {
            if string_eq(&self.symbols[i].0, name) {
                return Some(i);
            }
            i += 1;
        }
        None
    }

    proof fn lemma_bound_at(self, i: int)
        requires
            self.wf(),
            0 <= i < self.symbols@.len(),
        ensures
            self.bound(self.symbols@[i].0@) == Some(self.symbols@[i].1@),
    {
        lemma_entry_lookup_unique(self.entries(), i);
    }

    proof fn lemma_unbound(self, name: Seq<char>)
        requires
            forall|i: int| 0 <= i < self.symbols@.len() ==> #[trigger] self.symbols@[i].0@ != name,
        ensures
            self.bound(name) is None,
    {
        lemma_entry_lookup_absent(self.entries(), name);
    }

    /// Insert a symbol name into this scope. Returns `true` if a symbol
    /// with this name already existed (duplicate detection).
    pub fn insert(&mut self, name: &str, id: SymbolId) -> (is_dup: bool)
        requires
            old(self).wf(),
        ensures
            final(self).wf(),
            is_dup == (old(self).bound(name@) is Some),
            final(self).bound(name@) == Some(
                match old(self).bound(name@) {
                    Some(ids) => ids.push(id),
                    None => seq![id],
                },
            ),
            forall|n: Seq<char>| n != name@ ==> final(self).bound(n) == old(self).bound(n),
            final(self).same_place(*old(self)),
    {
        match self.find(name) {
            Some(i) => {
                proof {
                    self.lemma_bound_at(i as int);
                }
                let ghost prev = self.symbols@;
                let mut entry = (String::new(), Vec::new());
                std::mem::swap(&mut entry, &mut self.symbols[i]);
                entry.1.push(id);
                self.symbols.set(i, entry);
                proof {
                    assert forall|a: int, b: int| 0 <= a < b < self.symbols@.len() implies #[trigger] self.symbols@[a].0@
                        != #[trigger] self.symbols@[b].0@ by {
                        assert(prev[a].0@ != prev[b].0@);
                    }
                    self.lemma_bound_at(i as int);
                    assert forall|n: Seq<char>| n != name@ implies self.bound(n) == old(self).bound(n) by {
                        lemma_entry_lookup_update(prev.map_values(|e: (String, Vec<SymbolId>)| (e.0@, e.1@)), i as int, n, self.symbols@[i as int].1@);
                        assert(self.entries() =~= prev.map_values(|e: (String, Vec<SymbolId>)| (e.0@, e.1@)).update(i as int, (name@, self.symbols@[i as int].1@)));
                    }
                }
                true
            },
            None => {
                proof {
                    self.lemma_unbound(name@);
                }
                let ghost prev = self.symbols@;
                let mut ids = Vec::new();
                ids.push(id);
                self.symbols.push((String::from_str(name), ids));
                proof {
                    let n = self.symbols@.len() - 1;
                    self.lemma_bound_at(n);
                    assert(self.entries().drop_last() =~= old(self).entries());
                }
                false
            },
        }
    }

    /// Look up a symbol by name in this scope only.
    pub fn lookup_local(&self, name: &str) -> (r: Option<&[SymbolId]>)
        requires
            self.wf(),
        ensures
            r matches Some(ids) ==> self.bound(name@) == Some(ids@) && ids@.len() > 0,
            r is None ==> self.bound(name@) is None,
    {
        match self.find(name) {
            Some(i) => {
                proof {
                    self.lemma_bound_at(i as int);
                }
                Some(self.symbols[i].1.as_slice())
            },
            None => {
                proof {
                    self.lemma_unbound(name@);
                }
                None
            },
        }
    }

    /// Get all symbol IDs in this scope, name by name.
    pub fn all_symbols(&self) -> (ids: Vec<SymbolId>)
        ensures
            ids@ == flat_ids(self.entries()),
    {
        let mut out: Vec<SymbolId> = Vec::new();
        let mut i: usize = 0;
        while i < self.symbols.len()
            invariant
                i <= self.symbols@.len(),
                out@ == flat_ids(self.entries().take(i as int)),
            decreases self.symbols@.len() - i,
        {
            let ids = &self.symbols[i].1;
            let ghost base = out@;
            let mut j: usize = 0;
            while j < ids.len()
                invariant
                    j <= ids@.len(),
                    out@ == base + ids@.take(j as int),
                decreases ids@.len() - j,
            {
                out.push(ids[j]);
                assert(ids@.take(j + 1) =~= ids@.take(j as int).push(ids@[j as int]));
                j += 1;
            }
            assert(ids@.take(ids@.len() as int) =~= ids@);
            assert(self.entries().take(i + 1).drop_last() =~= self.entries().take(i as int));
            i += 1;
        }
        assert(self.entries().take(self.symbols@.len() as int) =~= self.entries());
        out
    }

    /// Get all symbol names in this scope, in the order they were bound.
    pub fn symbol_names(&self) -> (names: Vec<String>)
        ensures
            names@.len() == self.entries().len(),
            forall|k: int| 0 <= k < names@.len() ==> #[trigger] names@[k]@ == self.entries()[k].0,
    {
        let mut out: Vec<String> = Vec::new();
        let mut i: usize = 0;
        while i < self.symbols.len()
            invariant
                i <= self.symbols@.len(),
                out@.len() == i,
                forall|k: int| 0 <= k < i ==> #[trigger] out@[k]@ == self.symbols@[k].0@,
            decreases self.symbols@.len() - i,
        {
            out.push(String::from_str(self.symbols[i].0.as_str()));
            i += 1;
        }
        out
    }

    /// Forget every symbol and child of this scope.
    fn clear(&mut self)
        ensures
            final(self).wf(),
            forall|n: Seq<char>| final(self).bound(n) is None,
            final(self).children@ == Seq::<ScopeId>::empty(),
            final(self).id == old(self).id,
            final(self).kind == old(self).kind,
            final(self).parent == old(self).parent,
    {
        self.symbols = Vec::new();
        self.children = Vec::new();
        assert(self.entries() =~= Seq::empty());
    }
}

/// The scope tree manages all scopes and provides lookup operations.
#[derive(Debug, Clone)]
pub struct ScopeTree {
    scopes: Vec<Scope>,
}

/// The nearest scope from `sid` up through its ancestors that binds
/// `name`, with the symbols it binds there.
pub open spec fn chain_lookup(scopes: Seq<Scope>, sid: int, name: Seq<char>) -> Option<(ScopeId, Seq<SymbolId>)>
    decreases sid,
{
    if !(0 <= sid < scopes.len()) {
        None
    } else {
        match scopes[sid].bound(name) {
            Some(ids) => Some((ScopeId(sid as u32), ids)),
            None => match scopes[sid].parent {
                Some(p) => if (p.0 as int) < sid {
                    chain_lookup(scopes, p.0 as int, name)
                } else {
                    None
                },
                None => None,
            },
        }
    }
}

impl ScopeTree {
    /// The scopes, indexed by their ids.
    pub closed spec fn scopes(self) -> Seq<Scope> {
        self.scopes@
    }

    /// Every scope sits at the index of its id, each parent was created
    /// before its children, and each scope's bindings are well formed.
    pub closed spec fn wf(self) -> bool {
        &&& self.scopes@.len() <= u32::MAX
        &&& forall|i: int| 0 <= i < self.scopes@.len() ==> (#[trigger] self.scopes@[i]).wf()
        &&& forall|i: int| 0 <= i < self.scopes@.len() ==> (#[trigger] self.scopes@[i]).id.0 == i
        &&& forall|i: int|
            0 <= i < self.scopes@.len() ==> ((#[trigger] self.scopes@[i]).parent matches Some(p) ==> p.0 < i)
    }

    /// What a well-formed tree guarantees of its scopes.
    pub proof fn lemma_wf(self)
        requires
            self.wf(),
        ensures
            self.scopes().len() <= u32::MAX,
            forall|i: int| 0 <= i < self.scopes().len() ==> (#[trigger] self.scopes()[i]).wf(),
            forall|i: int| 0 <= i < self.scopes().len() ==> (#[trigger] self.scopes()[i]).id.0 == i,
            forall|i: int| 0 <= i < self.scopes().len() ==> ((#[trigger] self.scopes()[i]).parent matches Some(p) ==> p.0 < i),
    {
    }

    pub fn new() -> (t: ScopeTree)
        ensures
            t.wf(),
            t.scopes() == Seq::<Scope>::empty(),
    {
        ScopeTree { scopes: Vec::new() }
    }

    /// Create a new root scope (file scope).
    pub fn create_root(&mut self, kind: ScopeKind) -> (id: ScopeId)
        requires
            old(self).wf(),
            old(self).scopes().len() < u32::MAX,
        ensures
            final(self).wf(),
            id.0 == old(self).scopes().len(),
            final(self).scopes().len() == old(self).scopes().len() + 1,
            final(self).scopes().drop_last() == old(self).scopes(),
            final(self).scopes().last().kind == kind,
            final(self).scopes().last().parent is None,
            final(self).scopes().last().children@ == Seq::<ScopeId>::empty(),
            forall|n: Seq<char>| final(self).scopes().last().bound(n) is None,
    {
        let id = ScopeId(self.scopes.len() as u32);
        self.scopes.push(Scope::new(id, kind, None));
        assert(self.scopes@.drop_last() =~= old(self).scopes@);
        id
    }

    /// Create a child scope under the given parent.
    pub fn create_child(&mut self, parent: ScopeId, kind: ScopeKind) -> (id: ScopeId)
        requires
            old(self).wf(),
            old(self).scopes().len() < u32::MAX,
            parent.0 < old(self).scopes().len(),
        ensures
            final(self).wf(),
            id.0 == old(self).scopes().len(),
            final(self).scopes().len() == old(self).scopes().len() + 1,
            final(self).scopes().last().kind == kind,
            final(self).scopes().last().parent == Some(parent),
            final(self).scopes().last().children@ == Seq::<ScopeId>::empty(),
            forall|n: Seq<char>| final(self).scopes().last().bound(n) is None,
            final(self).scopes()[parent.0 as int].children@ == old(self).scopes()[parent.0 as int].children@.push(id),
            forall|n: Seq<char>| #[trigger] final(self).scopes()[parent.0 as int].bound(n) == old(self).scopes()[parent.0 as int].bound(n),
            final(self).scopes()[parent.0 as int].parent == old(self).scopes()[parent.0 as int].parent,
            final(self).scopes()[parent.0 as int].kind == old(self).scopes()[parent.0 as int].kind,
            forall|i: int| 0 <= i < old(self).scopes().len() && i != parent.0 ==> #[trigger] final(self).scopes()[i] == old(self).scopes()[i],
    {
        let id = ScopeId(self.scopes.len() as u32);
        self.scopes.push(Scope::new(id, kind, Some(parent)));
        let p = parent.0 as usize;
        let mut entry = Scope::new(ScopeId(0), ScopeKind::File, None);
        std::mem::swap(&mut entry, &mut self.scopes[p]);
        entry.children.push(id);
        self.scopes.set(p, entry);
        id
    }

    /// Get a scope by ID.
    pub fn get(&self, id: ScopeId) -> (s: &Scope)
        requires
            id.0 < self.scopes().len(),
        ensures
            *s == self.scopes()[id.0 as int],
    {
        &self.scopes[id.0 as usize]
    }

    /// Get a mutable reference to a scope by ID.
    pub fn get_mut(&mut self, id: ScopeId) -> (s: &mut Scope)
        requires
            id.0 < old(self).scopes().len(),
        ensures
            *s == old(self).scopes()[id.0 as int],
            final(self).scopes() == old(self).scopes().update(id.0 as int, *final(s)),
    {
        &mut self.scopes[id.0 as usize]
    }

    /// Insert a symbol into a scope. Returns `true` if duplicate.
    pub fn insert_symbol(&mut self, scope: ScopeId, name: &str, id: SymbolId) -> (is_dup: bool)
        requires
            old(self).wf(),
            scope.0 < old(self).scopes().len(),
        ensures
            final(self).wf(),
            final(self).scopes().len() == old(self).scopes().len(),
            is_dup == (old(self).scopes()[scope.0 as int].bound(name@) is Some),
            final(self).scopes()[scope.0 as int].bound(name@) == Some(
                match old(self).scopes()[scope.0 as int].bound(name@) {
                    Some(ids) => ids.push(id),
                    None => seq![id],
                },
            ),
            forall|n: Seq<char>| n != name@ ==> #[trigger] final(self).scopes()[scope.0 as int].bound(n) == old(self).scopes()[scope.0 as int].bound(n),
            final(self).scopes()[scope.0 as int].same_place(old(self).scopes()[scope.0 as int]),
            forall|i: int| 0 <= i < old(self).scopes().len() && i != scope.0 ==> #[trigger] final(self).scopes()[i] == old(self).scopes()[i],
    {
        let i = scope.0 as usize;
        let mut entry = Scope::new(ScopeId(0), ScopeKind::File, None);
        std::mem::swap(&mut entry, &mut self.scopes[i]);
        let is_dup = entry.insert(name, id);
        self.scopes.set(i, entry);
        proof {
            assert(self.scopes@[i as int].id == old(self).scopes@[i as int].id);
            assert(self.scopes@[i as int].parent == old(self).scopes@[i as int].parent);
        }
        is_dup
    }

    /// Look up a symbol by name, walking up the scope chain.
    /// Returns the first matching symbol IDs found.
    pub fn lookup(&self, scope: ScopeId, name: &str) -> (r: Option<(ScopeId, &[SymbolId])>)
        requires
            self.wf(),
        ensures
            r matches Some((sid, ids)) ==> chain_lookup(self.scopes(), scope.0 as int, name@) == Some((sid, ids@)) && ids@.len() > 0,
            r is None ==> chain_lookup(self.scopes(), scope.0 as int, name@) is None,
    {
        if scope.0 as usize >= self.scopes.len() {
            return None;
        }
        let mut current = scope.0 as usize;
        loop
            invariant
                self.wf(),
                current < self.scopes@.len(),
                chain_lookup(self.scopes@, scope.0 as int, name@) == chain_lookup(self.scopes@, current as int, name@),
            decreases current,
        {
            let s = &self.scopes[current];
            match s.lookup_local(name) {
                Some(ids) => {
                    return Some((ScopeId(current as u32), ids));
                },
                None => {},
            }
            match s.parent {
                Some(p) => {
                    current = p.0 as usize;
                },
                None => {
                    return None;
                },
            }
        }
    }

    /// Look up a symbol only in the given scope (no parent walk).
    pub fn lookup_local(&self, scope: ScopeId, name: &str) -> (r: Option<&[SymbolId]>)
        requires
            self.wf(),
            scope.0 < self.scopes().len(),
        ensures
            r matches Some(ids) ==> self.scopes()[scope.0 as int].bound(name@) == Some(ids@) && ids@.len() > 0,
            r is None ==> self.scopes()[scope.0 as int].bound(name@) is None,
    {
        self.scopes[scope.0 as usize].lookup_local(name)
    }

    /// Number of scopes in the tree.
    pub fn len(&self) -> (n: usize)
        ensures
            n == self.scopes().len(),
    {
        self.scopes.len()
    }

    /// Whether the tree is empty.
    pub fn is_empty(&self) -> (r: bool)
        ensures
            r == (self.scopes().len() == 0),
    {
        self.scopes.len() == 0
    }

    /// Remove all scopes whose IDs are in the given set, and
    /// remove them as children from their parents.
    /// Used for incremental updates when a file is re-parsed.
    ///
    /// The scopes keep their slots, so that every `ScopeId` stays stable;
    /// a removed scope binds nothing and has no children.
    pub fn remove_scopes(&mut self, to_remove: &[ScopeId])
        requires
            old(self).wf(),
            forall|k: int| 0 <= k < to_remove@.len() ==> (#[trigger] to_remove@[k]).0 < old(self).scopes().len(),
        ensures
            final(self).wf(),
            final(self).scopes().len() == old(self).scopes().len(),
            forall|k: int, n: Seq<char>| 0 <= k < to_remove@.len() ==> #[trigger] final(self).scopes()[(#[trigger] to_remove@[k]).0 as int].bound(n) is None,
            forall|k: int| 0 <= k < to_remove@.len() ==> (#[trigger] final(self).scopes()[(#[trigger] to_remove@[k]).0 as int]).children@ == Seq::<ScopeId>::empty(),
            forall|i: int, c: ScopeId| 0 <= i < final(self).scopes().len() && #[trigger] final(self).scopes()[i].children@.contains(c) ==> !to_remove@.contains(c),
            forall|i: int, c: ScopeId| 0 <= i < final(self).scopes().len() && #[trigger] final(self).scopes()[i].children@.contains(c) ==> old(self).scopes()[i].children@.contains(c),
            forall|i: int, n: Seq<char>| 0 <= i < final(self).scopes().len() && !to_remove@.contains(ScopeId(i as u32)) ==> #[trigger] final(self).scopes()[i].bound(n) == old(self).scopes()[i].bound(n),
            forall|i: int|
                0 <= i < final(self).scopes().len() ==> {
                    &&& (#[trigger] final(self).scopes()[i]).id == old(self).scopes()[i].id
                    &&& final(self).scopes()[i].kind == old(self).scopes()[i].kind
                    &&& final(self).scopes()[i].parent == old(self).scopes()[i].parent
                },
            forall|i: int|
                0 <= i < final(self).scopes().len() && !to_remove@.contains(ScopeId(i as u32))
                    ==> (#[trigger] final(self).scopes()[i]).children@ == kept_ids(old(self).scopes()[i].children@, to_remove@),
    {
        // Drop the removed scopes from their parents' children lists.
        let mut k: usize = 0;
        while k < to_remove.len()
            invariant
                k <= to_remove@.len(),
                self.wf(),
                self.scopes@.len() == old(self).scopes@.len(),
                forall|j: int| 0 <= j < to_remove@.len() ==> (#[trigger] to_remove@[j]).0 < self.scopes@.len(),
                forall|i: int, n: Seq<char>| 0 <= i < self.scopes@.len() ==> #[trigger] self.scopes@[i].bound(n) == old(self).scopes@[i].bound(n),
                forall|i: int, c: ScopeId| 0 <= i < self.scopes@.len() && #[trigger] self.scopes@[i].children@.contains(c) ==> old(self).scopes@[i].children@.contains(c),
                forall|a: int|
                    0 <= a < self.scopes@.len() ==> {
                        &&& (#[trigger] self.scopes@[a]).id == old(self).scopes@[a].id
                        &&& self.scopes@[a].kind == old(self).scopes@[a].kind
                        &&& self.scopes@[a].parent == old(self).scopes@[a].parent
                    },
                forall|a: int|
                    0 <= a < self.scopes@.len() ==> (#[trigger] self.scopes@[a]).children@ == old(self).scopes@[a].children@
                        || self.scopes@[a].children@ == kept_ids(old(self).scopes@[a].children@, to_remove@),
            decreases to_remove@.len() - k,
        {
            let sid = to_remove[k].0 as usize;
            match self.scopes[sid].parent {
                Some(parent_id) => {
                    let p = parent_id.0 as usize;
                    let ghost prev = self.scopes@;
                    let mut entry = Scope::new(ScopeId(0), ScopeKind::File, None);
                    std::mem::swap(&mut entry, &mut self.scopes[p]);
                    let kept = retain_not_in(&entry.children, to_remove);
                    proof {
                        lemma_kept_twice(old(self).scopes@[p as int].children@, to_remove@);
                    }
                    entry.children = kept;
                    self.scopes.set(p, entry);
                    proof {
                        assert(self.scopes@[p as int].symbols@ == prev[p as int].symbols@);
                        assert(self.scopes@[p as int].entries() == prev[p as int].entries());
                        assert forall|a: int, n: Seq<char>| 0 <= a < self.scopes@.len() implies #[trigger] self.scopes@[a].bound(n) == prev[a].bound(n) by {
                            if a != p {
                                assert(self.scopes@[a] == prev[a]);
                            }
                        }
                    }
                },
                None => {},
            }
            k += 1;
        }
        // Filter every children list once more so that no removed id stays.
        let mut i: usize = 0;
        while i < self.scopes.len()
            invariant
                i <= self.scopes@.len(),
                self.wf(),
                self.scopes@.len() == old(self).scopes@.len(),
                forall|j: int| 0 <= j < to_remove@.len() ==> (#[trigger] to_remove@[j]).0 < self.scopes@.len(),
                forall|a: int, n: Seq<char>| 0 <= a < self.scopes@.len() ==> #[trigger] self.scopes@[a].bound(n) == old(self).scopes@[a].bound(n),
                forall|a: int, c: ScopeId| 0 <= a < self.scopes@.len() && #[trigger] self.scopes@[a].children@.contains(c) ==> old(self).scopes@[a].children@.contains(c),
                forall|a: int, c: ScopeId| 0 <= a < i && #[trigger] self.scopes@[a].children@.contains(c) ==> !to_remove@.contains(c),
                forall|a: int|
                    0 <= a < self.scopes@.len() ==> {
                        &&& (#[trigger] self.scopes@[a]).id == old(self).scopes@[a].id
                        &&& self.scopes@[a].kind == old(self).scopes@[a].kind
                        &&& self.scopes@[a].parent == old(self).scopes@[a].parent
                    },
                forall|a: int|
                    0 <= a < self.scopes@.len() ==> (#[trigger] self.scopes@[a]).children@ == old(self).scopes@[a].children@
                        || self.scopes@[a].children@ == kept_ids(old(self).scopes@[a].children@, to_remove@),
                forall|a: int|
                    0 <= a < i ==> (#[trigger] self.scopes@[a]).children@ == kept_ids(old(self).scopes@[a].children@, to_remove@),
            decreases self.scopes@.len() - i,
        {
            let ghost prev = self.scopes@;
            let mut entry = Scope::new(ScopeId(0), ScopeKind::File, None);
            std::mem::swap(&mut entry, &mut self.scopes[i]);
            let kept = retain_not_in(&entry.children, to_remove);
            proof {
                lemma_kept_twice(old(self).scopes@[i as int].children@, to_remove@);
            }
            entry.children = kept;
            self.scopes.set(i, entry);
            proof {
                assert(self.scopes@[i as int].symbols@ == prev[i as int].symbols@);
                assert(self.scopes@[i as int].entries() == prev[i as int].entries());
                assert forall|a: int, n: Seq<char>| 0 <= a < self.scopes@.len() implies #[trigger] self.scopes@[a].bound(n) == prev[a].bound(n) by {
                    if a != i {
                        assert(self.scopes@[a] == prev[a]);
                    }
                }
            }
            i += 1;
        }
        // Clear the removed scopes, keeping their slots.
        let mut k: usize = 0;
        while k < to_remove.len()
            invariant
                k <= to_remove@.len(),
                self.wf(),
                self.scopes@.len() == old(self).scopes@.len(),
                forall|j: int| 0 <= j < to_remove@.len() ==> (#[trigger] to_remove@[j]).0 < self.scopes@.len(),
                forall|j: int, n: Seq<char>| 0 <= j < k ==> #[trigger] self.scopes@[(#[trigger] to_remove@[j]).0 as int].bound(n) is None,
                forall|j: int| 0 <= j < k ==> (#[trigger] self.scopes@[(#[trigger] to_remove@[j]).0 as int]).children@ == Seq::<ScopeId>::empty(),
                forall|a: int, c: ScopeId| 0 <= a < self.scopes@.len() && #[trigger] self.scopes@[a].children@.contains(c) ==> !to_remove@.contains(c),
                forall|a: int, c: ScopeId| 0 <= a < self.scopes@.len() && #[trigger] self.scopes@[a].children@.contains(c) ==> old(self).scopes@[a].children@.contains(c),
                forall|a: int, n: Seq<char>| 0 <= a < self.scopes@.len() && !to_remove@.contains(ScopeId(a as u32)) ==> #[trigger] self.scopes@[a].bound(n) == old(self).scopes@[a].bound(n),
                forall|a: int|
                    0 <= a < self.scopes@.len() ==> {
                        &&& (#[trigger] self.scopes@[a]).id == old(self).scopes@[a].id
                        &&& self.scopes@[a].kind == old(self).scopes@[a].kind
                        &&& self.scopes@[a].parent == old(self).scopes@[a].parent
                    },
                forall|a: int|
                    0 <= a < self.scopes@.len() && !to_remove@.contains(ScopeId(a as u32)) ==> (#[trigger] self.scopes@[a]).children@
                        == kept_ids(old(self).scopes@[a].children@, to_remove@),
            decreases to_remove@.len() - k,
        {
            let sid = to_remove[k].0 as usize;
            let mut entry = Scope::new(ScopeId(0), ScopeKind::File, None);
            std::mem::swap(&mut entry, &mut self.scopes[sid]);
            entry.clear();
            self.scopes.set(sid, entry);
            proof {
                assert forall|a: int, n: Seq<char>| 0 <= a < self.scopes@.len() && !to_remove@.contains(ScopeId(a as u32)) implies #[trigger] self.scopes@[a].bound(n) == old(self).scopes@[a].bound(n) by {
                    if a == sid {
                        assert(to_remove@[k as int] == ScopeId(a as u32));
                    }
                }
            }
            k += 1;
        }
    }
}

impl Default for ScopeTree {
    fn default() -> (t: ScopeTree)
        ensures
            t.wf(),
            t.scopes() == Seq::<Scope>::empty(),
    {
        ScopeTree::new()
    }
}

/// The ids of `ids` that `drop` does not hold, in order.
pub open spec fn kept_ids(ids: Seq<ScopeId>, drop: Seq<ScopeId>) -> Seq<ScopeId>
    decreases ids.len(),
{
    if ids.len() == 0 {
        Seq::empty()
    } else {
        kept_ids(ids.drop_last(), drop) + if drop.contains(ids.last()) {
            Seq::empty()
        } else {
            seq![ids.last()]
        }
    }
}

/// Keeping the ids of a concatenation keeps those of each part.
proof fn lemma_kept_concat(a: Seq<ScopeId>, b: Seq<ScopeId>, drop: Seq<ScopeId>)
    ensures
        kept_ids(a + b, drop) == kept_ids(a, drop) + kept_ids(b, drop),
    decreases b.len(),
{
    if b.len() == 0 {
        assert(a + b =~= a);
        assert(kept_ids(a, drop) + kept_ids(b, drop) =~= kept_ids(a, drop));
    } else {
        lemma_kept_concat(a, b.drop_last(), drop);
        assert((a + b).drop_last() =~= a + b.drop_last());
        assert((a + b).last() == b.last());
        assert(kept_ids(a + b, drop) =~= kept_ids(a, drop) + kept_ids(b, drop));
    }
}

/// Keeping twice keeps the same ids as keeping once.
proof fn lemma_kept_twice(ids: Seq<ScopeId>, drop: Seq<ScopeId>)
    ensures
        kept_ids(kept_ids(ids, drop), drop) == kept_ids(ids, drop),
    decreases ids.len(),
{
    if ids.len() > 0 {
        let pre = kept_ids(ids.drop_last(), drop);
        lemma_kept_twice(ids.drop_last(), drop);
        let t = if drop.contains(ids.last()) {
            Seq::<ScopeId>::empty()
        } else {
            seq![ids.last()]
        };
        lemma_kept_concat(pre, t, drop);
        if !drop.contains(ids.last()) {
            assert(t.drop_last() =~= Seq::<ScopeId>::empty());
            assert(t.last() == ids.last());
            assert(kept_ids(t.drop_last(), drop) =~= Seq::<ScopeId>::empty());
            assert(kept_ids(t, drop) =~= t);
        } else {
            assert(t =~= Seq::<ScopeId>::empty());
            assert(kept_ids(Seq::<ScopeId>::empty(), drop) =~= Seq::<ScopeId>::empty());
        }
    }
}

/// The ids of `ids` that `drop` does not hold, in order.
fn retain_not_in(ids: &Vec<ScopeId>, drop: &[ScopeId]) -> (kept: Vec<ScopeId>)
    ensures
        forall|c: ScopeId| kept@.contains(c) <==> (ids@.contains(c) && !drop@.contains(c)),
        kept@ == kept_ids(ids@, drop@),
{
    let mut kept: Vec<ScopeId> = Vec::new();
    let mut i: usize = 0;
    while i < ids.len()
        invariant
            i <= ids@.len(),
            kept@ == kept_ids(ids@.subrange(0, i as int), drop@),
            forall|k: int| 0 <= k < kept@.len() ==> ids@.contains(#[trigger] kept@[k]) && !drop@.contains(kept@[k]),
            forall|k: int| 0 <= k < i && !drop@.contains(#[trigger] ids@[k]) ==> kept@.contains(ids@[k]),
        decreases ids@.len() - i,
    {
        let c = ids[i];
        let mut found = false;
        let mut j: usize = 0;
        while j < drop.len()
            invariant
                j <= drop@.len(),
                found ==> drop@.contains(c),
                !found ==> forall|k: int| 0 <= k < j ==> #[trigger] drop@[k] != c,
            decreases drop@.len() - j,
        {
            if drop[j] == c {
                found = true;
            }
            j += 1;
        }
        let ghost before = kept@;
        if !found {
            kept.push(c);
        }
        proof {
            let sub = ids@.subrange(0, i + 1);
            assert(sub.drop_last() =~= ids@.subrange(0, i as int));
            assert(sub.last() == c);
            assert(found == drop@.contains(c)) by {
                if drop@.contains(c) && !found {
                    let x = choose|x: int| 0 <= x < drop@.len() && drop@[x] == c;
                    assert(drop@[x] != c);
                }
            }
            assert(kept@ =~= kept_ids(sub, drop@));
            assert forall|k: int| 0 <= k < i + 1 && !drop@.contains(#[trigger] ids@[k]) implies kept@.contains(ids@[k]) by {
                if k < i {
                    let x = choose|x: int| 0 <= x < before.len() && before[x] == ids@[k];
                    assert(kept@[x] == ids@[k]);
                } else {
                    assert(kept@[kept@.len() - 1] == c);
                }
            }
        }
        i += 1;
    }
    proof {
        assert(ids@.subrange(0, ids@.len() as int) =~= ids@);
        assert forall|c: ScopeId| (ids@.contains(c) && !drop@.contains(c)) implies kept@.contains(c) by {
            let k = choose|k: int| 0 <= k < ids@.len() && ids@[k] == c;
            assert(!drop@.contains(ids@[k]));
        }
        assert forall|c: ScopeId| kept@.contains(c) implies (ids@.contains(c) && !drop@.contains(c)) by {
            let k = choose|k: int| 0 <= k < kept@.len() && kept@[k] == c;
            assert(ids@.contains(kept@[k]));
        }
    }
    kept
}

/// `a == b` on the text of a `String` and a `&str`.
pub fn string_eq(a: &String, b: &str) -> (r: bool)
    ensures
        r == (a@ == b@),
{
    let x = a.as_str().as_bytes();
    let y = b.as_bytes();
    proof {
        vstd::utf8::encode_utf8_decode_utf8(a@);
        vstd::utf8::encode_utf8_decode_utf8(b@);
    }
    if x.len() != y.len() {
        return false;
    }
    let mut i: usize = 0;
    while i < x.len()
        invariant
            x@ == vstd::utf8::encode_utf8(a@),
            y@ == vstd::utf8::encode_utf8(b@),
            x@.len() == y@.len(),
            i <= x@.len(),
            forall|k: int| 0 <= k < i ==> x@[k] == y@[k],
        decreases x@.len() - i,
    {
        if x[i] != y[i] {
            return false;
        }
        i += 1;
    }
    assert(x@ =~= y@);
    true
}

proof fn lemma_entry_lookup_unique(entries: Seq<(Seq<char>, Seq<SymbolId>)>, i: int)
    requires
        0 <= i < entries.len(),
        forall|a: int, b: int| 0 <= a < b < entries.len() ==> #[trigger] entries[a].0 != #[trigger] entries[b].0,
    ensures
        entry_lookup(entries, entries[i].0) == Some(entries[i].1),
    decreases entries.len(),
{
    if i != entries.len() - 1 {
        lemma_entry_lookup_unique(entries.drop_last(), i);
    }
}

proof fn lemma_entry_lookup_absent(entries: Seq<(Seq<char>, Seq<SymbolId>)>, name: Seq<char>)
    requires
        forall|a: int| 0 <= a < entries.len() ==> #[trigger] entries[a].0 != name,
    ensures
        entry_lookup(entries, name) is None,
    decreases entries.len(),
{
    if entries.len() > 0 {
        lemma_entry_lookup_absent(entries.drop_last(), name);
    }
}

proof fn lemma_entry_lookup_update(entries: Seq<(Seq<char>, Seq<SymbolId>)>, i: int, n: Seq<char>, v: Seq<SymbolId>)
    requires
        0 <= i < entries.len(),
        n != entries[i].0,
    ensures
        entry_lookup(entries.update(i, (entries[i].0, v)), n) == entry_lookup(entries, n),
    decreases entries.len(),
{
    let u = entries.update(i, (entries[i].0, v));
    if i != entries.len() - 1 {
        assert(u.drop_last() =~= entries.drop_last().update(i, (entries[i].0, v)));
        lemma_entry_lookup_update(entries.drop_last(), i, n, v);
    } else {
        assert(u.drop_last() =~= entries.drop_last());
    }
}

} // verus!
