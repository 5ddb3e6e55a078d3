use cinccino::scope::{ScopeTree};
use cinccino::symbol::{ScopeId, ScopeKind, SymbolId};
#[test]
fn create_root_scope() {
    let mut tree = ScopeTree::new();
    let root = tree.create_root(ScopeKind::File);
    assert_eq!(root, ScopeId(0));
    assert_eq!(tree.get(root).kind, ScopeKind::File);
    assert!(tree.get(root).parent.is_none());
}

#[test]
fn create_child_scope() {
    let mut tree = ScopeTree::new();
    let root = tree.create_root(ScopeKind::File);
    let child = tree.create_child(root, ScopeKind::Template);
    assert_eq!(child, ScopeId(1));
    assert_eq!(tree.get(child).parent, Some(root));
    assert!(tree.get(root).children.contains(&child));
}

#[test]
fn insert_and_lookup_local() {
    let mut tree = ScopeTree::new();
    let root = tree.create_root(ScopeKind::File);
    tree.insert_symbol(root, "Foo", SymbolId(0));

    let result = tree.lookup_local(root, "Foo");
    assert_eq!(result, Some(&[SymbolId(0)][..]));

    assert!(tree.lookup_local(root, "Bar").is_none());
}

#[test]
fn lookup_walks_up_scope_chain() {
    let mut tree = ScopeTree::new();
    let root = tree.create_root(ScopeKind::File);
    let child = tree.create_child(root, ScopeKind::Template);
    let grandchild = tree.create_child(child, ScopeKind::Block);

    tree.insert_symbol(root, "Foo", SymbolId(0));
    tree.insert_symbol(child, "bar", SymbolId(1));

    // Lookup from grandchild finds "bar" in parent (template scope).
    let (scope, ids) = tree.lookup(grandchild, "bar").unwrap();
    assert_eq!(scope, child);
    assert_eq!(ids, &[SymbolId(1)]);

    // Lookup from grandchild finds "Foo" in root (file scope).
    let (scope, ids) = tree.lookup(grandchild, "Foo").unwrap();
    assert_eq!(scope, root);
    assert_eq!(ids, &[SymbolId(0)]);

    // Lookup of non-existent symbol returns None.
    assert!(tree.lookup(grandchild, "baz").is_none());
}

#[test]
fn inner_scope_shadows_outer() {
    let mut tree = ScopeTree::new();
    let root = tree.create_root(ScopeKind::File);
    let child = tree.create_child(root, ScopeKind::Template);
    let block = tree.create_child(child, ScopeKind::Block);

    // "x" in template scope
    tree.insert_symbol(child, "x", SymbolId(0));
    // "x" also in block scope (shadows the outer one)
    tree.insert_symbol(block, "x", SymbolId(1));

    // Lookup from block finds the inner one.
    let (scope, ids) = tree.lookup(block, "x").unwrap();
    assert_eq!(scope, block);
    assert_eq!(ids, &[SymbolId(1)]);

    // Lookup from template scope finds its own.
    let (scope, ids) = tree.lookup(child, "x").unwrap();
    assert_eq!(scope, child);
    assert_eq!(ids, &[SymbolId(0)]);
}

#[test]
fn duplicate_detection() {
    let mut tree = ScopeTree::new();
    let root = tree.create_root(ScopeKind::File);

    let is_dup = tree.insert_symbol(root, "Foo", SymbolId(0));
    assert!(!is_dup);

    let is_dup = tree.insert_symbol(root, "Foo", SymbolId(1));
    assert!(is_dup);

    // Both are stored.
    let ids = tree.lookup_local(root, "Foo").unwrap();
    assert_eq!(ids, &[SymbolId(0), SymbolId(1)]);
}

#[test]
fn remove_scopes_clears_content() {
    let mut tree = ScopeTree::new();
    let root = tree.create_root(ScopeKind::File);
    let child = tree.create_child(root, ScopeKind::Template);
    tree.insert_symbol(child, "x", SymbolId(0));

    tree.remove_scopes(&[child]);

    // Child's symbols are cleared.
    assert!(tree.lookup_local(child, "x").is_none());
    // Child is removed from parent's children list.
    assert!(!tree.get(root).children.contains(&child));
}
