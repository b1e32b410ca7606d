//! The syntax-tree shape that definition collection walks, together
//! with the spec-level functions that read it: which items are
//! definitions, and which module paths an import declaration names.

use std::sync::Arc;
use vstd::prelude::*;

verus! {

/// Identifies a source file for the lifetime of one compilation.
/// File identifiers are supplied by the query boundary; the resolver
/// never allocates one.
pub type FileId = usize;

/// An interned identifier: the query boundary maps equal text to equal
/// symbols, so comparing names is an integer comparison.
#[derive(Debug, Clone, Copy, PartialEq, Eq, Structural, Hash)]
pub struct Symbol(pub u32);

/// A module path as written in an import declaration, one string per
/// segment.
#[derive(Debug)]
pub struct Path {
    pub segments: Vec<String>,
}

impl View for Path {
    type V = Seq<Seq<char>>;

    open spec fn view(&self) -> Seq<Seq<char>> {
        self.segments.deep_view()
    }
}

/// The view of one import path: its segments as character sequences.
pub type PathText = Seq<Seq<char>>;

/// The (possibly nested) shape of the names inside one import
/// declaration.
#[derive(Debug)]
pub enum UseTree {
    /// A single module path, resolved directly.
    Simple { path: Path },
    /// Several sub-trees grouped under one declaration.
    Group { items: Vec<UseTree> },
    /// A wildcard import: recognized and skipped, never resolved.
    Wildcard,
}

/// An import declaration.
#[derive(Debug)]
pub struct UseStmt {
    pub tree: UseTree,
}

/// A top-level function declaration; only its name matters at this
/// stage.
#[derive(Debug)]
pub struct FuncDef {
    pub name: String,
}

/// A top-level struct declaration.
#[derive(Debug)]
pub struct StructDef {
    pub name: String,
}

/// One top-level item of a module.
#[derive(Debug)]
pub enum Item {
    Function(FuncDef),
    Struct(StructDef),
    Use(UseStmt),
}

/// A parsed source file: its top-level items, each behind a shared
/// read-only handle, so that a registry entry can retain a node that
/// the tree also keeps.
#[derive(Debug)]
pub struct Module {
    pub items: Vec<Arc<Item>>,
}

/// Relies on std's `Arc::clone`: the returned handle refers to the
/// same shared value as the argument.
#[verifier::external_body]
pub(crate) fn share_arc<T>(a: &Arc<T>) -> (r: Arc<T>)
    ensures
        r == *a,
{
    a.clone()
}

/// The items of a module as one sequence of plain values.
pub open spec fn items_seq(m: Module) -> Seq<Item> {
    Seq::new(m.items@.len(), |i: int| *m.items@[i])
}

/// An item is a definition when it declares something; import
/// declarations are not definitions.
pub open spec fn is_def(it: Item) -> bool {
    !(it is Use)
}

/// The declared name of a definition.
pub open spec fn def_name(it: Item) -> Seq<char> {
    match it {
        Item::Function(f) => f.name@,
        Item::Struct(s) => s.name@,
        Item::Use(_) => Seq::empty(),
    }
}

/// Every module path named by one import tree, in source order: a
/// simple path names itself, a group names what its members name, and
/// a wildcard names nothing.
pub open spec fn tree_paths(t: UseTree) -> Seq<PathText>
    decreases t,
{
    match t {
        UseTree::Simple { path } => seq![path@],
        UseTree::Group { items } => group_paths(items@),
        UseTree::Wildcard => seq![],
    }
}

/// The paths named by a sequence of import trees, concatenated in
/// order.
pub open spec fn group_paths(ts: Seq<UseTree>) -> Seq<PathText>
    decreases ts,
{
    if ts.len() == 0 {
        seq![]
    } else {
        group_paths(ts.drop_last()) + tree_paths(ts.last())
    }
}

/// The paths named by one item: an import declaration contributes the
/// paths of its tree, a definition contributes none.
pub open spec fn item_paths(it: Item) -> Seq<PathText> {
    match it {
        Item::Use(u) => tree_paths(u.tree),
        _ => seq![],
    }
}

/// The paths named by all import declarations of an item sequence, in
/// source order.
pub open spec fn items_paths(its: Seq<Item>) -> Seq<PathText>
    decreases its.len(),
{
    if its.len() == 0 {
        seq![]
    } else {
        items_paths(its.drop_last()) + item_paths(its.last())
    }
}

/// The definitions among an item sequence, in source order, with
/// import declarations skipped.
pub open spec fn defs_of_items(its: Seq<Item>) -> Seq<Item>
    decreases its.len(),
{
    if its.len() == 0 {
        seq![]
    } else {
        defs_of_items(its.drop_last()) + (if is_def(its.last()) {
            seq![its.last()]
        } else {
            Seq::empty()
        })
    }
}

/// Extending an item sequence by one item extends its definitions by
/// that item exactly when the item is a definition.
pub proof fn lemma_defs_of_items_take_step(its: Seq<Item>, i: int)
    requires
        0 <= i < its.len(),
    ensures
        defs_of_items(its.take(i + 1)) == defs_of_items(its.take(i)) + (if is_def(its[i]) {
            seq![its[i]]
        } else {
            Seq::empty()
        }),
{
    assert(its.take(i + 1).drop_last() =~= its.take(i));
    assert(its.take(i + 1).last() == its[i]);
}

/// Definitions distribute over concatenation of item sequences.
pub proof fn lemma_defs_of_items_concat(p: Seq<Item>, q: Seq<Item>)
    ensures
        defs_of_items(p + q) == defs_of_items(p) + defs_of_items(q),
    decreases q.len(),
{
    if q.len() == 0 {
        assert(p + q =~= p);
        assert(defs_of_items(p) + defs_of_items(q) =~= defs_of_items(p));
    } else {
        lemma_defs_of_items_concat(p, q.drop_last());
        assert((p + q).drop_last() =~= p + q.drop_last());
        assert(defs_of_items(p) + defs_of_items(q.drop_last()) + (if is_def(q.last()) {
            seq![q.last()]
        } else {
            Seq::empty()
        }) =~= defs_of_items(p) + defs_of_items(q));
    }
}

/// A prefix of an item sequence has at most as many definitions.
pub proof fn lemma_defs_of_items_take_le(its: Seq<Item>, i: int)
    requires
        0 <= i <= its.len(),
    ensures
        defs_of_items(its.take(i)).len() <= defs_of_items(its).len(),
{
    lemma_defs_of_items_concat(its.take(i), its.skip(i));
    assert(its.take(i) + its.skip(i) =~= its);
}

/// Extending an item sequence by one item appends that item's paths.
pub proof fn lemma_items_paths_take_step(its: Seq<Item>, i: int)
    requires
        0 <= i < its.len(),
    ensures
        items_paths(its.take(i + 1)) == items_paths(its.take(i)) + item_paths(its[i]),
{
    assert(its.take(i + 1).drop_last() =~= its.take(i));
    assert(its.take(i + 1).last() == its[i]);
}

/// Extending a tree sequence by one tree appends that tree's paths.
pub proof fn lemma_group_paths_take_step(ts: Seq<UseTree>, i: int)
    requires
        0 <= i < ts.len(),
    ensures
        group_paths(ts.take(i + 1)) == group_paths(ts.take(i)) + tree_paths(ts[i]),
{
    assert(ts.take(i + 1).drop_last() =~= ts.take(i));
    assert(ts.take(i + 1).last() == ts[i]);
}

} // verus!
