//! The library-wide laws of definition collection, each proved once
//! and for all: symbol identity across the whole registry, group
//! import flattening, wildcard imports as no-ops, and unresolvable
//! imports as silently pruned edges.

use vstd::prelude::*;

use crate::db::AnalyzerDb;
use crate::resolver::{
    defs_of_files, entry_matches, is_visit_order, lemma_reachable_in_universe,
    lemma_resolved_files_concat, reachable, reaches_in, registry_complete, registry_matches,
    resolved_files, ItemDef,
};
use crate::syntax::{
    def_name, defs_of_items, group_paths, items_seq, tree_paths, FileId, PathText, UseTree,
};

verus! {

/// Every definition in a files sequence's flattened definition list
/// comes from one of those files.
proof fn lemma_defs_of_files_source<DB: AnalyzerDb>(db: &DB, order: Seq<FileId>, i: int)
    requires
        0 <= i < defs_of_files(db, order).len(),
    ensures
        exists|f: FileId, j: int|
            #![trigger defs_of_items(items_seq(db.ast_of(f)))[j]]
            order.contains(f) && 0 <= j < defs_of_items(items_seq(db.ast_of(f))).len()
                && defs_of_files(db, order)[i] == defs_of_items(items_seq(db.ast_of(f)))[j],
    decreases order.len(),
{
    let d0 = defs_of_files(db, order.drop_last());
    if i < d0.len() {
        lemma_defs_of_files_source(db, order.drop_last(), i);
        let (f, j) = choose|f: FileId, j: int|
            #![trigger defs_of_items(items_seq(db.ast_of(f)))[j]]
            order.drop_last().contains(f) && 0 <= j < defs_of_items(items_seq(db.ast_of(f))).len()
                && defs_of_files(db, order.drop_last())[i] == defs_of_items(
                items_seq(db.ast_of(f)),
            )[j];
        let k = choose|k: int| 0 <= k < order.drop_last().len() && order.drop_last()[k] == f;
        assert(order[k] == f);
        assert(order.contains(f));
        assert(defs_of_files(db, order)[i] == d0[i]);
    } else {
        let f = order.last();
        let j = i - d0.len();
        assert(order[order.len() - 1] == f);
        assert(order.contains(f));
        assert(defs_of_files(db, order)[i] == defs_of_items(items_seq(db.ast_of(f)))[j]);
    }
}

/// Symbol identity: in a completed registry, two entries carry the
/// same symbol exactly when their declarations carry the same name
/// text — equal text anywhere in the graph interns to one symbol, and
/// distinct text never collides.
pub proof fn lemma_symbol_identity<DB: AnalyzerDb>(
    db: &DB,
    entry_file: FileId,
    m: Map<u32, ItemDef>,
    k1: u32,
    k2: u32,
)
    requires
        db.file_universe().contains(entry_file),
        registry_complete(db, entry_file, m),
        m.contains_key(k1),
        m.contains_key(k2),
    ensures
        m[k1].name == m[k2].name <==> def_name(*m[k1].ast_node) == def_name(*m[k2].ast_node),
{
    let order = choose|order: Seq<FileId>|
        #[trigger] is_visit_order(db, entry_file, order) && registry_matches(db, order, m);
    let defs = defs_of_files(db, order);
    assert(entry_matches(db, m[k1], k1 as int, defs[k1 as int]));
    assert(entry_matches(db, m[k2], k2 as int, defs[k2 as int]));
    let a = def_name(defs[k1 as int]);
    let b = def_name(defs[k2 as int]);
    assert(a == def_name(*m[k1].ast_node));
    assert(b == def_name(*m[k2].ast_node));
    assert(m[k1].name == db.intern_of(a));
    assert(m[k2].name == db.intern_of(b));
    lemma_sees_registry_name(db, entry_file, order, k1 as int);
    lemma_sees_registry_name(db, entry_file, order, k2 as int);
    db.lemma_intern_injective();
}

/// The name of any definition in a complete visit order's definition
/// list is a name the boundary's universe sees.
proof fn lemma_sees_registry_name<DB: AnalyzerDb>(
    db: &DB,
    entry_file: FileId,
    order: Seq<FileId>,
    i: int,
)
    requires
        db.file_universe().contains(entry_file),
        is_visit_order(db, entry_file, order),
        0 <= i < defs_of_files(db, order).len(),
    ensures
        exists|f: FileId, j: int|
            #![trigger def_name(defs_of_items(items_seq(db.ast_of(f)))[j])]
            db.file_universe().contains(f) && 0 <= j < defs_of_items(
                items_seq(db.ast_of(f)),
            ).len() && def_name(defs_of_items(items_seq(db.ast_of(f)))[j]) == def_name(
                defs_of_files(db, order)[i],
            ),
{
    lemma_defs_of_files_source(db, order, i);
    let (f, j) = choose|f: FileId, j: int|
        #![trigger defs_of_items(items_seq(db.ast_of(f)))[j]]
        order.contains(f) && 0 <= j < defs_of_items(items_seq(db.ast_of(f))).len()
            && defs_of_files(db, order)[i] == defs_of_items(items_seq(db.ast_of(f)))[j];
    assert(reachable(db, entry_file, f));
    let n0 = choose|n0: nat| reaches_in(db, entry_file, f, n0);
    lemma_reachable_in_universe(db, entry_file, f, n0);
    assert(def_name(defs_of_items(items_seq(db.ast_of(f)))[j]) == def_name(
        defs_of_files(db, order)[i],
    ));
}

/// The files a sequence of import trees resolves to, tree by tree.
pub open spec fn members_resolved<DB: AnalyzerDb>(
    db: &DB,
    anchor: FileId,
    ts: Seq<UseTree>,
) -> Seq<FileId>
    decreases ts.len(),
{
    if ts.len() == 0 {
        seq![]
    } else {
        members_resolved(db, anchor, ts.drop_last()) + resolved_files(
            db,
            anchor,
            tree_paths(ts.last()),
        )
    }
}

/// Group import flattening: a grouped import declaration resolves to
/// exactly the concatenation, member by member, of what its members
/// resolve to — as if each member had been written as an independent
/// import declaration.
pub proof fn lemma_group_import_flattening<DB: AnalyzerDb>(
    db: &DB,
    anchor: FileId,
    trees: Vec<UseTree>,
)
    ensures
        resolved_files(db, anchor, tree_paths(UseTree::Group { items: trees }))
            == members_resolved(db, anchor, trees@),
{
    assert(tree_paths(UseTree::Group { items: trees }) == group_paths(trees@));
    lemma_group_resolved(db, anchor, trees@);
}

/// The resolved files of a tree sequence's flattened paths equal the
/// concatenation of each tree's resolved files.
proof fn lemma_group_resolved<DB: AnalyzerDb>(db: &DB, anchor: FileId, ts: Seq<UseTree>)
    ensures
        resolved_files(db, anchor, group_paths(ts)) == members_resolved(db, anchor, ts),
    decreases ts.len(),
{
    if ts.len() == 0 {
        assert(resolved_files(db, anchor, group_paths(ts)) =~= members_resolved(db, anchor, ts));
    } else {
        lemma_group_resolved(db, anchor, ts.drop_last());
        lemma_resolved_files_concat(
            db,
            anchor,
            group_paths(ts.drop_last()),
            tree_paths(ts.last()),
        );
    }
}

/// Wildcard imports are a recognized no-op: a wildcard names no
/// paths, so it enqueues no files, whatever the boundary.
pub proof fn lemma_wildcard_noop<DB: AnalyzerDb>(db: &DB, anchor: FileId)
    ensures
        tree_paths(UseTree::Wildcard) == Seq::<PathText>::empty(),
        resolved_files(db, anchor, tree_paths(UseTree::Wildcard)) == Seq::<FileId>::empty(),
{
}

/// An unresolvable import is non-fatal and contributes nothing:
/// removing a path that the boundary cannot resolve leaves the
/// resolved files of an import list unchanged.
pub proof fn lemma_unresolvable_import_dropped<DB: AnalyzerDb>(
    db: &DB,
    anchor: FileId,
    paths: Seq<PathText>,
    i: int,
)
    requires
        0 <= i < paths.len(),
        db.resolve_of(anchor, paths[i]) is None,
    ensures
        resolved_files(db, anchor, paths) == resolved_files(db, anchor, paths.remove(i)),
{
    let a = paths.take(i);
    let b = seq![paths[i]];
    let c = paths.skip(i + 1);
    assert(paths =~= (a + b) + c);
    assert(paths.remove(i) =~= a + c);
    lemma_resolved_files_concat(db, anchor, a + b, c);
    lemma_resolved_files_concat(db, anchor, a, b);
    lemma_resolved_files_concat(db, anchor, a, c);
    assert(b.drop_last() =~= Seq::<PathText>::empty());
    assert(b.last() == paths[i]);
    assert(resolved_files(db, anchor, Seq::<PathText>::empty()) == Seq::<FileId>::empty());
    assert(resolved_files(db, anchor, b) =~= Seq::<FileId>::empty());
    assert((resolved_files(db, anchor, a) + resolved_files(db, anchor, b)) =~= resolved_files(
        db,
        anchor,
        a,
    ));
}

} // verus!
