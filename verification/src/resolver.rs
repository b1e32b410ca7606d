//! The definition collector: a breadth-first traversal of the module
//! graph that starts from one entry file, visits every reachable file
//! exactly once (cycles included), and registers every top-level
//! definition under a fresh, globally unique identifier.

use std::collections::HashMap;
use std::collections::HashSet;
use std::collections::VecDeque;
use std::sync::Arc;
use vstd::prelude::*;

use crate::db::AnalyzerDb;
use crate::syntax::{
    def_name, defs_of_items, item_paths, items_paths, items_seq, share_arc,
    lemma_defs_of_items_take_le, lemma_defs_of_items_take_step, lemma_group_paths_take_step,
    lemma_items_paths_take_step, group_paths, tree_paths, FileId, Item, Module, PathText, Symbol,
    UseTree,
};

verus! {

broadcast use vstd::std_specs::hash::group_hash_axioms;

/// The kind tag of a registered top-level item.
#[derive(Debug, Clone, Copy, PartialEq, Eq, Structural, Hash)]
pub enum ItemKind {
    Function,
    Struct,
}

/// The kind under which a definition is registered. Import
/// declarations are never registered, so their kind is immaterial.
pub open spec fn def_kind(it: Item) -> ItemKind {
    match it {
        Item::Struct(_) => ItemKind::Struct,
        _ => ItemKind::Function,
    }
}

/// Identifies one registered definition. Identifiers are allocated
/// sequentially from zero within one resolution run and never reused.
#[derive(Debug, Clone, Copy, PartialEq, Eq, Structural, Hash)]
pub struct DefId(pub u32);

/// One record of the definition registry: the identifier, the interned
/// name, the kind, and a shared read-only handle to the syntax node.
#[derive(Debug, Clone)]
pub struct ItemDef {
    pub def_id: DefId,
    pub name: Symbol,
    pub kind: ItemKind,
    pub ast_node: Arc<Item>,
}

/// The definition registry: every top-level definition of the whole
/// program, keyed by the numeric value of its definition identifier.
#[derive(Debug)]
pub struct DefMap {
    pub items: HashMap<u32, ItemDef>,
}

impl View for DefMap {
    type V = Map<u32, ItemDef>;

    open spec fn view(&self) -> Map<u32, ItemDef> {
        self.items@
    }
}

impl DefMap {
    /// An empty registry.
    pub fn new() -> (r: Self)
        ensures
            r@ == Map::<u32, ItemDef>::empty(),
    {
        DefMap { items: HashMap::new() }
    }
}

/// Issues definition identifiers: a strictly increasing sequence
/// starting at zero, one allocator per resolution run.
#[derive(Debug)]
pub struct DefIdAllocator {
    counter: u32,
}

impl DefIdAllocator {
    /// How many identifiers this allocator has issued.
    pub closed spec fn issued(&self) -> nat {
        self.counter as nat
    }

    /// A fresh allocator that will issue identifiers from zero.
    pub fn new() -> (r: Self)
        ensures
            r.issued() == 0,
    {
        DefIdAllocator { counter: 0 }
    }

    /// Issues the next identifier: the count of identifiers issued
    /// before it.
    pub fn new_def_id(&mut self) -> (r: DefId)
        requires
            old(self).issued() < u32::MAX,
        ensures
            r == DefId(old(self).issued() as u32),
            final(self).issued() == old(self).issued() + 1,
    {
        let id = self.counter;
        self.counter += 1;
        DefId(id)
    }
}

/// The files that a list of import paths resolves to from a given
/// anchor, in order, with unresolvable paths silently dropped.
pub open spec fn resolved_files<DB: AnalyzerDb>(
    db: &DB,
    anchor: FileId,
    paths: Seq<PathText>,
) -> Seq<FileId>
    decreases paths.len(),
{
    if paths.len() == 0 {
        seq![]
    } else {
        resolved_files(db, anchor, paths.drop_last()) + (match db.resolve_of(
            anchor,
            paths.last(),
        ) {
            Some(g) => seq![g],
            None => Seq::empty(),
        })
    }
}

/// The direct successors of a file in the import graph: what its
/// import declarations resolve to, anchored at the file itself.
pub open spec fn successors<DB: AnalyzerDb>(db: &DB, f: FileId) -> Seq<FileId> {
    resolved_files(db, f, items_paths(items_seq(db.ast_of(f))))
}

/// One edge of the import graph.
pub open spec fn imports<DB: AnalyzerDb>(db: &DB, f: FileId, g: FileId) -> bool {
    successors(db, f).contains(g)
}

/// A chain of exactly `n` import edges leads from the entry file to
/// `g`.
pub open spec fn reaches_in<DB: AnalyzerDb>(db: &DB, entry: FileId, g: FileId, n: nat) -> bool
    decreases n,
{
    if n == 0 {
        g == entry
    } else {
        exists|f: FileId| reaches_in(db, entry, f, (n - 1) as nat) && #[trigger] imports(db, f, g)
    }
}

/// A file is reachable when some chain of imports leads to it from
/// the entry file.
pub open spec fn reachable<DB: AnalyzerDb>(db: &DB, entry: FileId, g: FileId) -> bool {
    exists|n: nat| reaches_in(db, entry, g, n)
}

/// One registry entry records one definition: an identifier equal to
/// the definition's position in the program-wide order, the interned
/// name, the kind, and the definition's own syntax node.
pub open spec fn entry_matches<DB: AnalyzerDb>(db: &DB, e: ItemDef, idx: int, it: Item) -> bool {
    &&& e.def_id == DefId(idx as u32)
    &&& e.name == db.intern_of(def_name(it))
    &&& e.kind == def_kind(it)
    &&& *e.ast_node == it
}

/// All definitions of a sequence of files, concatenated in file
/// order.
pub open spec fn defs_of_files<DB: AnalyzerDb>(db: &DB, order: Seq<FileId>) -> Seq<Item>
    decreases order.len(),
{
    if order.len() == 0 {
        seq![]
    } else {
        defs_of_files(db, order.drop_last()) + defs_of_items(items_seq(db.ast_of(order.last())))
    }
}

/// The registry lists exactly the definitions of the given files, in
/// file order, under consecutive identifiers from zero.
pub open spec fn registry_matches<DB: AnalyzerDb>(
    db: &DB,
    order: Seq<FileId>,
    m: Map<u32, ItemDef>,
) -> bool {
    &&& forall|k: u32| #[trigger] m.contains_key(k) <==> (k as int) < defs_of_files(db, order).len()
    &&& forall|i: int|
        #![trigger defs_of_files(db, order)[i]]
        0 <= i < defs_of_files(db, order).len() ==> entry_matches(
            db,
            m[i as u32],
            i,
            defs_of_files(db, order)[i],
        )
}

/// A complete visit order for one run: each reachable file appears
/// exactly once, and nothing else appears.
pub open spec fn is_visit_order<DB: AnalyzerDb>(db: &DB, entry: FileId, order: Seq<FileId>) -> bool {
    &&& order.no_duplicates()
    &&& forall|g: FileId| #[trigger] order.contains(g) <==> reachable(db, entry, g)
}

/// The full correctness statement of one resolution run: the registry
/// is the definitions of the reachable files, each file contributing
/// exactly once, identifiers consecutive from zero.
pub open spec fn registry_complete<DB: AnalyzerDb>(
    db: &DB,
    entry: FileId,
    m: Map<u32, ItemDef>,
) -> bool {
    exists|order: Seq<FileId>|
        #[trigger] is_visit_order(db, entry, order) && registry_matches(db, order, m)
}

/// A machine limit: along any possible visit order, the known files
/// hold few enough definitions for 32-bit identifiers.
pub open spec fn bounded_defs<DB: AnalyzerDb>(db: &DB) -> bool {
    forall|order: Seq<FileId>|
        (order.no_duplicates() && (forall|i: int|
            0 <= i < order.len() ==> db.file_universe().contains(#[trigger] order[i])))
            ==> #[trigger] defs_of_files(db, order).len() <= u32::MAX
}

/// Resolved files distribute over concatenation of path lists.
pub proof fn lemma_resolved_files_concat<DB: AnalyzerDb>(
    db: &DB,
    anchor: FileId,
    p: Seq<PathText>,
    q: Seq<PathText>,
)
    ensures
        resolved_files(db, anchor, p + q) == resolved_files(db, anchor, p) + resolved_files(
            db,
            anchor,
            q,
        ),
    decreases q.len(),
{
    if q.len() == 0 {
        assert(p + q =~= p);
        assert(resolved_files(db, anchor, p) + resolved_files(db, anchor, q) =~= resolved_files(
            db,
            anchor,
            p,
        ));
    } else {
        lemma_resolved_files_concat(db, anchor, p, q.drop_last());
        assert((p + q).drop_last() =~= p + q.drop_last());
        assert((p + q).last() == q.last());
        assert(resolved_files(db, anchor, p) + resolved_files(db, anchor, q.drop_last()) + (match db
            .resolve_of(anchor, q.last()) {
            Some(g) => seq![g],
            None => Seq::empty(),
        }) =~= resolved_files(db, anchor, p) + resolved_files(db, anchor, q));
    }
}

/// Every file in a resolved-file list came from resolving one of the
/// paths.
pub proof fn lemma_resolved_files_from<DB: AnalyzerDb>(
    db: &DB,
    anchor: FileId,
    paths: Seq<PathText>,
    i: int,
)
    requires
        0 <= i < resolved_files(db, anchor, paths).len(),
    ensures
        exists|j: int|
            0 <= j < paths.len() && db.resolve_of(anchor, #[trigger] paths[j]) == Some(
                resolved_files(db, anchor, paths)[i],
            ),
    decreases paths.len(),
{
    let r = resolved_files(db, anchor, paths);
    let r0 = resolved_files(db, anchor, paths.drop_last());
    if i < r0.len() {
        lemma_resolved_files_from(db, anchor, paths.drop_last(), i);
        let j = choose|j: int|
            0 <= j < paths.drop_last().len() && db.resolve_of(
                anchor,
                #[trigger] paths.drop_last()[j],
            ) == Some(r0[i]);
        assert(paths[j] == paths.drop_last()[j]);
        assert(db.resolve_of(anchor, paths[j]) == Some(r[i]));
    } else {
        let j = paths.len() - 1;
        assert(paths[j] == paths.last());
        assert(db.resolve_of(anchor, paths[j]) == Some(r[i]));
    }
}

/// A set that contains the entry file and is closed under import
/// edges contains every reachable file.
pub proof fn lemma_closed_contains_reachable<DB: AnalyzerDb>(
    db: &DB,
    entry: FileId,
    s: Set<FileId>,
    g: FileId,
    n: nat,
)
    requires
        s.contains(entry),
        forall|f: FileId, h: FileId|
            s.contains(f) && #[trigger] imports(db, f, h) ==> s.contains(h),
        reaches_in(db, entry, g, n),
    ensures
        s.contains(g),
    decreases n,
{
    if n > 0 {
        let f = choose|f: FileId|
            reaches_in(db, entry, f, (n - 1) as nat) && #[trigger] imports(db, f, g);
        lemma_closed_contains_reachable(db, entry, s, f, (n - 1) as nat);
    }
}

/// Every reachable file lies in the boundary's file universe,
/// provided the entry file does.
pub proof fn lemma_reachable_in_universe<DB: AnalyzerDb>(
    db: &DB,
    entry: FileId,
    g: FileId,
    n: nat,
)
    requires
        db.file_universe().contains(entry),
        reaches_in(db, entry, g, n),
    ensures
        db.file_universe().contains(g),
    decreases n,
{
    if n > 0 {
        let f = choose|f: FileId|
            reaches_in(db, entry, f, (n - 1) as nat) && #[trigger] imports(db, f, g);
        lemma_reachable_in_universe(db, entry, f, (n - 1) as nat);
        let succ = successors(db, f);
        let i = choose|i: int| 0 <= i < succ.len() && succ[i] == g;
        lemma_resolved_files_from(db, f, items_paths(items_seq(db.ast_of(f))), i);
        db.lemma_resolve_in_universe();
    }
}

/// The resolver: walks the module graph breadth-first from an entry
/// file and builds the definition registry. One resolver serves one
/// resolution run and is consumed by it.
pub struct Resolver<'db, DB: AnalyzerDb> {
    db: &'db DB,
    id_allocator: DefIdAllocator,
    def_map: DefMap,
}

impl<'db, DB: AnalyzerDb> Resolver<'db, DB> {
    /// The query boundary this resolver was constructed against.
    pub closed spec fn db_spec(&self) -> &'db DB {
        self.db
    }

    /// How many definition identifiers have been issued so far.
    pub closed spec fn issued(&self) -> nat {
        self.id_allocator.issued()
    }

    /// The registry built so far.
    pub closed spec fn registry(&self) -> Map<u32, ItemDef> {
        self.def_map@
    }

    /// The registry holds exactly the identifiers issued so far.
    pub open spec fn wf(&self) -> bool {
        forall|k: u32| #[trigger] self.registry().contains_key(k) <==> (k as nat) < self.issued()
    }

    /// A fresh resolver against a query boundary: nothing issued,
    /// nothing registered.
    pub fn new(db: &'db DB) -> (r: Self)
        ensures
            r.db_spec() == db,
            r.issued() == 0,
            r.registry() == Map::<u32, ItemDef>::empty(),
            r.wf(),
    {
        Resolver { db, id_allocator: DefIdAllocator::new(), def_map: DefMap::new() }
    }

    /// The entry point of definition collection: drives a
    /// breadth-first traversal of the module graph from the entry
    /// file, scanning each reachable file exactly once, and returns
    /// the completed registry. Import cycles terminate because every
    /// file is visited at most once; unresolvable imports and
    /// wildcards prune silently and never fail the run.
    pub fn collect_defs_crate(self, entry_file: FileId) -> (def_map: DefMap)
        requires
            self.db_spec().file_universe().contains(entry_file),
            self.issued() == 0,
            self.registry() == Map::<u32, ItemDef>::empty(),
            bounded_defs(self.db_spec()),
        ensures
            registry_complete(self.db_spec(), entry_file, def_map@),
    {
        let mut this = self;
        let db = this.db;
        let ghost uni = db.file_universe();
        let mut worklist: VecDeque<FileId> = VecDeque::new();
        let mut visited: HashSet<FileId> = HashSet::new();
        let ghost mut order = Seq::<FileId>::empty();

        worklist.push_back(entry_file);
        proof {
            db.lemma_file_universe_finite();
            assert(reaches_in(db, entry_file, entry_file, 0));
            assert(defs_of_files(db, order) == Seq::<Item>::empty());
            assert(worklist@ =~= seq![entry_file]);
            assert(worklist@[0] == entry_file);
        }

        while worklist.len() != 0
            invariant
                this.db == db,
                this.wf(),
                uni == db.file_universe(),
                uni.finite(),
                bounded_defs(db),
                uni.contains(entry_file),
                order.no_duplicates(),
                forall|g: FileId| #[trigger] visited@.contains(g) <==> order.contains(g),
                this.issued() == defs_of_files(db, order).len(),
                registry_matches(db, order, this.registry()),
                forall|g: FileId|
                    #[trigger] visited@.contains(g) ==> reachable(db, entry_file, g),
                forall|i: int|
                    0 <= i < worklist@.len() ==> reachable(
                        db,
                        entry_file,
                        #[trigger] worklist@[i],
                    ),
                forall|g: FileId| #[trigger] visited@.contains(g) ==> uni.contains(g),
                forall|i: int| 0 <= i < worklist@.len() ==> uni.contains(#[trigger] worklist@[i]),
                forall|x: FileId, g: FileId|
                    visited@.contains(x) && #[trigger] imports(db, x, g) ==> visited@.contains(g)
                        || worklist@.contains(g),
                visited@.contains(entry_file) || worklist@.contains(entry_file),
            decreases uni.difference(visited@).len(), worklist@.len(),
        {
            let ghost wl0 = worklist@;
            let ghost v0 = visited@;
            let file_id = worklist.pop_front().unwrap();
            proof {
                assert(file_id == wl0[0]);
                assert(uni.contains(file_id));
                assert(reachable(db, entry_file, file_id));
            }
            let is_new = visited.insert(file_id);
            if is_new {
                proof {
                    db.lemma_resolve_in_universe();
                    assert(!v0.contains(file_id));
                    uni.lemma_set_insert_diff_decreases(v0, file_id);
                }
                let ast = db.ast(file_id);
                let module_ref: &Module = &*ast;
                let ghost mspec = *module_ref;
                let ghost order1 = order.push(file_id);
                let ghost d0 = defs_of_files(db, order);
                let ghost dm = defs_of_items(items_seq(mspec));
                proof {
                    // The new visit order is still duplicate-free and
                    // stays inside the universe.
                    assert forall|a: int, b: int|
                        0 <= a < order1.len() && 0 <= b < order1.len() && a != b implies order1[a]
                        != order1[b] by {
                        if b == order1.len() - 1 {
                            assert(order.contains(order1[a])) by {
                                assert(order[a] == order1[a]);
                            }
                        } else if a == order1.len() - 1 {
                            assert(order.contains(order1[b])) by {
                                assert(order[b] == order1[b]);
                            }
                        }
                    }
                    assert(order1.no_duplicates());
                    assert forall|i: int| 0 <= i < order1.len() implies uni.contains(
                        #[trigger] order1[i],
                    ) by {
                        if i < order.len() {
                            assert(order.contains(order1[i]));
                            assert(visited@.contains(order1[i]));
                        }
                    }
                    // Instantiate the identifier-width bound at the
                    // extended order.
                    assert(defs_of_files(db, order1).len() <= u32::MAX);
                    assert(order1.drop_last() =~= order);
                    assert(order1.last() == file_id);
                    assert(mspec == db.ast_of(file_id));
                    assert(defs_of_files(db, order1) == d0 + dm);
                }
                this.collect_defs_in_module(module_ref);
                proof {
                    order = order1;
                    let d1 = defs_of_files(db, order);
                    assert(d1 == d0 + dm);
                    assert(this.issued() == d1.len());
                    assert forall|i: int|
                        #![trigger d1[i]]
                        0 <= i < d1.len() implies entry_matches(
                        db,
                        this.registry()[i as u32],
                        i,
                        d1[i],
                    ) by {
                        if i < d0.len() {
                            assert(d1[i] == d0[i]);
                            assert(entry_matches(db, this.registry()[i as u32], i, d0[i]));
                        } else {
                            let j = i - d0.len();
                            assert(d1[i] == dm[j]);
                            assert(entry_matches(
                                db,
                                this.registry()[(d0.len() + j) as u32],
                                d0.len() + j,
                                dm[j],
                            ));
                        }
                    }
                    assert(registry_matches(db, order, this.registry()));
                }
                let ghost wl1 = worklist@;
                let n = module_ref.items.len();
                let mut i: usize = 0;
                proof {
                    assert(items_seq(mspec).take(0) =~= Seq::<Item>::empty());
                }
                while i < n
                    invariant
                        this.db == db,
                        mspec == *module_ref,
                        n == module_ref.items.len(),
                        items_seq(mspec).len() == n,
                        i <= n,
                        worklist@ == wl1 + resolved_files(
                            db,
                            file_id,
                            items_paths(items_seq(mspec).take(i as int)),
                        ),
                    decreases n - i,
                {
                    proof {
                        assert(items_seq(mspec)[i as int] == *module_ref.items@[i as int]);
                        lemma_items_paths_take_step(items_seq(mspec), i as int);
                    }
                    match &*module_ref.items[i] {
                        Item::Use(use_stmt) => {
                            this.discover_deps_in_tree(file_id, &use_stmt.tree, &mut worklist);
                            proof {
                                assert(item_paths(items_seq(mspec)[i as int]) == tree_paths(
                                    use_stmt.tree,
                                ));
                                lemma_resolved_files_concat(
                                    db,
                                    file_id,
                                    items_paths(items_seq(mspec).take(i as int)),
                                    tree_paths(use_stmt.tree),
                                );
                                assert(wl1 + resolved_files(
                                    db,
                                    file_id,
                                    items_paths(items_seq(mspec).take(i as int)),
                                ) + resolved_files(db, file_id, tree_paths(use_stmt.tree))
                                    =~= wl1 + resolved_files(
                                    db,
                                    file_id,
                                    items_paths(items_seq(mspec).take(i as int + 1)),
                                ));
                            }
                        },
                        _ => {
                            proof {
                                assert(item_paths(items_seq(mspec)[i as int])
                                    == Seq::<PathText>::empty());
                                assert(items_paths(items_seq(mspec).take(i as int + 1))
                                    =~= items_paths(items_seq(mspec).take(i as int)));
                            }
                        },
                    }
                    i += 1;
                }
                proof {
                    db.lemma_resolve_in_universe();
                    assert(items_seq(mspec).take(n as int) =~= items_seq(mspec));
                    let succ = successors(db, file_id);
                    assert(worklist@ == wl1 + succ);
                    assert(wl1 =~= wl0.subrange(1, wl0.len() as int));
                    // Every new queue entry is a resolved import of
                    // the file just visited: reachable, and in the
                    // universe.
                    assert forall|idx: int| 0 <= idx < worklist@.len() implies reachable(
                        db,
                        entry_file,
                        #[trigger] worklist@[idx],
                    ) && uni.contains(worklist@[idx]) by {
                        if idx < wl1.len() {
                            assert(worklist@[idx] == wl0[idx + 1]);
                        } else {
                            let g = worklist@[idx];
                            let k = idx - wl1.len();
                            assert(succ[k] == g);
                            assert(imports(db, file_id, g));
                            lemma_resolved_files_from(
                                db,
                                file_id,
                                items_paths(items_seq(db.ast_of(file_id))),
                                k,
                            );
                            let n0 = choose|n0: nat| reaches_in(db, entry_file, file_id, n0);
                            assert(reaches_in(db, entry_file, g, n0 + 1));
                        }
                    }
                    // The closure invariant: the new file's imports
                    // were all enqueued; everything older keeps its
                    // witness.
                    assert forall|x: FileId, g: FileId|
                        visited@.contains(x) && #[trigger] imports(db, x, g) implies visited@
                        .contains(g) || worklist@.contains(g) by {
                        if x == file_id {
                            let k = choose|k: int| 0 <= k < succ.len() && succ[k] == g;
                            assert(worklist@[wl1.len() + k] == g);
                        } else {
                            assert(v0.contains(x));
                            if !v0.contains(g) && wl0.contains(g) {
                                let j = choose|j: int| 0 <= j < wl0.len() && wl0[j] == g;
                                if j == 0 {
                                    assert(g == file_id);
                                } else {
                                    assert(worklist@[j - 1] == g);
                                }
                            }
                        }
                    }
                    // The entry file stays accounted for.
                    if !visited@.contains(entry_file) {
                        assert(wl0.contains(entry_file));
                        let j = choose|j: int| 0 <= j < wl0.len() && wl0[j] == entry_file;
                        assert(j != 0);
                        assert(worklist@[j - 1] == entry_file);
                    }
                    // The visited set and the visit order list the
                    // same files.
                    assert forall|g: FileId| #[trigger] visited@.contains(g) implies order.contains(
                        g,
                    ) by {
                        if g == file_id {
                            assert(order[order.len() - 1] == g);
                        } else {
                            let j = choose|j: int| 0 <= j < order1.drop_last().len()
                                && order1.drop_last()[j] == g;
                            assert(order[j] == g);
                        }
                    }
                    assert forall|g: FileId| #[trigger] order.contains(g) implies visited@.contains(
                        g,
                    ) by {
                        let j = choose|j: int| 0 <= j < order.len() && order[j] == g;
                        if j < order.len() - 1 {
                            assert(order1.drop_last()[j] == g);
                        }
                    }
                }
            } else {
                proof {
                    assert(v0.contains(file_id));
                    assert(visited@ =~= v0);
                    assert(worklist@ =~= wl0.subrange(1, wl0.len() as int));
                    assert forall|x: FileId, g: FileId|
                        visited@.contains(x) && #[trigger] imports(db, x, g) implies visited@
                        .contains(g) || worklist@.contains(g) by {
                        if !visited@.contains(g) && wl0.contains(g) {
                            let j = choose|j: int| 0 <= j < wl0.len() && wl0[j] == g;
                            if j == 0 {
                                assert(visited@.contains(g));
                            } else {
                                assert(worklist@[j - 1] == g);
                            }
                        }
                    }
                    if !visited@.contains(entry_file) {
                        let j = choose|j: int| 0 <= j < wl0.len() && wl0[j] == entry_file;
                        assert(j != 0);
                        assert(worklist@[j - 1] == entry_file);
                    }
                    assert forall|idx: int| 0 <= idx < worklist@.len() implies reachable(
                        db,
                        entry_file,
                        #[trigger] worklist@[idx],
                    ) && uni.contains(worklist@[idx]) by {
                        assert(worklist@[idx] == wl0[idx + 1]);
                    }
                }
            }
        }
        proof {
            assert(worklist@.len() == 0);
            assert(visited@.contains(entry_file));
            assert forall|g: FileId| reachable(db, entry_file, g) implies visited@.contains(
                g,
            ) by {
                let n0 = choose|n0: nat| reaches_in(db, entry_file, g, n0);
                assert forall|x: FileId, h: FileId|
                    visited@.contains(x) && #[trigger] imports(db, x, h) implies visited@.contains(
                    h,
                ) by {
                    assert(!worklist@.contains(h));
                }
                lemma_closed_contains_reachable(db, entry_file, visited@, g, n0);
            }
            assert forall|g: FileId| #[trigger] order.contains(g) <==> reachable(
                db,
                entry_file,
                g,
            ) by {
                if order.contains(g) {
                    assert(visited@.contains(g));
                    assert(reachable(db, entry_file, g));
                }
                if reachable(db, entry_file, g) {
                    assert(visited@.contains(g));
                    assert(order.contains(g));
                }
            }
            assert(is_visit_order(db, entry_file, order));
            assert(registry_complete(db, entry_file, this.registry()));
        }
        this.def_map
    }

    /// Scans one module and registers each of its definitions, in
    /// source order, under the next identifiers.
    fn collect_defs_in_module(&mut self, module_ast: &Module)
        requires
            old(self).wf(),
            old(self).issued() + defs_of_items(items_seq(*module_ast)).len() <= u32::MAX,
        ensures
            final(self).wf(),
            final(self).db == old(self).db,
            final(self).issued() == old(self).issued() + defs_of_items(
                items_seq(*module_ast),
            ).len(),
            forall|k: u32|
                (k as nat) < old(self).issued() ==> final(self).registry()[k] == #[trigger] old(
                    self,
                ).registry()[k],
            forall|j: int|
                #![trigger defs_of_items(items_seq(*module_ast))[j]]
                0 <= j < defs_of_items(items_seq(*module_ast)).len() ==> entry_matches(
                    old(self).db,
                    final(self).registry()[(old(self).issued() + j) as u32],
                    old(self).issued() + j,
                    defs_of_items(items_seq(*module_ast))[j],
                ),
    {
        let ghost its = items_seq(*module_ast);
        let ghost old_issued = old(self).issued();
        let n = module_ast.items.len();
        let mut i: usize = 0;
        while i < n
            invariant
                n == module_ast.items.len(),
                its == items_seq(*module_ast),
                its.len() == n,
                i <= n,
                self.db == old(self).db,
                self.wf(),
                old_issued == old(self).issued(),
                old_issued + defs_of_items(its).len() <= u32::MAX,
                self.issued() == old_issued + defs_of_items(its.take(i as int)).len(),
                forall|k: u32|
                    (k as nat) < old_issued ==> self.registry()[k] == #[trigger] old(
                        self,
                    ).registry()[k],
                forall|j: int|
                    #![trigger defs_of_items(its.take(i as int))[j]]
                    0 <= j < defs_of_items(its.take(i as int)).len() ==> entry_matches(
                        self.db,
                        self.registry()[(old_issued + j) as u32],
                        old_issued + j,
                        defs_of_items(its.take(i as int))[j],
                    ),
            decreases n - i,
        {
            proof {
                lemma_defs_of_items_take_step(its, i as int);
                lemma_defs_of_items_take_le(its, i as int + 1);
                assert(its[i as int] == *module_ast.items@[i as int]);
            }
            let ghost pre = defs_of_items(its.take(i as int)).len();
            let ghost m0 = self.registry();
            proof {
                assert(forall|k: u32| #[trigger] m0.contains_key(k) <==> (k as nat) < old_issued
                    + pre);
            }
            match &*module_ast.items[i] {
                Item::Function(func_def) => {
                    let def_id = self.id_allocator.new_def_id();
                    let name_symbol = self.db.intern_string(func_def.name.as_str());
                    let item_def = ItemDef {
                        def_id,
                        name: name_symbol,
                        kind: ItemKind::Function,
                        ast_node: share_arc(&module_ast.items[i]),
                    };
                    self.def_map.items.insert(def_id.0, item_def);
                    proof {
                        assert(self.registry() == m0.insert(def_id.0, item_def));
                        assert((def_id.0 as nat) == old_issued + pre);
                        assert forall|k: u32| #[trigger] self.registry().contains_key(k) implies (
                        k as nat) < self.issued() by {
                            if k != def_id.0 {
                                assert(m0.contains_key(k));
                            }
                        }
                        assert forall|k: u32| (k as nat) < self.issued() implies #[trigger] self
                            .registry().contains_key(k) by {
                            if k != def_id.0 {
                                assert(m0.contains_key(k));
                            }
                        }
                    }
                },
                Item::Struct(struct_def) => {
                    let def_id = self.id_allocator.new_def_id();
                    let name_symbol = self.db.intern_string(struct_def.name.as_str());
                    let item_def = ItemDef {
                        def_id,
                        name: name_symbol,
                        kind: ItemKind::Struct,
                        ast_node: share_arc(&module_ast.items[i]),
                    };
                    self.def_map.items.insert(def_id.0, item_def);
                },
                Item::Use(_) => {},
            }
            i += 1;
        }
        proof {
            assert(its.take(n as int) =~= its);
        }
    }

    /// Walks one import tree and enqueues, in order, every file that
    /// one of its paths resolves to. Wildcards enqueue nothing;
    /// unresolvable paths are dropped.
    fn discover_deps_in_tree(
        &self,
        anchor_file: FileId,
        tree: &UseTree,
        worklist: &mut VecDeque<FileId>,
    )
        ensures
            final(worklist)@ == old(worklist)@ + resolved_files(
                self.db,
                anchor_file,
                tree_paths(*tree),
            ),
        decreases *tree,
    {
        match tree {
            UseTree::Simple { path } => {
                if let Some(resolved_file_id) = self.db.resolve_module(anchor_file, path) {
                    worklist.push_back(resolved_file_id);
                }
                proof {
                    assert(seq![path@].drop_last() =~= Seq::<PathText>::empty());
                    assert(resolved_files(self.db, anchor_file, Seq::<PathText>::empty())
                        == Seq::<FileId>::empty());
                    assert(worklist@ =~= old(worklist)@ + resolved_files(
                        self.db,
                        anchor_file,
                        tree_paths(*tree),
                    ));
                }
            },
            UseTree::Group { items } => {
                let n = items.len();
                let mut i: usize = 0;
                proof {
                    assert(items@.take(0) =~= Seq::<UseTree>::empty());
                }
                while i < n
                    invariant
                        n == items.len(),
                        i <= n,
                        *tree == (UseTree::Group { items: *items }),
                        worklist@ == old(worklist)@ + resolved_files(
                            self.db,
                            anchor_file,
                            group_paths(items@.take(i as int)),
                        ),
                    decreases n - i,
                {
                    proof {
                        assert(decreases_to!(*tree => (*tree)->Group_items));
                        assert((*tree)->Group_items == *items);
                        assert(decreases_to!(*items => (*items)[i as int]));
                    }
                    self.discover_deps_in_tree(anchor_file, &items[i], worklist);
                    proof {
                        lemma_group_paths_take_step(items@, i as int);
                        lemma_resolved_files_concat(
                            self.db,
                            anchor_file,
                            group_paths(items@.take(i as int)),
                            tree_paths(items@[i as int]),
                        );
                        assert(old(worklist)@ + resolved_files(
                            self.db,
                            anchor_file,
                            group_paths(items@.take(i as int)),
                        ) + resolved_files(
                            self.db,
                            anchor_file,
                            tree_paths(items@[i as int]),
                        ) =~= old(worklist)@ + resolved_files(
                            self.db,
                            anchor_file,
                            group_paths(items@.take(i as int + 1)),
                        ));
                    }
                    i += 1;
                }
                proof {
                    assert(items@.take(n as int) =~= items@);
                }
            },
            UseTree::Wildcard => {
                proof {
                    assert(tree_paths(*tree) == Seq::<PathText>::empty());
                    assert(worklist@ =~= old(worklist)@ + resolved_files(
                        self.db,
                        anchor_file,
                        tree_paths(*tree),
                    ));
                }
            },
        }
    }
}

} // verus!
