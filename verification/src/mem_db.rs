//! An in-memory query boundary: modules are handed in already parsed
//! and registered under a path key; identifier text interns to the
//! position of its first occurrence in a name table that is seeded
//! with every definition name as files are added. Any boundary
//! meeting the `AnalyzerDb` contracts would do; this one exists so
//! that a whole resolution run can be driven without a parser or a
//! file system.

use std::sync::Arc;
use vstd::prelude::*;
use vstd::set_lib::lemma_len_subset;
use vstd::string::StringExecFns;

use crate::db::AnalyzerDb;
use crate::syntax::{
    def_name, defs_of_items, items_seq, lemma_defs_of_items_take_step, share_arc, FileId, Item,
    Module, Path, PathText, Symbol,
};

verus! {

/// The first position at which a table of strings holds the given
/// text, or the table's length when the text is absent.
pub open spec fn find_text(table: Seq<String>, text: Seq<char>) -> int
    decreases table.len(),
{
    if table.len() == 0 {
        0
    } else if table[0]@ == text {
        0
    } else {
        1 + find_text(table.drop_first(), text)
    }
}

/// Whether a table of strings holds the given text at all.
pub open spec fn text_present(table: Seq<String>, text: Seq<char>) -> bool {
    find_text(table, text) < table.len()
}

/// What `find_text` finds: a position within bounds, the text itself
/// when present, and never an earlier occurrence.
pub proof fn lemma_find_text(table: Seq<String>, text: Seq<char>)
    ensures
        0 <= find_text(table, text) <= table.len(),
        find_text(table, text) < table.len() ==> table[find_text(table, text)]@ == text,
        forall|j: int| 0 <= j < find_text(table, text) ==> (#[trigger] table[j])@ != text,
    decreases table.len(),
{
    if table.len() > 0 && table[0]@ != text {
        lemma_find_text(table.drop_first(), text);
        assert forall|j: int| 0 <= j < find_text(table, text) implies (#[trigger] table[j])@
            != text by {
            if j > 0 {
                assert(table.drop_first()[j - 1] == table[j]);
            }
        }
        assert(find_text(table, text) < table.len() ==> table[find_text(table, text)]@ == text)
            by {
            if find_text(table, text) < table.len() {
                assert(table.drop_first()[find_text(table.drop_first(), text)] == table[find_text(
                    table,
                    text,
                )]);
            }
        }
    }
}

/// Text present in a table stays present in any extension of it.
pub proof fn lemma_present_prefix(a: Seq<String>, b: Seq<String>, text: Seq<char>)
    requires
        a.is_prefix_of(b),
        text_present(a, text),
    ensures
        text_present(b, text),
{
    lemma_find_text(a, text);
    lemma_find_text(b, text);
    let fa = find_text(a, text);
    assert(b[fa] == a[fa]);
    if find_text(b, text) >= b.len() {
        assert(b[fa]@ != text);
    }
}

/// The registered path keys of the stored files, in file order.
pub open spec fn keys_of(files: Seq<(String, Arc<Module>)>) -> Seq<String> {
    files.map_values(|e: (String, Arc<Module>)| e.0)
}

/// One import path joined into a single lookup key: its segments
/// separated by `/`.
pub open spec fn joined_path(p: PathText) -> Seq<char>
    decreases p.len(),
{
    if p.len() == 0 {
        Seq::empty()
    } else if p.len() == 1 {
        p[0]
    } else {
        joined_path(p.drop_last()) + "/"@ + p.last()
    }
}

/// The key a path is looked up under: the joined segments with the
/// source-file suffix appended.
pub open spec fn path_key(p: PathText) -> Seq<char> {
    joined_path(p) + ".ny"@
}

/// Whether every definition name of a module is present in a table.
pub open spec fn module_covered(m: Module, table: Seq<String>) -> bool {
    forall|j: int|
        0 <= j < defs_of_items(items_seq(m)).len() ==> text_present(
            table,
            def_name(#[trigger] defs_of_items(items_seq(m))[j]),
        )
}

/// An in-memory query boundary. Files are identified by their
/// position in the stored list; the name table interns by first
/// occurrence.
pub struct MemoryDb {
    files: Vec<(String, Arc<Module>)>,
    names: Vec<String>,
}

impl MemoryDb {
    /// Every in-memory boundary keeps its name table narrow enough
    /// for 32-bit symbols, free of repeated text, and covering every
    /// definition name of every stored module.
    #[verifier::type_invariant]
    spec fn inv(&self) -> bool {
        &&& self.names@.len() <= u32::MAX
        &&& forall|a: int, b: int|
            0 <= a < self.names@.len() && 0 <= b < self.names@.len() && a != b ==> (
            #[trigger] self.names@[a])@ != (#[trigger] self.names@[b])@
        &&& forall|i: int|
            0 <= i < self.files@.len() ==> module_covered(
                *(#[trigger] self.files@[i]).1,
                self.names@,
            )
    }

    /// How many distinct names have been interned so far.
    pub closed spec fn interned_count(&self) -> nat {
        self.names@.len()
    }

    /// An empty boundary: no files, no names.
    pub fn new() -> (r: Self)
        ensures
            r.file_universe() == Set::<FileId>::empty(),
            r.interned_count() == 0,
    {
        let r = MemoryDb { files: Vec::new(), names: Vec::new() };
        proof {
            assert(r.file_universe() =~= Set::<FileId>::empty());
        }
        r
    }

    /// Stores one parsed module under a path key, interning every
    /// definition name it declares, and returns the module's fresh
    /// file identifier. Files stored earlier keep their identifiers
    /// and their trees.
    pub fn add_file(&mut self, path: &str, module: Module) -> (r: FileId)
        requires
            old(self).interned_count() + defs_of_items(items_seq(module)).len() <= u32::MAX,
        ensures
            final(self).file_universe().contains(r),
            final(self).ast_of(r) == module,
            forall|f: FileId|
                #[trigger] old(self).file_universe().contains(f)
                    ==> final(self).file_universe().contains(f) && final(self).ast_of(f) == old(
                    self,
                ).ast_of(f),
    {
        proof {
            use_type_invariant(&*self);
        }
        let ghost old_names = self.names@;
        let ghost old_files = self.files@;
        let mut fs: Vec<(String, Arc<Module>)> = Vec::new();
        std::mem::swap(&mut fs, &mut self.files);
        let mut ns: Vec<String> = Vec::new();
        std::mem::swap(&mut ns, &mut self.names);
        let ghost its = items_seq(module);
        let n = module.items.len();
        let mut i: usize = 0;
        proof {
            assert(its.take(0) =~= Seq::<Item>::empty());
        }
        while i < n
            invariant
                n == module.items@.len(),
                its == items_seq(module),
                its.len() == n,
                i <= n,
                old_names.is_prefix_of(ns@),
                ns@.len() <= old_names.len() + defs_of_items(its.take(i as int)).len(),
                old_names.len() + defs_of_items(its).len() <= u32::MAX,
                forall|a: int, b: int|
                    0 <= a < ns@.len() && 0 <= b < ns@.len() && a != b ==> (#[trigger] ns@[a])@
                        != (#[trigger] ns@[b])@,
                forall|j: int|
                    0 <= j < defs_of_items(its.take(i as int)).len() ==> text_present(
                        ns@,
                        def_name(#[trigger] defs_of_items(its.take(i as int))[j]),
                    ),
            decreases n - i,
        {
            let ghost ns0 = ns@;
            proof {
                lemma_defs_of_items_take_step(its, i as int);
                crate::syntax::lemma_defs_of_items_take_le(its, i as int + 1);
                assert(its[i as int] == *module.items@[i as int]);
            }
            match &*module.items[i] {
                Item::Function(func_def) => {
                    intern_into(&mut ns, func_def.name.as_str());
                },
                Item::Struct(struct_def) => {
                    intern_into(&mut ns, struct_def.name.as_str());
                },
                Item::Use(_) => {},
            }
            proof {
                assert forall|j: int|
                    0 <= j < defs_of_items(its.take(i as int + 1)).len() implies text_present(
                    ns@,
                    def_name(#[trigger] defs_of_items(its.take(i as int + 1))[j]),
                ) by {
                    if j < defs_of_items(its.take(i as int)).len() {
                        assert(defs_of_items(its.take(i as int + 1))[j] == defs_of_items(
                            its.take(i as int),
                        )[j]);
                        lemma_present_prefix(
                            ns0,
                            ns@,
                            def_name(defs_of_items(its.take(i as int))[j]),
                        );
                    } else {
                        assert(defs_of_items(its.take(i as int + 1))[j] == its[i as int]);
                    }
                }
            }
            i += 1;
        }
        proof {
            assert(its.take(n as int) =~= its);
        }
        let r = fs.len();
        fs.push((path.to_owned(), Arc::new(module)));
        proof {
            assert forall|k: int| 0 <= k < fs@.len() implies module_covered(
                *(#[trigger] fs@[k]).1,
                ns@,
            ) by {
                if k < old_files.len() {
                    assert(fs@[k] == old_files[k]);
                    assert(module_covered(*old_files[k].1, old_names));
                    assert forall|j: int|
                        0 <= j < defs_of_items(items_seq(*fs@[k].1)).len() implies text_present(
                        ns@,
                        def_name(#[trigger] defs_of_items(items_seq(*fs@[k].1))[j]),
                    ) by {
                        lemma_present_prefix(
                            old_names,
                            ns@,
                            def_name(defs_of_items(items_seq(*old_files[k].1))[j]),
                        );
                    }
                } else {
                    assert(*fs@[k].1 == module);
                }
            }
        }
        self.names = ns;
        self.files = fs;
        proof {
            assert(self.file_universe().contains(r));
            assert forall|f: FileId| #[trigger]
                old(self).file_universe().contains(f) implies self.file_universe().contains(f)
                && self.ast_of(f) == old(self).ast_of(f) by {
                assert(self.files@[f as int] == old_files[f as int]);
            }
        }
        r
    }

    /// Returns the text a symbol stands for, when this boundary's
    /// interner issued the symbol.
    pub fn lookup(&self, symbol: Symbol) -> (r: Option<&String>)
        ensures
            match r {
                Some(t) => self.intern_of(t@) == symbol,
                None => self.interned_count() <= symbol.0 as nat,
            },
    {
        proof {
            use_type_invariant(self);
        }
        let idx = symbol.0 as usize;
        if idx < self.names.len() {
            proof {
                lemma_find_text(self.names@, self.names@[idx as int]@);
                if find_text(self.names@, self.names@[idx as int]@) < idx as int {
                    assert((self.names@[find_text(self.names@, self.names@[idx as int]@)])@
                        != self.names@[idx as int]@);
                }
            }
            Some(&self.names[idx])
        } else {
            None
        }
    }
}

/// Appends the text to the table unless some entry already holds it;
/// either way the text is present afterwards and the table keeps its
/// shape: the old entries as a prefix, no text twice, at most one
/// entry more.
fn intern_into(table: &mut Vec<String>, text: &str)
    requires
        forall|a: int, b: int|
            0 <= a < old(table)@.len() && 0 <= b < old(table)@.len() && a != b ==> (#[trigger] old(
                table,
            )@[a])@ != (#[trigger] old(table)@[b])@,
    ensures
        old(table)@.is_prefix_of(final(table)@),
        final(table)@.len() <= old(table)@.len() + 1,
        text_present(final(table)@, text@),
        forall|a: int, b: int|
            0 <= a < final(table)@.len() && 0 <= b < final(table)@.len() && a != b ==> (
            #[trigger] final(table)@[a])@ != (#[trigger] final(table)@[b])@,
{
    let key = text.to_owned();
    let n = table.len();
    let mut j: usize = 0;
    while j < n
        invariant
            key@ == text@,
            n == table@.len(),
            j <= n,
            table@ == old(table)@,
            forall|a: int, b: int|
                0 <= a < table@.len() && 0 <= b < table@.len() && a != b ==> (
                #[trigger] table@[a])@ != (#[trigger] table@[b])@,
            forall|idx: int| 0 <= idx < j ==> (#[trigger] table@[idx])@ != text@,
        decreases n - j,
    {
        if *slice_index(table, j) == key {
            proof {
                lemma_find_text(table@, text@);
                assert(old(table)@.is_prefix_of(table@));
            }
            return ;
        }
        j += 1;
    }
    table.push(key);
    proof {
        lemma_find_text(table@, text@);
        if find_text(table@, text@) >= table@.len() {
            assert(table@[n as int]@ != text@);
        }
        assert(old(table)@.is_prefix_of(table@));
        assert forall|a: int, b: int|
            0 <= a < table@.len() && 0 <= b < table@.len() && a != b implies (
        #[trigger] table@[a])@ != (#[trigger] table@[b])@ by {
            if a < n && b < n {
                assert(old(table)@[a] == table@[a]);
                assert(old(table)@[b] == table@[b]);
            } else if a < n && b == n {
                assert(old(table)@[a] == table@[a]);
                assert(table@[b]@ == text@);
            } else if a == n && b < n {
                assert(old(table)@[b] == table@[b]);
                assert(table@[a]@ == text@);
            }
        }
    }
}

/// Reads one element of a vector of strings.
fn slice_index(table: &Vec<String>, j: usize) -> (r: &String)
    requires
        j < table@.len(),
    ensures
        *r == table@[j as int],
{
    &table[j]
}

impl AnalyzerDb for MemoryDb {
    closed spec fn file_universe(&self) -> Set<FileId> {
        Set::new(
            |f: FileId|
                f < self.files@.len() && self.names@.len() <= u32::MAX && module_covered(
                    *self.files@[f as int].1,
                    self.names@,
                ),
        )
    }

    closed spec fn ast_of(&self, file_id: FileId) -> Module {
        *self.files@[file_id as int].1
    }

    closed spec fn resolve_of(&self, anchor_file: FileId, path: PathText) -> Option<FileId> {
        let j = find_text(keys_of(self.files@), path_key(path));
        if self.file_universe().contains(j as usize) {
            Some(j as usize)
        } else {
            None
        }
    }

    closed spec fn intern_of(&self, text: Seq<char>) -> Symbol {
        Symbol(find_text(self.names@, text) as u32)
    }

    proof fn lemma_file_universe_finite(&self) {
        let below = Set::new(|f: FileId| f < self.files@.len());
        vstd::std_specs::vec::axiom_spec_len(&self.files);
        lemma_below_finite(self.files@.len() as nat);
        lemma_len_subset(self.file_universe(), below);
    }

    proof fn lemma_resolve_in_universe(&self) {
    }

    proof fn lemma_intern_injective(&self) {
        assert forall|a: Seq<char>, b: Seq<char>|
            #![trigger self.intern_of(a), self.intern_of(b)]
            (exists|f: FileId, j: int|
                #![trigger def_name(defs_of_items(items_seq(self.ast_of(f)))[j])]
                self.file_universe().contains(f) && 0 <= j < defs_of_items(
                    items_seq(self.ast_of(f)),
                ).len() && def_name(defs_of_items(items_seq(self.ast_of(f)))[j]) == a) && (
            exists|f: FileId, j: int|
                #![trigger def_name(defs_of_items(items_seq(self.ast_of(f)))[j])]
                self.file_universe().contains(f) && 0 <= j < defs_of_items(
                    items_seq(self.ast_of(f)),
                ).len() && def_name(defs_of_items(items_seq(self.ast_of(f)))[j]) == b)
            && self.intern_of(a) == self.intern_of(b) implies a == b by {
            let (f1, j1) = choose|f1: FileId, j1: int|
                #![trigger def_name(defs_of_items(items_seq(self.ast_of(f1)))[j1])]
                self.file_universe().contains(f1) && 0 <= j1 < defs_of_items(
                    items_seq(self.ast_of(f1)),
                ).len() && def_name(defs_of_items(items_seq(self.ast_of(f1)))[j1]) == a;
            let (f2, j2) = choose|f2: FileId, j2: int|
                #![trigger def_name(defs_of_items(items_seq(self.ast_of(f2)))[j2])]
                self.file_universe().contains(f2) && 0 <= j2 < defs_of_items(
                    items_seq(self.ast_of(f2)),
                ).len() && def_name(defs_of_items(items_seq(self.ast_of(f2)))[j2]) == b;
            assert(module_covered(*self.files@[f1 as int].1, self.names@));
            assert(module_covered(*self.files@[f2 as int].1, self.names@));
            assert(text_present(self.names@, a));
            assert(text_present(self.names@, b));
            lemma_find_text(self.names@, a);
            lemma_find_text(self.names@, b);
            let fa = find_text(self.names@, a);
            let fb = find_text(self.names@, b);
            assert(fa == fb);
            assert(self.names@[fa]@ == a);
            assert(self.names@[fb]@ == b);
        }
    }

    fn ast(&self, file_id: FileId) -> (r: Arc<Module>) {
        share_arc(&self.files[file_id].1)
    }

    fn resolve_module(&self, anchor_file: FileId, path: &Path) -> (r: Option<FileId>) {
        proof {
            use_type_invariant(self);
            lemma_find_text(keys_of(self.files@), path_key(path@));
        }
        let key = make_key(path);
        let n = self.files.len();
        let mut j: usize = 0;
        while j < n
            invariant
                n == self.files@.len(),
                j <= n,
                key@ == path_key(path@),
                forall|idx: int|
                    0 <= idx < j ==> (#[trigger] keys_of(self.files@)[idx])@ != key@,
            decreases n - j,
        {
            proof {
                assert(keys_of(self.files@)[j as int] == self.files@[j as int].0);
            }
            if self.files[j].0 == key {
                proof {
                    use_type_invariant(self);
                    lemma_find_text(keys_of(self.files@), path_key(path@));
                    if find_text(keys_of(self.files@), path_key(path@)) < j as int {
                        assert(keys_of(self.files@)[find_text(
                            keys_of(self.files@),
                            path_key(path@),
                        )]@ != key@);
                    }
                }
                return Some(j);
            }
            j += 1;
        }
        proof {
            lemma_find_text(keys_of(self.files@), path_key(path@));
            assert(keys_of(self.files@).len() == n);
        }
        None
    }

    fn intern_string(&self, s: &str) -> (r: Symbol) {
        let key = s.to_owned();
        let n = self.names.len();
        let mut j: usize = 0;
        while j < n
            invariant
                n == self.names@.len(),
                j <= n,
                key@ == s@,
                forall|idx: int| 0 <= idx < j ==> (#[trigger] self.names@[idx])@ != s@,
            decreases n - j,
        {
            if self.names[j] == key {
                proof {
                    use_type_invariant(self);
                    lemma_find_text(self.names@, s@);
                    if find_text(self.names@, s@) < j as int {
                        assert(self.names@[find_text(self.names@, s@)]@ != s@);
                    }
                }
                return Symbol(j as u32);
            }
            j += 1;
        }
        proof {
            use_type_invariant(self);
            lemma_find_text(self.names@, s@);
        }
        Symbol(self.names.len() as u32)
    }
}

/// Any set of file identifiers below a bound is finite.
proof fn lemma_below_finite(n: nat)
    requires
        n <= usize::MAX,
    ensures
        Set::new(|f: FileId| f < n).finite(),
    decreases n,
{
    if n == 0 {
        assert(Set::new(|f: FileId| f < n) =~= Set::<FileId>::empty());
    } else {
        lemma_below_finite((n - 1) as nat);
        assert(Set::new(|f: FileId| f < n) =~= Set::new(|f: FileId| f < (n - 1) as nat).insert(
            (n - 1) as usize,
        ));
    }
}

/// Builds the lookup key of one import path: segments joined with
/// `/`, the source-file suffix appended.
fn make_key(path: &Path) -> (r: String)
    ensures
        r@ == path_key(path@),
{
    let mut s = String::new();
    let n = path.segments.len();
    let mut i: usize = 0;
    proof {
        assert(path@.len() == path.segments@.len());
        assert(path@.take(0) =~= Seq::<Seq<char>>::empty());
    }
    while i < n
        invariant
            n == path.segments@.len(),
            path@.len() == n,
            forall|k: int| 0 <= k < n ==> path@[k] == (#[trigger] path.segments@[k])@,
            i <= n,
            s@ == joined_path(path@.take(i as int)),
        decreases n - i,
    {
        if i > 0 {
            s.append("/");
        }
        s.append(path.segments[i].as_str());
        proof {
            assert(path@.take(i as int + 1).drop_last() =~= path@.take(i as int));
            assert(path@.take(i as int + 1).last() == path@[i as int]);
            if i == 0 {
                assert(Seq::<char>::empty() + path@[0] =~= path@[0]);
            }
        }
        i += 1;
    }
    s.append(".ny");
    proof {
        assert(path@.take(n as int) =~= path@);
    }
    s
}

} // verus!
