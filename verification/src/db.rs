//! The query boundary: the narrow interface through which definition
//! collection obtains parsed trees, resolves import paths to files,
//! and interns identifier text. Any implementation that meets these
//! contracts can drive the resolver.

use std::sync::Arc;
use vstd::prelude::*;

use crate::syntax::{def_name, defs_of_items, items_seq, FileId, Module, Path, PathText, Symbol};

verus! {

/// Everything the resolver may ask of its surroundings. The three
/// executable operations are tied to spec-level functions of the
/// boundary's state, so that one run sees one consistent picture: the
/// same file always yields the same tree, the same path the same
/// resolution, the same text the same symbol.
pub trait AnalyzerDb: Sized {
    /// The finite set of files this boundary knows. Resolution only
    /// ever leads into this set, which is what bounds a traversal.
    spec fn file_universe(&self) -> Set<FileId>;

    /// The parsed tree that a known file yields.
    spec fn ast_of(&self, file_id: FileId) -> Module;

    /// What an import path, anchored at a file, resolves to; `None`
    /// when the path names no known file.
    spec fn resolve_of(&self, anchor_file: FileId, path: PathText) -> Option<FileId>;

    /// The symbol that a piece of identifier text interns to.
    spec fn intern_of(&self, text: Seq<char>) -> Symbol;

    /// The known files form a finite set.
    proof fn lemma_file_universe_finite(&self)
        ensures
            self.file_universe().finite(),
    ;

    /// Resolution never leads outside the known files.
    proof fn lemma_resolve_in_universe(&self)
        ensures
            forall|a: FileId, p: PathText|
                (#[trigger] self.resolve_of(a, p)) matches Some(g)
                    ==> self.file_universe().contains(g),
    ;

    /// Distinct declaration names anywhere in the known files intern
    /// to distinct symbols.
    proof fn lemma_intern_injective(&self)
        ensures
            forall|a: Seq<char>, b: Seq<char>|
                #![trigger self.intern_of(a), self.intern_of(b)]
                (exists|f: FileId, j: int|
                    #![trigger def_name(defs_of_items(items_seq(self.ast_of(f)))[j])]
                    self.file_universe().contains(f) && 0 <= j < defs_of_items(
                        items_seq(self.ast_of(f)),
                    ).len() && def_name(defs_of_items(items_seq(self.ast_of(f)))[j]) == a)
                    && (exists|f: FileId, j: int|
                    #![trigger def_name(defs_of_items(items_seq(self.ast_of(f)))[j])]
                    self.file_universe().contains(f) && 0 <= j < defs_of_items(
                        items_seq(self.ast_of(f)),
                    ).len() && def_name(defs_of_items(items_seq(self.ast_of(f)))[j]) == b)
                    && self.intern_of(a) == self.intern_of(b) ==> a == b,
    ;

    /// Returns the parsed tree for `file_id`, as a shared read-only
    /// handle.
    fn ast(&self, file_id: FileId) -> (r: Arc<Module>)
        requires
            self.file_universe().contains(file_id),
        ensures
            *r == self.ast_of(file_id),
    ;

    /// Maps an import path, interpreted relative to `anchor_file`, to
    /// a concrete file, or to nothing when the path does not
    /// correspond to a known file.
    fn resolve_module(&self, anchor_file: FileId, path: &Path) -> (r: Option<FileId>)
        ensures
            r == self.resolve_of(anchor_file, path@),
    ;

    /// Canonicalizes raw identifier text into a symbol.
    fn intern_string(&self, s: &str) -> (r: Symbol)
        ensures
            r == self.intern_of(s@),
    ;
}

} // verus!
