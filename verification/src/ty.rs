//! The product of the type-checking pass: a plain map from expression
//! identifiers to their inferred types. Insertion and lookup only; it
//! carries no traversal and no invariant beyond key uniqueness.

use std::collections::HashMap;
use vstd::prelude::*;

verus! {

broadcast use vstd::std_specs::hash::group_hash_axioms;

/// Identifies one expression of the lowered program.
#[derive(Debug, Clone, Copy, PartialEq, Eq, Structural, Hash)]
pub struct HirId(pub u32);

/// A handle to one inferred type. At this stage a type is only
/// carried around, never inspected, so a plain identifier stands for
/// it.
#[derive(Debug, Clone, Copy, PartialEq, Eq, Structural)]
pub struct Type(pub u32);

/// Maps each expression to its inferred type, keyed by the numeric
/// value of the expression identifier.
#[derive(Debug)]
pub struct TypeMap {
    pub expr_types: HashMap<u32, Type>,
}

impl View for TypeMap {
    type V = Map<u32, Type>;

    open spec fn view(&self) -> Map<u32, Type> {
        self.expr_types@
    }
}

impl TypeMap {
    /// An empty type map.
    pub fn new() -> (r: Self)
        ensures
            r@ == Map::<u32, Type>::empty(),
    {
        TypeMap { expr_types: HashMap::new() }
    }

    /// Records the inferred type of one expression, replacing any
    /// earlier record for the same expression.
    pub fn set_expr_type(&mut self, expr_id: HirId, ty: Type)
        ensures
            final(self)@ == old(self)@.insert(expr_id.0, ty),
    {
        self.expr_types.insert(expr_id.0, ty);
    }

    /// Looks up the inferred type of one expression: exactly the last
    /// type recorded for it, or nothing when none was recorded.
    pub fn get_expr_type(&self, expr_id: HirId) -> (r: Option<&Type>)
        ensures
            match r {
                Some(t) => self@.contains_key(expr_id.0) && *t == self@[expr_id.0],
                None => !self@.contains_key(expr_id.0),
            },
    {
        self.expr_types.get(&expr_id.0)
    }
}

} // verus!
