use vstd::prelude::*;

use crate::tables::{has_id, init_table_model, ScopeTable};
use crate::token::{stack_view, Stack, TokenV};

verus! {

/// The reserved symbol-table key under which a scope records its parent's
/// identifier. It links a child to its parent for name resolution, and user
/// bindings may not use it.
pub const PARENT: &'static str = "$$PARENT$$";

/// The reserved key as a sequence of characters, for specifications.
pub open spec fn parent_key() -> Seq<char> {
    "$$PARENT$$"@
}

/// One lexical environment: a process-unique identifier, an optional parent
/// identifier, and an operand stack owned by this scope alone. The scope's
/// symbol table is not embedded here; it lives in a scope table, keyed by
/// `id`.
#[derive(Debug, PartialEq)]
pub struct Scope {
    /// The identifier of the enclosing scope; `None` marks the root scope.
    pub parent: Option<u128>,
    /// This scope's own identifier.
    pub id: u128,
    /// The operand stack local to this scope.
    pub stack: Stack,
}

/// The mathematical value of a `Scope`.
pub ghost struct ScopeV {
    pub parent: Option<u128>,
    pub id: u128,
    pub stack: Seq<TokenV>,
}

impl View for Scope {
    type V = ScopeV;

    open spec fn view(&self) -> ScopeV {
        ScopeV { parent: self.parent, id: self.id, stack: stack_view(self.stack@) }
    }
}

/// Relies on `uuid::Uuid::new_v4`, read out through `uuid::Uuid::as_u128`:
/// a randomly generated 128-bit identifier. Nothing is promised of the
/// value; freshness is checked against the scope table by the caller.
#[verifier::external_body]
fn fresh_id() -> u128 {
    uuid::Uuid::new_v4().as_u128()
}

impl Scope {
    /// Creates a scope and registers its symbol table: draws a random
    /// identifier, redrawing once and then falling back to a scan for a
    /// free identifier in the unlikely event of a collision, enters the
    /// table (seeded with the reserved parent entry when a parent is
    /// given), and returns the scope with an empty operand stack.
    pub fn new(scopes: &mut ScopeTable, parent: Option<u128>) -> (r: Scope)
        requires
            old(scopes).wf(),
            parent matches Some(p) ==> has_id(old(scopes).model(), p),
        ensures
            final(scopes).wf(),
            !has_id(old(scopes).model(), r.id),
            has_id(final(scopes).model(), r.id),
            final(scopes).model() == old(scopes).model().push(
                (r.id, init_table_model(parent)),
            ),
            r.parent == parent,
            r@ == (ScopeV { parent, id: r.id, stack: Seq::<TokenV>::empty() }),
    {
        let mut id = fresh_id();
        if scopes.contains_id(id) {
            id = fresh_id();
        }
        if scopes.contains_id(id) {
            id = scopes.unused_id();
        }
        scopes.register(id, parent);
        proof {
            let m = scopes.model();
            assert(m[m.len() - 1].0 == id);
        }
        Scope { parent, id, stack: Vec::new() }
    }

    /// Whether this scope has an enclosing scope.
    pub fn has_parent(&self) -> (r: bool)
        ensures
            r == (self.parent is Some),
    {
        self.parent.is_some()
    }

    /// The identifier of the enclosing scope, if there is one.
    pub fn parent_id(&self) -> (r: Option<u128>)
        ensures
            r == self.parent,
    {
        self.parent
    }

    /// This scope's own identifier.
    pub fn id(&self) -> (r: u128)
        ensures
            r == self.id,
    {
        self.id
    }
}

} // verus!
