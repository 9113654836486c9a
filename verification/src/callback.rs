use vstd::prelude::*;

use crate::error::Error;
use crate::parser::{
    apply_num_binop, apply_num_unop, handle_def, handle_duplicate, handle_if, handle_set,
};
use crate::scope::{parent_key, Scope, ScopeV};
use crate::tables::{
    chain_clear, has_id, idx_of, in_chain, lemma_chain_facts_same, lemma_idx_of,
    lemma_resolve_finds, lemma_resolve_props, lemma_resolve_unbound, lemma_same_ids_idx,
    lemma_same_structure_wf, resolve, spec_parent_of, table_of, wf_model, ScopeModel, ScopeTable,
};
use crate::token::{lemma_stack_view_index, lemma_stack_view_len, stack_view, Token, TokenV};

verus! {

/// Which built-in operation a callback performs.
#[derive(Debug, Clone, Copy, PartialEq, Eq, Structural)]
pub enum OpCode {
    /// Binary addition of two numbers.
    Add,
    /// Binary subtraction of two numbers.
    Sub,
    /// Binary multiplication of two numbers.
    Mul,
    /// Binary division of two numbers.
    Div,
    /// Negation of one number.
    Neg,
    /// A copy of the top of the stack, consuming nothing.
    Duplicate,
    /// A conditional choice between two values.
    If,
    /// A binding of a name in the current scope.
    Def,
    /// A mutation of an existing binding in the nearest scope that holds it.
    Mutate,
}

/// The number of arguments an operation consumes from the stack.
pub open spec fn op_arity(code: OpCode) -> usize {
    match code {
        OpCode::Add => 2,
        OpCode::Sub => 2,
        OpCode::Mul => 2,
        OpCode::Div => 2,
        OpCode::Neg => 1,
        OpCode::Duplicate => 0,
        OpCode::If => 3,
        OpCode::Def => 2,
        OpCode::Mutate => 2,
    }
}

/// A built-in operation descriptor: the arity it declares and the operation
/// it performs when invoked with exactly that many arguments.
#[derive(Debug, Clone, Copy, PartialEq, Eq, Structural)]
pub struct Callback {
    /// The number of arguments the operation expects.
    pub arity: usize,
    /// The operation itself.
    pub code: OpCode,
}

impl Callback {
    /// A descriptor declares the arity its operation consumes.
    pub open spec fn wf(&self) -> bool {
        self.arity == op_arity(self.code)
    }
}

/// What invoking an operation leaves behind: the scope table contents and
/// the computed value or failure.
pub ghost struct OpOutcome {
    /// The scope table contents after the operation.
    pub tables: ScopeModel,
    /// The value the operation computed, or the failure it reports.
    pub result: Result<TokenV, Error>,
}

/// The value a binary arithmetic operation computes. Both arguments must be
/// numbers. Addition, subtraction and multiplication wrap around the 64-bit
/// signed range; a division without a representable quotient (a zero
/// divisor, or the minimum value divided by minus one) is an argument
/// mismatch.
pub open spec fn spec_num_binop(code: OpCode, a: TokenV, b: TokenV) -> Result<TokenV, Error> {
    match (a, b) {
        (TokenV::Number(x), TokenV::Number(y)) => match code {
            OpCode::Add => Ok(TokenV::Number(x.wrapping_add(y))),
            OpCode::Sub => Ok(TokenV::Number(x.wrapping_sub(y))),
            OpCode::Mul => Ok(TokenV::Number(x.wrapping_mul(y))),
            _ => match x.checked_div(y) {
                Some(q) => Ok(TokenV::Number(q)),
                None => Err(Error::ArgumentMismatch),
            },
        },
        _ => Err(Error::ArgumentMismatch),
    }
}

/// The value negation computes: the argument must be a number; the minimum
/// value wraps onto itself.
pub open spec fn spec_num_neg(a: TokenV) -> Result<TokenV, Error> {
    match a {
        TokenV::Number(x) => Ok(TokenV::Number((0 as i64).wrapping_sub(x))),
        _ => Err(Error::ArgumentMismatch),
    }
}

/// The value duplication computes: a copy of the top of the stack, which
/// stays where it is; an empty stack is reported as such.
pub open spec fn spec_dup(stack: Seq<TokenV>) -> Result<TokenV, Error> {
    if stack.len() == 0 {
        Err(Error::EmptyStack)
    } else {
        Ok(stack.last())
    }
}

/// The value the conditional computes: of `(then, else, condition)`, the
/// first when the condition holds and the second when it does not; a
/// non-boolean condition is an argument mismatch.
pub open spec fn spec_cond(then_v: TokenV, else_v: TokenV, cond: TokenV) -> Result<
    TokenV,
    Error,
> {
    match cond {
        TokenV::Boolean(b) => if b {
            Ok(then_v)
        } else {
            Ok(else_v)
        },
        _ => Err(Error::ArgumentMismatch),
    }
}

/// The key under which definition stores a value: the name marked with the
/// reference sigil, so that a later reference written with the sigil finds
/// it.
pub open spec fn def_key(name: Seq<char>) -> Seq<char> {
    "$"@ + name
}

/// What definition does: of `(value, name)`, where `name` must be a symbol,
/// it binds the sigil-marked name to the value in the current scope's own
/// table, creating or overwriting the binding there, and computes no value.
/// The reserved parent entry may not be named.
pub open spec fn spec_def(m: ScopeModel, id: u128, value: TokenV, name: TokenV) -> OpOutcome {
    match name {
        TokenV::Symbol(n) => {
            let key = def_key(n);
            if key == parent_key() {
                OpOutcome { tables: m, result: Err(Error::ArgumentMismatch) }
            } else {
                OpOutcome {
                    tables: m.update(idx_of(m, id), (id, table_of(m, id).insert(key, value))),
                    result: Ok(TokenV::Void),
                }
            }
        },
        _ => OpOutcome { tables: m, result: Err(Error::ArgumentMismatch) },
    }
}

/// What mutation does: of `(value, name)`, where `name` must be a symbol,
/// it overwrites the binding of the sigil-marked name — the same key that
/// definition creates — in the nearest enclosing scope that already binds
/// it, computes no value, and creates no binding when no enclosing scope
/// binds the key. The reserved parent entry may not be named.
pub open spec fn spec_set(m: ScopeModel, id: u128, value: TokenV, name: TokenV) -> OpOutcome {
    match name {
        TokenV::Symbol(n) => {
            let key = def_key(n);
            if key == parent_key() {
                OpOutcome { tables: m, result: Err(Error::ArgumentMismatch) }
            } else {
                match resolve(m, id, key) {
                    Some(f) => OpOutcome {
                        tables: m.update(idx_of(m, f), (f, table_of(m, f).insert(key, value))),
                        result: Ok(TokenV::Void),
                    },
                    None => OpOutcome { tables: m, result: Err(Error::UnknownIdentifier) },
                }
            }
        },
        _ => OpOutcome { tables: m, result: Err(Error::ArgumentMismatch) },
    }
}

/// What one operation, given exactly its arity of arguments in the order
/// they were pushed, computes and changes. `scope` is the current scope as
/// the operation sees it: its stack no longer holds the arguments.
pub open spec fn spec_apply(
    code: OpCode,
    m: ScopeModel,
    scope: ScopeV,
    args: Seq<TokenV>,
) -> OpOutcome {
    match code {
        OpCode::Neg => OpOutcome { tables: m, result: spec_num_neg(args[0]) },
        OpCode::Duplicate => OpOutcome { tables: m, result: spec_dup(scope.stack) },
        OpCode::If => OpOutcome { tables: m, result: spec_cond(args[0], args[1], args[2]) },
        OpCode::Def => spec_def(m, scope.id, args[0], args[1]),
        OpCode::Mutate => spec_set(m, scope.id, args[0], args[1]),
        _ => OpOutcome { tables: m, result: spec_num_binop(code, args[0], args[1]) },
    }
}

/// What invocation of a callback leaves behind: with the wrong number of
/// arguments, an arity mismatch and no change; otherwise whatever the
/// operation itself computes and changes.
pub open spec fn spec_invoke(
    cb: Callback,
    m: ScopeModel,
    scope: ScopeV,
    args: Seq<TokenV>,
) -> OpOutcome {
    if args.len() != cb.arity {
        OpOutcome { tables: m, result: Err(Error::ArityMismatch) }
    } else {
        spec_apply(cb.code, m, scope, args)
    }
}

/// Law: definition then reference. Defining a name in scope `s` binds the
/// sigil-marked key to the value in `s` alone, and succeeds quietly;
/// afterwards, a reference to that key from `s` itself, or from any scope
/// that has `s` on its chain of parents with no nearer binding of the key,
/// resolves to `s` and finds exactly the defined value.
pub proof fn lemma_define_then_reference(
    m: ScopeModel,
    s: u128,
    d: u128,
    name: Seq<char>,
    v: TokenV,
)
    requires
        wf_model(m),
        has_id(m, s),
        has_id(m, d),
        def_key(name) != parent_key(),
        in_chain(m, d, s),
        chain_clear(m, d, s, def_key(name)),
    ensures
        ({
            let out = spec_def(m, s, v, TokenV::Symbol(name));
            &&& out.result == Ok::<TokenV, Error>(TokenV::Void)
            &&& wf_model(out.tables)
            &&& resolve(out.tables, d, def_key(name)) == Some(s)
            &&& table_of(out.tables, s).contains_key(def_key(name))
            &&& table_of(out.tables, s)[def_key(name)] == v
        }),
{
    let key = def_key(name);
    let m2 = spec_def(m, s, v, TokenV::Symbol(name)).tables;
    lemma_idx_of(m, s);
    let i = idx_of(m, s);
    assert forall|j: int|
        0 <= j < m.len() implies #[trigger] spec_parent_of(m2[j].1) == spec_parent_of(
        m[j].1,
    ) by {
        if j == i {
            assert(m2[j].1.contains_key(parent_key()) == m[j].1.contains_key(parent_key()));
            if m[j].1.contains_key(parent_key()) {
                assert(m2[j].1[parent_key()] == m[j].1[parent_key()]);
            }
        }
    }
    lemma_same_structure_wf(m, m2);
    lemma_same_ids_idx(m, m2, d);
    lemma_same_ids_idx(m, m2, s);
    assert(table_of(m2, s) == table_of(m, s).insert(key, v));
    assert forall|j: int| 0 <= j < m.len() && m[j].0 != s implies (#[trigger] m2[j]).1
        == m[j].1 by {
        if j == i {
            assert(m[j].0 == s);
        }
    }
    lemma_chain_facts_same(m, m2, d, s, key);
    lemma_resolve_finds(m2, d, s, key);
}

/// Law: mutation of a name whose sigil-marked key — the key definition
/// creates — no scope on the current chain binds fails as an unknown
/// identifier and creates nothing: the tables stand exactly as they were.
pub proof fn lemma_mutate_unknown(m: ScopeModel, id: u128, name: Seq<char>, v: TokenV)
    requires
        wf_model(m),
        has_id(m, id),
        def_key(name) != parent_key(),
        forall|x: u128|
            #[trigger] in_chain(m, id, x) ==> !table_of(m, x).contains_key(def_key(name)),
    ensures
        spec_set(m, id, v, TokenV::Symbol(name)).tables == m,
        spec_set(m, id, v, TokenV::Symbol(name)).result == Err::<TokenV, Error>(
            Error::UnknownIdentifier,
        ),
{
    lemma_resolve_unbound(m, id, def_key(name));
}

/// Law: mutation of a name whose sigil-marked key some enclosing scope
/// binds succeeds quietly and overwrites the nearest binding in place: the
/// resolved scope's table afterwards binds the key to the value, and every
/// other scope stands exactly as it was.
pub proof fn lemma_mutate_overwrites(m: ScopeModel, id: u128, name: Seq<char>, v: TokenV)
    requires
        wf_model(m),
        has_id(m, id),
        def_key(name) != parent_key(),
        resolve(m, id, def_key(name)) is Some,
    ensures
        ({
            let key = def_key(name);
            let f = resolve(m, id, key)->0;
            let out = spec_set(m, id, v, TokenV::Symbol(name));
            &&& out.result == Ok::<TokenV, Error>(TokenV::Void)
            &&& wf_model(out.tables)
            &&& table_of(out.tables, f).contains_key(key)
            &&& table_of(out.tables, f)[key] == v
            &&& out.tables.len() == m.len()
            &&& forall|j: int| 0 <= j < m.len() ==> (#[trigger] out.tables[j]).0 == m[j].0
            &&& forall|j: int|
                0 <= j < m.len() && m[j].0 != f ==> (#[trigger] out.tables[j]).1 == m[j].1
        }),
{
    let key = def_key(name);
    let f = resolve(m, id, key)->0;
    let out = spec_set(m, id, v, TokenV::Symbol(name));
    lemma_resolve_props(m, id, key);
    lemma_idx_of(m, f);
    let i = idx_of(m, f);
    assert forall|j: int|
        0 <= j < m.len() implies #[trigger] spec_parent_of(out.tables[j].1) == spec_parent_of(
        m[j].1,
    ) by {
        if j == i {
            assert(out.tables[j].1.contains_key(parent_key()) == m[j].1.contains_key(
                parent_key(),
            ));
            if m[j].1.contains_key(parent_key()) {
                assert(out.tables[j].1[parent_key()] == m[j].1[parent_key()]);
            }
        }
    }
    lemma_same_structure_wf(m, out.tables);
    lemma_same_ids_idx(m, out.tables, f);
    assert forall|j: int| 0 <= j < m.len() && m[j].0 != f implies (#[trigger] out.tables[j]).1
        == m[j].1 by {
        if j == i {
            assert(m[j].0 == f);
        }
    }
}

/// Invocation changes no scope's identifier: the table afterwards registers
/// the same identifiers at the same positions.
pub proof fn lemma_spec_invoke_ids(cb: Callback, m: ScopeModel, scope: ScopeV, args: Seq<TokenV>)
    requires
        wf_model(m),
        has_id(m, scope.id),
    ensures
        ({
            let out = spec_invoke(cb, m, scope, args);
            &&& out.tables.len() == m.len()
            &&& forall|i: int| 0 <= i < m.len() ==> (#[trigger] out.tables[i]).0 == m[i].0
        }),
{
    lemma_idx_of(m, scope.id);
    if args.len() == cb.arity && cb.code == OpCode::Mutate {
        match args[1] {
            TokenV::Symbol(n) => {
                if def_key(n) != parent_key() {
                    lemma_resolve_props(m, scope.id, def_key(n));
                    match resolve(m, scope.id, def_key(n)) {
                        Some(f) => {
                            lemma_idx_of(m, f);
                        },
                        None => (),
                    }
                }
            },
            _ => (),
        }
    }
}

impl Callback {
    /// Invokes this callback: fails with an arity mismatch when the number
    /// of arguments supplied differs from the declared arity, and otherwise
    /// performs the operation on the arguments, which the caller has
    /// already taken off the stack and put back into the order they were
    /// pushed in.
    pub fn invoke(&self, table: &mut ScopeTable, scope: &mut Scope, args: Vec<Token>) -> (r:
        Result<Token, Error>)
        requires
            self.wf(),
            old(table).wf(),
            has_id(old(table).model(), old(scope).id),
        ensures
            *final(scope) == *old(scope),
            final(table).wf(),
            ({
                let out = spec_invoke(
                    *self,
                    old(table).model(),
                    old(scope)@,
                    stack_view(args@),
                );
                &&& final(table).model() == out.tables
                &&& match r {
                    Ok(t) => out.result == Ok::<TokenV, Error>(t@),
                    Err(e) => out.result == Err::<TokenV, Error>(e),
                }
            }),
    {
        proof {
            lemma_stack_view_len(args@);
            if args@.len() > 0 {
                lemma_stack_view_index(args@, 0);
            }
            if args@.len() > 1 {
                lemma_stack_view_index(args@, 1);
            }
            if args@.len() > 2 {
                lemma_stack_view_index(args@, 2);
            }
        }
        if args.len() != self.arity {
            return Err(Error::ArityMismatch);
        }
        match self.code {
            OpCode::Neg => apply_num_unop(&args),
            OpCode::Duplicate => handle_duplicate(scope),
            OpCode::If => handle_if(&args),
            OpCode::Def => handle_def(table, scope, &args),
            OpCode::Mutate => handle_set(table, scope, &args),
            _ => apply_num_binop(&args, self.code),
        }
    }
}

} // verus!
