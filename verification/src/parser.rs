use vstd::prelude::*;

use crate::callback::{
    lemma_spec_invoke_ids, spec_cond, spec_def, spec_dup, spec_invoke, spec_num_binop,
    spec_num_neg, spec_set, Callback, OpCode,
};
use crate::error::Error;
use crate::scope::{Scope, ScopeV, PARENT};
use crate::tables::{
    has_id, lemma_same_ids_has_id, resolve, str_equal, table_of, ScopeModel, ScopeTable,
};
use crate::token::{
    lemma_stack_view_index, lemma_stack_view_len, lemma_stack_view_push, lemma_stack_view_skip,
    lemma_stack_view_take, stack_view, Token, TokenV,
};

verus! {

/// The registry of built-in operations: the four arithmetic operators,
/// negation, duplication, the conditional, definition and mutation, each
/// under its name and with its declared arity. The registry is fixed; a
/// name outside it is no operation.
pub open spec fn spec_builtin(name: Seq<char>) -> Option<Callback> {
    if name == "+"@ {
        Some(Callback { arity: 2, code: OpCode::Add })
    } else if name == "-"@ {
        Some(Callback { arity: 2, code: OpCode::Sub })
    } else if name == "*"@ {
        Some(Callback { arity: 2, code: OpCode::Mul })
    } else if name == "/"@ {
        Some(Callback { arity: 2, code: OpCode::Div })
    } else if name == "neg"@ {
        Some(Callback { arity: 1, code: OpCode::Neg })
    } else if name == "copy"@ {
        Some(Callback { arity: 0, code: OpCode::Duplicate })
    } else if name == "if"@ {
        Some(Callback { arity: 3, code: OpCode::If })
    } else if name == "def"@ {
        Some(Callback { arity: 2, code: OpCode::Def })
    } else if name == "set"@ {
        Some(Callback { arity: 2, code: OpCode::Mutate })
    } else {
        None
    }
}

/// Looks a name up in the registry of built-in operations.
pub fn builtin(name: &str) -> (r: Option<Callback>)
    ensures
        r == spec_builtin(name@),
        r matches Some(cb) ==> cb.wf(),
{
    if str_equal(name, "+") {
        Some(Callback { arity: 2, code: OpCode::Add })
    } else if str_equal(name, "-") {
        Some(Callback { arity: 2, code: OpCode::Sub })
    } else if str_equal(name, "*") {
        Some(Callback { arity: 2, code: OpCode::Mul })
    } else if str_equal(name, "/") {
        Some(Callback { arity: 2, code: OpCode::Div })
    } else if str_equal(name, "neg") {
        Some(Callback { arity: 1, code: OpCode::Neg })
    } else if str_equal(name, "copy") {
        Some(Callback { arity: 0, code: OpCode::Duplicate })
    } else if str_equal(name, "if") {
        Some(Callback { arity: 3, code: OpCode::If })
    } else if str_equal(name, "def") {
        Some(Callback { arity: 2, code: OpCode::Def })
    } else if str_equal(name, "set") {
        Some(Callback { arity: 2, code: OpCode::Mutate })
    } else {
        None
    }
}

/// Applies a binary arithmetic operation to its two arguments, in the order
/// they were pushed, and returns the resulting number.
pub(crate) fn apply_num_binop(args: &Vec<Token>, code: OpCode) -> (r: Result<Token, Error>)
    requires
        args@.len() == 2,
        code == OpCode::Add || code == OpCode::Sub || code == OpCode::Mul || code == OpCode::Div,
    ensures
        match r {
            Ok(t) => spec_num_binop(code, args@[0]@, args@[1]@) == Ok::<TokenV, Error>(t@),
            Err(e) => spec_num_binop(code, args@[0]@, args@[1]@) == Err::<TokenV, Error>(e),
        },
{
    let a = match args[0].get_number() {
        Ok(n) => n,
        Err(e) => return Err(e),
    };
    let b = match args[1].get_number() {
        Ok(n) => n,
        Err(e) => return Err(e),
    };
    match code {
        OpCode::Add => Ok(Token::Number(a.wrapping_add(b))),
        OpCode::Sub => Ok(Token::Number(a.wrapping_sub(b))),
        OpCode::Mul => Ok(Token::Number(a.wrapping_mul(b))),
        _ => match a.checked_div(b) {
            Some(q) => Ok(Token::Number(q)),
            None => Err(Error::ArgumentMismatch),
        },
    }
}

/// Applies negation to its one argument and returns the resulting number.
pub(crate) fn apply_num_unop(args: &Vec<Token>) -> (r: Result<Token, Error>)
    requires
        args@.len() == 1,
    ensures
        match r {
            Ok(t) => spec_num_neg(args@[0]@) == Ok::<TokenV, Error>(t@),
            Err(e) => spec_num_neg(args@[0]@) == Err::<TokenV, Error>(e),
        },
{
    let a = match args[0].get_number() {
        Ok(n) => n,
        Err(e) => return Err(e),
    };
    Ok(Token::Number((0 as i64).wrapping_sub(a)))
}

/// Returns a copy of the topmost stack element without removing it; an
/// empty stack is reported as such. It consumes no arguments.
pub(crate) fn handle_duplicate(scope: &Scope) -> (r: Result<Token, Error>)
    ensures
        match r {
            Ok(t) => spec_dup(scope@.stack) == Ok::<TokenV, Error>(t@),
            Err(e) => spec_dup(scope@.stack) == Err::<TokenV, Error>(e),
        },
{
    let n = scope.stack.len();
    if n == 0 {
        Err(Error::EmptyStack)
    } else {
        proof {
            lemma_stack_view_len(scope.stack@);
            lemma_stack_view_index(scope.stack@, n - 1);
        }
        Ok(scope.stack[n - 1].deep_clone())
    }
}

/// Chooses between the first two arguments by the boolean third: the first
/// when it is true, the second when it is false.
pub(crate) fn handle_if(args: &Vec<Token>) -> (r: Result<Token, Error>)
    requires
        args@.len() == 3,
    ensures
        match r {
            Ok(t) => spec_cond(args@[0]@, args@[1]@, args@[2]@) == Ok::<TokenV, Error>(t@),
            Err(e) => spec_cond(args@[0]@, args@[1]@, args@[2]@) == Err::<TokenV, Error>(e),
        },
{
    let condition = match args[2].get_boolean() {
        Ok(b) => b,
        Err(e) => return Err(e),
    };
    if condition {
        Ok(args[0].deep_clone())
    } else {
        Ok(args[1].deep_clone())
    }
}

/// Defines a variable: binds the sigil-marked name from the second
/// argument to the first argument's value, in the current scope's own
/// symbol table, creating or overwriting the binding there.
pub(crate) fn handle_def(table: &mut ScopeTable, scope: &Scope, args: &Vec<Token>) -> (r: Result<
    Token,
    Error,
>)
    requires
        old(table).wf(),
        has_id(old(table).model(), scope.id),
        args@.len() == 2,
    ensures
        final(table).wf(),
        ({
            let out = spec_def(old(table).model(), scope.id, args@[0]@, args@[1]@);
            &&& final(table).model() == out.tables
            &&& match r {
                Ok(t) => out.result == Ok::<TokenV, Error>(t@),
                Err(e) => out.result == Err::<TokenV, Error>(e),
            }
        }),
{
    let name = match args[1].get_symbol() {
        Ok(s) => s,
        Err(e) => return Err(e),
    };
    let value = args[0].deep_clone();
    let mut key = String::from_str("$");
    key.append(name.as_str());
    if str_equal(key.as_str(), PARENT) {
        return Err(Error::ArgumentMismatch);
    }
    table.define(scope.id, key, value);
    Ok(Token::Void)
}

/// Mutates a variable: overwrites the binding of the sigil-marked name
/// from the second argument — the same key definition creates — in the
/// nearest enclosing scope that already binds it, with the first
/// argument's value; with no such scope it creates nothing.
pub(crate) fn handle_set(table: &mut ScopeTable, scope: &Scope, args: &Vec<Token>) -> (r: Result<
    Token,
    Error,
>)
    requires
        old(table).wf(),
        has_id(old(table).model(), scope.id),
        args@.len() == 2,
    ensures
        final(table).wf(),
        ({
            let out = spec_set(old(table).model(), scope.id, args@[0]@, args@[1]@);
            &&& final(table).model() == out.tables
            &&& match r {
                Ok(t) => out.result == Ok::<TokenV, Error>(t@),
                Err(e) => out.result == Err::<TokenV, Error>(e),
            }
        }),
{
    let name = match args[1].get_symbol() {
        Ok(s) => s,
        Err(e) => return Err(e),
    };
    let value = args[0].deep_clone();
    let mut key = String::from_str("$");
    key.append(name.as_str());
    if str_equal(key.as_str(), PARENT) {
        return Err(Error::ArgumentMismatch);
    }
    let found = match table.find_symbol(scope.id, key.as_str()) {
        Ok(f) => f,
        Err(e) => return Err(e),
    };
    table.define(found, key, value);
    Ok(Token::Void)
}

/// Resolves a variable reference: climbs the chain of enclosing scopes
/// from the current one and returns a copy of the value the nearest
/// binding of the symbol holds.
pub(crate) fn handle_invoke(table: &ScopeTable, scope: &Scope, symbol: &str) -> (r: Result<Token, Error>)
    requires
        table.wf(),
        has_id(table.model(), scope.id),
    ensures
        match r {
            Ok(t) => ({
                let res = resolve(table.model(), scope.id, symbol@);
                &&& res matches Some(f)
                &&& t@ == table_of(table.model(), res->0)[symbol@]
            }),
            Err(e) => resolve(table.model(), scope.id, symbol@) is None && e
                == Error::UnknownIdentifier,
        },
{
    let found = match table.find_symbol(scope.id, symbol) {
        Ok(f) => f,
        Err(e) => return Err(e),
    };
    let tbl = table.get_table(found);
    match tbl.get(symbol) {
        Some(t) => Ok(t.deep_clone()),
        None => Err(Error::UnknownIdentifier),
    }
}

/// What dispatching one symbol leaves behind: the scope table contents, the
/// current scope's stack, a nested scope to enter, if any, and the failure,
/// if any.
pub ghost struct StepOutcome {
    /// The scope table contents afterwards.
    pub tables: ScopeModel,
    /// The current scope's operand stack afterwards.
    pub stack: Seq<TokenV>,
    /// A scope to make the new current one, when the symbol produced one.
    pub new_frame: Option<ScopeV>,
    /// The failure reported, when there was one.
    pub error: Option<Error>,
}

/// The dispatch rule for one symbol. A registered operation name invokes
/// the operation: with fewer stack elements than its arity nothing changes
/// and the arity mismatch is reported; otherwise exactly `arity` elements
/// leave the stack, in the order they were pushed they become the
/// arguments, and the operation's value — unless it is void, which is
/// discarded, or a scope, which becomes the new frame — is pushed. A symbol
/// that starts with the reference sigil is resolved through the enclosing
/// scopes: the value found is pushed, or made the new frame when it is a
/// scope. Any other symbol is itself pushed as a plain operand.
pub open spec fn spec_parse_symbol(m: ScopeModel, scope: ScopeV, sym: Seq<char>) -> StepOutcome {
    match spec_builtin(sym) {
        Some(cb) => {
            if scope.stack.len() < cb.arity {
                StepOutcome {
                    tables: m,
                    stack: scope.stack,
                    new_frame: None,
                    error: Some(Error::ArityMismatch),
                }
            } else {
                let rest = scope.stack.take(scope.stack.len() - cb.arity);
                let args = scope.stack.skip(scope.stack.len() - cb.arity);
                let popped = ScopeV { parent: scope.parent, id: scope.id, stack: rest };
                let out = spec_invoke(cb, m, popped, args);
                match out.result {
                    Ok(v) => match v {
                        TokenV::Scope(sv) => StepOutcome {
                            tables: out.tables,
                            stack: rest,
                            new_frame: Some(sv),
                            error: None,
                        },
                        TokenV::Void => StepOutcome {
                            tables: out.tables,
                            stack: rest,
                            new_frame: None,
                            error: None,
                        },
                        _ => StepOutcome {
                            tables: out.tables,
                            stack: rest.push(v),
                            new_frame: None,
                            error: None,
                        },
                    },
                    Err(e) => StepOutcome {
                        tables: out.tables,
                        stack: rest,
                        new_frame: None,
                        error: Some(e),
                    },
                }
            }
        },
        None => {
            if sym.len() > 0 && sym[0] == '$' {
                match resolve(m, scope.id, sym) {
                    Some(f) => {
                        let v = table_of(m, f)[sym];
                        match v {
                            TokenV::Scope(sv) => StepOutcome {
                                tables: m,
                                stack: scope.stack,
                                new_frame: Some(sv),
                                error: None,
                            },
                            _ => StepOutcome {
                                tables: m,
                                stack: scope.stack.push(v),
                                new_frame: None,
                                error: None,
                            },
                        }
                    },
                    None => StepOutcome {
                        tables: m,
                        stack: scope.stack,
                        new_frame: None,
                        error: Some(Error::UnknownIdentifier),
                    },
                }
            } else {
                StepOutcome {
                    tables: m,
                    stack: scope.stack.push(TokenV::Symbol(sym)),
                    new_frame: None,
                    error: None,
                }
            }
        },
    }
}

/// Dispatches one symbol in the current scope: invokes the operation it
/// names, resolves it as a variable reference when it starts with the
/// sigil, or pushes it as a plain operand; returns the nested scope to
/// enter, when the symbol produced one.
pub fn parse_symbol(table: &mut ScopeTable, scope: &mut Scope, symbol: &str) -> (r: Result<
    Option<Scope>,
    Error,
>)
    requires
        old(table).wf(),
        has_id(old(table).model(), old(scope).id),
    ensures
        final(table).wf(),
        final(scope).id == old(scope).id,
        final(scope).parent == old(scope).parent,
        has_id(final(table).model(), final(scope).id),
        ({
            let out = spec_parse_symbol(old(table).model(), old(scope)@, symbol@);
            &&& final(table).model() == out.tables
            &&& final(scope)@.stack == out.stack
            &&& match r {
                Ok(ns) => out.error is None && (match (ns, out.new_frame) {
                    (Some(s), Some(sv)) => s@ == sv,
                    (None, None) => true,
                    _ => false,
                }),
                Err(e) => out.error == Some(e),
            }
        }),
{
    proof {
        broadcast use lemma_stack_view_len;

    }
    match builtin(symbol) {
        Some(callback) => {
            if scope.stack.len() < callback.arity {
                return Err(Error::ArityMismatch);
            }
            let at = scope.stack.len() - callback.arity;
            let args = scope.stack.split_off(at);
            proof {
                lemma_stack_view_take(old(scope).stack@, at as int);
                lemma_stack_view_skip(old(scope).stack@, at as int);
                assert(scope.stack@ =~= old(scope).stack@.take(at as int));
                assert(args@ =~= old(scope).stack@.skip(at as int));
                assert(stack_view(args@).len() == args@.len());
                lemma_spec_invoke_ids(
                    callback,
                    old(table).model(),
                    scope@,
                    stack_view(args@),
                );
            }
            let result = match callback.invoke(table, scope, args) {
                Ok(t) => t,
                Err(e) => {
                    proof {
                        lemma_same_ids_has_id(old(table).model(), table.model());
                    }
                    return Err(e);
                },
            };
            proof {
                lemma_same_ids_has_id(old(table).model(), table.model());
            }
            match result {
                Token::Scope(s) => Ok(Some(s)),
                t => {
                    if !t.is_void() {
                        proof {
                            lemma_stack_view_push(scope.stack@, t);
                        }
                        scope.stack.push(t);
                    }
                    Ok(None)
                },
            }
        },
        None => {
            if symbol.unicode_len() > 0 && symbol.get_char(0) == '$' {
                let t = match handle_invoke(table, scope, symbol) {
                    Ok(t) => t,
                    Err(e) => return Err(e),
                };
                match t {
                    Token::Scope(s) => Ok(Some(s)),
                    other => {
                        proof {
                            lemma_stack_view_push(scope.stack@, other);
                        }
                        scope.stack.push(other);
                        Ok(None)
                    },
                }
            } else {
                let t = Token::Symbol(String::from_str(symbol));
                proof {
                    lemma_stack_view_push(scope.stack@, t);
                }
                scope.stack.push(t);
                Ok(None)
            }
        },
    }
}

/// Law: on a stack holding exactly the two numbers `a` then `b`, each
/// arithmetic operator yields the one-element stack holding the result
/// computed from the operands in the order they were pushed — `a` first,
/// `b` second, never the reverse — and changes nothing else. Division
/// without a representable quotient consumes the operands and fails as an
/// argument mismatch.
pub proof fn lemma_arithmetic(m: ScopeModel, scope: ScopeV, a: i64, b: i64)
    requires
        scope.stack == seq![TokenV::Number(a), TokenV::Number(b)],
    ensures
        spec_parse_symbol(m, scope, "+"@).stack =~= seq![TokenV::Number(a.wrapping_add(b))],
        spec_parse_symbol(m, scope, "-"@).stack =~= seq![TokenV::Number(a.wrapping_sub(b))],
        spec_parse_symbol(m, scope, "*"@).stack =~= seq![TokenV::Number(a.wrapping_mul(b))],
        spec_parse_symbol(m, scope, "+"@).error is None,
        spec_parse_symbol(m, scope, "-"@).error is None,
        spec_parse_symbol(m, scope, "*"@).error is None,
        a.checked_div(b) matches Some(q) ==> spec_parse_symbol(m, scope, "/"@).stack =~= seq![
            TokenV::Number(q),
        ] && spec_parse_symbol(m, scope, "/"@).error is None,
        a.checked_div(b) is None ==> spec_parse_symbol(m, scope, "/"@).error == Some(
            Error::ArgumentMismatch,
        ) && spec_parse_symbol(m, scope, "/"@).stack =~= Seq::<TokenV>::empty(),
        spec_parse_symbol(m, scope, "+"@).tables == m,
        spec_parse_symbol(m, scope, "-"@).tables == m,
        spec_parse_symbol(m, scope, "*"@).tables == m,
        spec_parse_symbol(m, scope, "/"@).tables == m,
{
    reveal_strlit("+");
    reveal_strlit("-");
    reveal_strlit("*");
    reveal_strlit("/");
    assert("+"@[0] == '+' && "-"@[0] == '-' && "*"@[0] == '*' && "/"@[0] == '/');
    assert(spec_builtin("-"@) == Some(Callback { arity: 2, code: OpCode::Sub }));
    assert(spec_builtin("*"@) == Some(Callback { arity: 2, code: OpCode::Mul }));
    assert(spec_builtin("/"@) == Some(Callback { arity: 2, code: OpCode::Div }));
    assert(scope.stack.len() == 2);
    assert(scope.stack.skip(0) =~= scope.stack);
}

/// Law: the conditional, with the stack holding `then`, `else` and the
/// condition in that order, yields the one-element stack with the
/// then-value under a true condition and the else-value under a false one;
/// a non-boolean condition consumes the three arguments and fails as an
/// argument mismatch.
pub proof fn lemma_conditional(m: ScopeModel, scope: ScopeV, t: TokenV, e: TokenV, c: TokenV)
    requires
        scope.stack == seq![t, e, c],
    ensures
        c == TokenV::Boolean(true) && !(t is Scope) && !(t is Void) ==> spec_parse_symbol(
            m,
            scope,
            "if"@,
        ).stack =~= seq![t] && spec_parse_symbol(m, scope, "if"@).error is None,
        c == TokenV::Boolean(false) && !(e is Scope) && !(e is Void) ==> spec_parse_symbol(
            m,
            scope,
            "if"@,
        ).stack =~= seq![e] && spec_parse_symbol(m, scope, "if"@).error is None,
        !(c is Boolean) ==> spec_parse_symbol(m, scope, "if"@).error == Some(
            Error::ArgumentMismatch,
        ) && spec_parse_symbol(m, scope, "if"@).stack =~= Seq::<TokenV>::empty(),
        spec_parse_symbol(m, scope, "if"@).tables == m,
{
    reveal_strlit("+");
    reveal_strlit("-");
    reveal_strlit("*");
    reveal_strlit("/");
    reveal_strlit("neg");
    reveal_strlit("copy");
    reveal_strlit("if");
    assert("if"@.len() == 2 && "+"@.len() == 1 && "-"@.len() == 1 && "*"@.len() == 1 && "/"@.len()
        == 1 && "neg"@.len() == 3 && "copy"@.len() == 4);
    assert(spec_builtin("if"@) == Some(Callback { arity: 3, code: OpCode::If }));
    assert(scope.stack.len() == 3);
    assert(scope.stack.skip(0) =~= scope.stack);
    assert(scope.stack.take(0) =~= Seq::<TokenV>::empty());
}

/// Law: a symbol that names no registered operation, does not start with
/// the reference sigil, and arrives at an empty stack is pushed as a plain
/// operand: no error, and nothing else changes.
pub proof fn lemma_unregistered_symbol(m: ScopeModel, scope: ScopeV, sym: Seq<char>)
    requires
        spec_builtin(sym) is None,
        !(sym.len() > 0 && sym[0] == '$'),
        scope.stack == Seq::<TokenV>::empty(),
    ensures
        spec_parse_symbol(m, scope, sym).error is None,
        spec_parse_symbol(m, scope, sym).stack =~= seq![TokenV::Symbol(sym)],
        spec_parse_symbol(m, scope, sym).tables == m,
        spec_parse_symbol(m, scope, sym).new_frame is None,
{
}

/// Law: invoking a registered operation with fewer stack elements than its
/// declared arity fails as an arity mismatch and leaves the stack — and
/// everything else — unmodified.
pub proof fn lemma_arity_mismatch(m: ScopeModel, scope: ScopeV, sym: Seq<char>, cb: Callback)
    requires
        spec_builtin(sym) == Some(cb),
        scope.stack.len() < cb.arity,
    ensures
        spec_parse_symbol(m, scope, sym).error == Some(Error::ArityMismatch),
        spec_parse_symbol(m, scope, sym).stack == scope.stack,
        spec_parse_symbol(m, scope, sym).tables == m,
        spec_parse_symbol(m, scope, sym).new_frame is None,
{
}

/// Law: duplication on an empty stack fails as an empty stack; on any
/// nonempty stack it pushes a second copy of the top element without
/// consuming it — in particular the one-element stack `x` yields `x, x` —
/// and changes nothing else.
pub proof fn lemma_duplicate_law(m: ScopeModel, scope: ScopeV, x: TokenV)
    ensures
        scope.stack == Seq::<TokenV>::empty() ==> spec_parse_symbol(m, scope, "copy"@).error
            == Some(Error::EmptyStack) && spec_parse_symbol(m, scope, "copy"@).stack
            == scope.stack,
        scope.stack.len() > 0 && !(scope.stack.last() is Scope) && !(scope.stack.last()
            is Void) ==> spec_parse_symbol(m, scope, "copy"@).error is None && spec_parse_symbol(
            m,
            scope,
            "copy"@,
        ).stack =~= scope.stack.push(scope.stack.last()),
        scope.stack == seq![x] && !(x is Scope) && !(x is Void) ==> spec_parse_symbol(
            m,
            scope,
            "copy"@,
        ).error is None && spec_parse_symbol(m, scope, "copy"@).stack =~= seq![x, x],
        spec_parse_symbol(m, scope, "copy"@).tables == m,
{
    reveal_strlit("+");
    reveal_strlit("-");
    reveal_strlit("*");
    reveal_strlit("/");
    reveal_strlit("neg");
    reveal_strlit("copy");
    assert("copy"@.len() == 4 && "+"@.len() == 1 && "-"@.len() == 1 && "*"@.len() == 1
        && "/"@.len() == 1 && "neg"@.len() == 3);
    assert(spec_builtin("copy"@) == Some(Callback { arity: 0, code: OpCode::Duplicate }));
    let n = scope.stack.len() as int;
    assert(scope.stack.take(n) =~= scope.stack);
    assert(scope.stack.skip(n) =~= Seq::<TokenV>::empty());
    if scope.stack == seq![x] {
        assert(scope.stack.len() == 1);
        assert(scope.stack.last() == x);
    }
}

/// Law: a pushed value pops back as itself: after pushing any value onto
/// any stack, the top is exactly that value, and below it the stack stands
/// as it was.
pub proof fn lemma_push_pop(stack: Seq<TokenV>, v: TokenV)
    ensures
        stack.push(v).last() == v,
        stack.push(v).drop_last() =~= stack,
{
}

/// Law: processing any non-symbol token pushes exactly that value: the new
/// top of the current frame is the token's own value, and beneath it the
/// stack stands as it was, so taking the value back off recovers both.
pub proof fn lemma_literal_round_trip(m: ScopeModel, frames: Seq<ScopeV>, tok: TokenV)
    requires
        frames.len() > 0,
        !(tok is Symbol),
    ensures
        ({
            let out = spec_parse(m, frames, tok);
            &&& out.error is None
            &&& out.tables == m
            &&& out.frames.last().stack.last() == tok
            &&& out.frames.last().stack.drop_last() =~= frames.last().stack
        }),
{
}

/// The frame stack: the chain of scopes evaluation has entered, the last
/// one current.
pub type StackFrames = Vec<Scope>;

/// The mathematical value of a frame stack, frame by frame.
pub open spec fn frames_view(s: Seq<Scope>) -> Seq<ScopeV> {
    Seq::new(s.len(), |i: int| s[i]@)
}

/// What processing one token leaves behind.
pub ghost struct ParseOutcome {
    /// The scope table contents afterwards.
    pub tables: ScopeModel,
    /// The frame stack afterwards.
    pub frames: Seq<ScopeV>,
    /// The failure reported, when there was one.
    pub error: Option<Error>,
}

/// The rule for one token. With no current frame nothing can be processed.
/// A symbol token goes through symbol dispatch in the current frame, whose
/// stack it may change even when the dispatch fails; a scope the dispatch
/// produces is pushed as the new current frame. Every other token is pushed
/// onto the current frame's stack as it stands.
pub open spec fn spec_parse(m: ScopeModel, frames: Seq<ScopeV>, tok: TokenV) -> ParseOutcome {
    if frames.len() == 0 {
        ParseOutcome { tables: m, frames: frames, error: Some(Error::EmptyStack) }
    } else {
        let cur = frames.last();
        match tok {
            TokenV::Symbol(s) => {
                let out = spec_parse_symbol(m, cur, s);
                let updated = frames.update(
                    frames.len() - 1,
                    ScopeV { parent: cur.parent, id: cur.id, stack: out.stack },
                );
                match out.error {
                    Some(e) => ParseOutcome { tables: out.tables, frames: updated, error: Some(e) },
                    None => match out.new_frame {
                        Some(nf) => ParseOutcome {
                            tables: out.tables,
                            frames: updated.push(nf),
                            error: None,
                        },
                        None => ParseOutcome { tables: out.tables, frames: updated, error: None },
                    },
                }
            },
            _ => ParseOutcome {
                tables: m,
                frames: frames.update(
                    frames.len() - 1,
                    ScopeV { parent: cur.parent, id: cur.id, stack: cur.stack.push(tok) },
                ),
                error: None,
            },
        }
    }
}

/// Processes one token in the context of a scope table and a frame stack:
/// dispatches a symbol in the current frame — pushing the frame a dispatch
/// produces — and pushes any other token onto the current frame's stack.
/// With no current frame it fails as an empty stack.
pub fn parse(table: &mut ScopeTable, frames: &mut StackFrames, token: Token) -> (r: Result<
    (),
    Error,
>)
    requires
        old(table).wf(),
        old(frames)@.len() > 0 ==> has_id(old(table).model(), old(frames)@.last().id),
    ensures
        final(table).wf(),
        ({
            let out = spec_parse(old(table).model(), frames_view(old(frames)@), token@);
            &&& final(table).model() == out.tables
            &&& frames_view(final(frames)@) == out.frames
            &&& match r {
                Ok(u) => out.error is None,
                Err(e) => out.error == Some(e),
            }
        }),
{
    if frames.len() == 0 {
        return Err(Error::EmptyStack);
    }
    let ghost old_frames = frames@;
    match token {
        Token::Symbol(s) => {
            let mut cur = match frames.pop() {
                Some(c) => c,
                None => {
                    return Err(Error::EmptyStack);
                },
            };
            let res = parse_symbol(table, &mut cur, s.as_str());
            frames.push(cur);
            proof {
                let out = spec_parse_symbol(
                    old(table).model(),
                    old_frames.last()@,
                    s@,
                );
                assert(frames_view(frames@) =~= frames_view(old_frames).update(
                    frames_view(old_frames).len() - 1,
                    ScopeV {
                        parent: old_frames.last()@.parent,
                        id: old_frames.last()@.id,
                        stack: out.stack,
                    },
                ));
            }
            match res {
                Ok(Some(nf)) => {
                    frames.push(nf);
                    proof {
                        assert(frames_view(frames@) =~= frames_view(frames@.drop_last()).push(
                            frames@.last()@,
                        ));
                    }
                    Ok(())
                },
                Ok(None) => Ok(()),
                Err(e) => Err(e),
            }
        },
        t => {
            let mut cur = match frames.pop() {
                Some(c) => c,
                None => {
                    return Err(Error::EmptyStack);
                },
            };
            proof {
                lemma_stack_view_push(cur.stack@, t);
            }
            cur.stack.push(t);
            frames.push(cur);
            proof {
                assert(frames_view(frames@) =~= spec_parse(
                    old(table).model(),
                    frames_view(old_frames),
                    token@,
                ).frames);
            }
            Ok(())
        },
    }
}

} // verus!
