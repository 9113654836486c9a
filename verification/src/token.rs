use vstd::prelude::*;

use crate::error::Error;
use crate::scope::{Scope, ScopeV};

verus! {

/// An operand stack: an ordered sequence of values owned by one scope and
/// manipulated last-in/first-out.
pub type Stack = Vec<Token>;

/// The values that make up the language: everything the tokenizer hands the
/// evaluator and everything an operation can produce.
#[derive(Debug, PartialEq)]
pub enum Token {
    /// A numeric value, a 64-bit machine integer.
    Number(i64),
    /// The name of a symbol: an operator, a variable reference, or a bare word.
    Symbol(String),
    /// A piece of text.
    String(String),
    /// A nested scope with its own operand stack.
    Scope(Scope),
    /// An ordered sequence of values.
    List(Stack),
    /// A boolean value.
    Boolean(bool),
    /// The identifier of a scope registered in a scope table.
    Id(u128),
    /// The punctuation mark that opens a nested scope.
    BeginScope,
    /// The punctuation mark that closes a nested scope.
    EndScope,
    /// The punctuation mark that opens a list.
    BeginList,
    /// The punctuation mark that closes a list.
    EndList,
    /// The explicit absence of a value. An operation's void result is
    /// discarded rather than pushed; a void token handed in as input is
    /// pushed like any other.
    Void,
}

/// The mathematical value of a `Token`: the same tree with sequences in
/// place of vectors and strings, so that two tokens are equal exactly when
/// they hold equal values, independent of memory layout.
pub ghost enum TokenV {
    Number(i64),
    Symbol(Seq<char>),
    String(Seq<char>),
    Scope(ScopeV),
    List(Seq<TokenV>),
    Boolean(bool),
    Id(u128),
    BeginScope,
    EndScope,
    BeginList,
    EndList,
    Void,
}

impl View for Token {
    type V = TokenV;

    open spec fn view(&self) -> TokenV
        decreases self,
    {
        match self {
            Token::Number(n) => TokenV::Number(*n),
            Token::Symbol(s) => TokenV::Symbol(s@),
            Token::String(s) => TokenV::String(s@),
            Token::Scope(s) => TokenV::Scope(
                ScopeV { parent: s.parent, id: s.id, stack: stack_view(s.stack@) },
            ),
            Token::List(l) => TokenV::List(stack_view(l@)),
            Token::Boolean(b) => TokenV::Boolean(*b),
            Token::Id(i) => TokenV::Id(*i),
            Token::BeginScope => TokenV::BeginScope,
            Token::EndScope => TokenV::EndScope,
            Token::BeginList => TokenV::BeginList,
            Token::EndList => TokenV::EndList,
            Token::Void => TokenV::Void,
        }
    }
}

/// The mathematical value of a sequence of tokens, element by element.
pub open spec fn stack_view(s: Seq<Token>) -> Seq<TokenV>
    decreases s,
{
    if s.len() == 0 {
        Seq::empty()
    } else {
        stack_view(s.drop_last()).push(s.last()@)
    }
}

pub broadcast proof fn lemma_stack_view_len(s: Seq<Token>)
    ensures
        #[trigger] stack_view(s).len() == s.len(),
    decreases s,
{
    if s.len() == 0 {
        assert(stack_view(s) == Seq::<TokenV>::empty());
    } else {
        lemma_stack_view_len(s.drop_last());
        assert(stack_view(s) == stack_view(s.drop_last()).push(s.last()@));
    }
}

pub broadcast proof fn lemma_stack_view_index(s: Seq<Token>, i: int)
    requires
        0 <= i < s.len(),
    ensures
        #[trigger] stack_view(s)[i] == s[i]@,
    decreases s,
{
    lemma_stack_view_len(s.drop_last());
    assert(stack_view(s) == stack_view(s.drop_last()).push(s.last()@));
    if i < s.len() - 1 {
        lemma_stack_view_index(s.drop_last(), i);
        assert(s.drop_last()[i] == s[i]);
    }
}

pub broadcast proof fn lemma_stack_view_push(s: Seq<Token>, t: Token)
    ensures
        #[trigger] stack_view(s.push(t)) == stack_view(s).push(t@),
{
    assert(s.push(t).drop_last() =~= s);
    assert(s.push(t).last() == t);
}

/// Copies every token of a stack, so that the copy holds the same values
/// without sharing any owned contents with the original.
pub fn clone_stack(s: &Stack) -> (r: Stack)
    ensures
        r@.len() == s@.len(),
        forall|i: int| 0 <= i < s@.len() ==> #[trigger] r@[i]@ == s@[i]@,
        stack_view(r@) == stack_view(s@),
    decreases *s,
{
    let mut out: Stack = Vec::new();
    let mut i: usize = 0;
    while i < s.len()
        invariant
            i <= s@.len(),
            out@.len() == i,
            forall|j: int| 0 <= j < i ==> #[trigger] out@[j]@ == s@[j]@,
        decreases s@.len() - i,
    {
        proof {
            broadcast use vstd::std_specs::vec::axiom_vec_index_decreases;

            assert(decreases_to!(*s => s[i as int]));
        }
        out.push(s[i].deep_clone());
        i = i + 1;
    }
    proof {
        broadcast use lemma_stack_view_len, lemma_stack_view_index;

        assert(stack_view(out@) =~= stack_view(s@));
    }
    out
}

impl Token {
    /// Produces a token holding the same value as this one, copying nested
    /// lists and scopes rather than sharing them.
    pub fn deep_clone(&self) -> (r: Token)
        ensures
            r@ == self@,
        decreases self,
    {
        match self {
            Token::Number(n) => Token::Number(*n),
            Token::Symbol(s) => Token::Symbol(s.clone()),
            Token::String(s) => Token::String(s.clone()),
            Token::Scope(s) => Token::Scope(
                Scope { parent: s.parent, id: s.id, stack: clone_stack(&s.stack) },
            ),
            Token::List(l) => Token::List(clone_stack(l)),
            Token::Boolean(b) => Token::Boolean(*b),
            Token::Id(i) => Token::Id(*i),
            Token::BeginScope => Token::BeginScope,
            Token::EndScope => Token::EndScope,
            Token::BeginList => Token::BeginList,
            Token::EndList => Token::EndList,
            Token::Void => Token::Void,
        }
    }

    /// Reads this token as a number, failing with an argument mismatch when
    /// it holds any other kind of value.
    pub fn get_number(&self) -> (r: Result<i64, Error>)
        ensures
            match r {
                Ok(n) => self@ == TokenV::Number(n),
                Err(e) => !(self@ is Number) && e == Error::ArgumentMismatch,
            },
    {
        match self {
            Token::Number(n) => Ok(*n),
            _ => Err(Error::ArgumentMismatch),
        }
    }

    /// Whether this token is a number.
    pub fn is_number(&self) -> (r: bool)
        ensures
            r == (self@ is Number),
    {
        match self {
            Token::Number(_) => true,
            _ => false,
        }
    }

    /// Reads this token as a symbol name, failing with an argument mismatch
    /// when it holds any other kind of value.
    pub fn get_symbol(&self) -> (r: Result<String, Error>)
        ensures
            match r {
                Ok(s) => self@ == TokenV::Symbol(s@),
                Err(e) => !(self@ is Symbol) && e == Error::ArgumentMismatch,
            },
    {
        match self {
            Token::Symbol(s) => Ok(s.clone()),
            _ => Err(Error::ArgumentMismatch),
        }
    }

    /// Whether this token is a symbol.
    pub fn is_symbol(&self) -> (r: bool)
        ensures
            r == (self@ is Symbol),
    {
        match self {
            Token::Symbol(_) => true,
            _ => false,
        }
    }

    /// Reads this token as a string, failing with an argument mismatch when
    /// it holds any other kind of value.
    pub fn get_string(&self) -> (r: Result<String, Error>)
        ensures
            match r {
                Ok(s) => self@ == TokenV::String(s@),
                Err(e) => !(self@ is String) && e == Error::ArgumentMismatch,
            },
    {
        match self {
            Token::String(s) => Ok(s.clone()),
            _ => Err(Error::ArgumentMismatch),
        }
    }

    /// Whether this token is a string.
    pub fn is_string(&self) -> (r: bool)
        ensures
            r == (self@ is String),
    {
        match self {
            Token::String(_) => true,
            _ => false,
        }
    }

    /// Reads this token as a scope, returning a deep copy of it, and failing
    /// with an argument mismatch when it holds any other kind of value.
    pub fn get_scope(&self) -> (r: Result<Scope, Error>)
        ensures
            match r {
                Ok(s) => self@ == TokenV::Scope(s@),
                Err(e) => !(self@ is Scope) && e == Error::ArgumentMismatch,
            },
    {
        match self {
            Token::Scope(s) => Ok(
                Scope { parent: s.parent, id: s.id, stack: clone_stack(&s.stack) },
            ),
            _ => Err(Error::ArgumentMismatch),
        }
    }

    /// Whether this token is a scope.
    pub fn is_scope(&self) -> (r: bool)
        ensures
            r == (self@ is Scope),
    {
        match self {
            Token::Scope(_) => true,
            _ => false,
        }
    }

    /// Reads this token as a list, returning a deep copy of its contents,
    /// and failing with an argument mismatch when it holds any other kind of
    /// value.
    pub fn get_list(&self) -> (r: Result<Stack, Error>)
        ensures
            match r {
                Ok(l) => self@ == TokenV::List(stack_view(l@)),
                Err(e) => !(self@ is List) && e == Error::ArgumentMismatch,
            },
    {
        match self {
            Token::List(l) => Ok(clone_stack(l)),
            _ => Err(Error::ArgumentMismatch),
        }
    }

    /// Whether this token is a list.
    pub fn is_list(&self) -> (r: bool)
        ensures
            r == (self@ is List),
    {
        match self {
            Token::List(_) => true,
            _ => false,
        }
    }

    /// Reads this token as a boolean, failing with an argument mismatch when
    /// it holds any other kind of value.
    pub fn get_boolean(&self) -> (r: Result<bool, Error>)
        ensures
            match r {
                Ok(b) => self@ == TokenV::Boolean(b),
                Err(e) => !(self@ is Boolean) && e == Error::ArgumentMismatch,
            },
    {
        match self {
            Token::Boolean(b) => Ok(*b),
            _ => Err(Error::ArgumentMismatch),
        }
    }

    /// Whether this token is a boolean.
    pub fn is_boolean(&self) -> (r: bool)
        ensures
            r == (self@ is Boolean),
    {
        match self {
            Token::Boolean(_) => true,
            _ => false,
        }
    }

    /// Reads this token as a scope identifier, failing with an argument
    /// mismatch when it holds any other kind of value.
    pub fn get_id(&self) -> (r: Result<u128, Error>)
        ensures
            match r {
                Ok(i) => self@ == TokenV::Id(i),
                Err(e) => !(self@ is Id) && e == Error::ArgumentMismatch,
            },
    {
        match self {
            Token::Id(i) => Ok(*i),
            _ => Err(Error::ArgumentMismatch),
        }
    }

    /// Whether this token is a scope identifier.
    pub fn is_id(&self) -> (r: bool)
        ensures
            r == (self@ is Id),
    {
        match self {
            Token::Id(_) => true,
            _ => false,
        }
    }

    /// Whether this token is the explicit absence of a value.
    pub fn is_void(&self) -> (r: bool)
        ensures
            r == (self@ is Void),
    {
        match self {
            Token::Void => true,
            _ => false,
        }
    }
}

pub broadcast proof fn lemma_stack_view_take(s: Seq<Token>, n: int)
    requires
        0 <= n <= s.len(),
    ensures
        #[trigger] stack_view(s.take(n)) =~= stack_view(s).take(n),
{
    broadcast use lemma_stack_view_len, lemma_stack_view_index;

    assert forall|i: int| 0 <= i < n implies stack_view(s.take(n))[i] == stack_view(s).take(
        n,
    )[i] by {
        assert(s.take(n)[i] == s[i]);
    }
}

pub broadcast proof fn lemma_stack_view_skip(s: Seq<Token>, n: int)
    requires
        0 <= n <= s.len(),
    ensures
        #[trigger] stack_view(s.skip(n)) =~= stack_view(s).skip(n),
{
    broadcast use lemma_stack_view_len, lemma_stack_view_index;

    assert forall|i: int| 0 <= i < s.len() - n implies stack_view(s.skip(n))[i] == stack_view(
        s,
    ).skip(n)[i] by {
        assert(s.skip(n)[i] == s[i + n]);
    }
}

} // verus!
