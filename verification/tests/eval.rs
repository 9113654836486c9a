use stacklang::error::Error;
use stacklang::parser::{builtin, parse, parse_symbol};
use stacklang::scope::{Scope, PARENT};
use stacklang::tables::{Lookup, ScopeTable, SymbolTable};
use stacklang::token::{Stack, Token};

fn mk_num_stack() -> Stack {
    vec![Token::Number(12), Token::Number(2)]
}

fn mk_if_stack(condition: bool) -> Stack {
    vec![
        Token::String("Then case".into()),
        Token::String("Else case".into()),
        Token::Boolean(condition),
    ]
}

/// Initialises the environment with a scope table and a root scope holding
/// the given stack.
fn init_env(initial_stack: Stack) -> (ScopeTable, Scope) {
    let mut scopes = ScopeTable::new();
    let mut main_scope = Scope::new(&mut scopes, None);
    main_scope.stack = initial_stack;
    (scopes, main_scope)
}

#[test]
fn test_add() {
    let (mut scopes, mut main_scope) = init_env(mk_num_stack());

    let res = parse_symbol(&mut scopes, &mut main_scope, "+");
    let expected_stack: Stack = vec![Token::Number(14)];

    assert!(res.is_ok());
    assert_eq!(expected_stack, main_scope.stack);
}

#[test]
fn test_sub() {
    let (mut scopes, mut main_scope) = init_env(mk_num_stack());

    let res = parse_symbol(&mut scopes, &mut main_scope, "-");
    let expected_stack: Stack = vec![Token::Number(10)];

    assert!(res.is_ok());
    assert_eq!(expected_stack, main_scope.stack);
}

#[test]
fn test_div() {
    let (mut scopes, mut main_scope) = init_env(mk_num_stack());

    let res = parse_symbol(&mut scopes, &mut main_scope, "/");
    let expected_stack: Stack = vec![Token::Number(6)];

    assert!(res.is_ok());
    assert_eq!(expected_stack, main_scope.stack);
}

#[test]
fn test_if_then() {
    let (mut scopes, mut main_scope) = init_env(mk_if_stack(true));

    let res = parse_symbol(&mut scopes, &mut main_scope, "if");
    let expected_stack: Stack = vec![Token::String("Then case".into())];

    assert!(res.is_ok());
    assert_eq!(expected_stack, main_scope.stack);
}

#[test]
fn test_if_else() {
    let (mut scopes, mut main_scope) = init_env(mk_if_stack(false));

    let res = parse_symbol(&mut scopes, &mut main_scope, "if");
    let expected_stack: Stack = vec![Token::String("Else case".into())];

    assert!(res.is_ok());
    assert_eq!(expected_stack, main_scope.stack);
}

#[test]
fn test_if_error() {
    let init = vec![
        Token::String("Then case".into()),
        Token::String("Else case".into()),
        Token::Number(42),
    ];
    let (mut scopes, mut main_scope) = init_env(init);

    let res = parse_symbol(&mut scopes, &mut main_scope, "if");
    let expected_res = Err(Error::ArgumentMismatch);

    assert_eq!(expected_res, res);
}

#[test]
fn test_mul() {
    let (mut scopes, mut main_scope) = init_env(mk_num_stack());
    let res = parse_symbol(&mut scopes, &mut main_scope, "*");
    assert!(res.is_ok());
    assert_eq!(vec![Token::Number(24)], main_scope.stack);
}

#[test]
fn test_neg() {
    let (mut scopes, mut main_scope) = init_env(vec![Token::Number(5)]);
    let res = parse_symbol(&mut scopes, &mut main_scope, "neg");
    assert!(res.is_ok());
    assert_eq!(vec![Token::Number(-5)], main_scope.stack);
}

#[test]
fn test_operand_order_not_reversed() {
    // 12 - 2 must be 10, never 2 - 12.
    let (mut scopes, mut main_scope) = init_env(mk_num_stack());
    parse_symbol(&mut scopes, &mut main_scope, "-").unwrap();
    assert_ne!(vec![Token::Number(-10)], main_scope.stack);
    assert_eq!(vec![Token::Number(10)], main_scope.stack);
}

#[test]
fn test_div_by_zero_is_argument_mismatch() {
    let (mut scopes, mut main_scope) = init_env(vec![Token::Number(12), Token::Number(0)]);
    let res = parse_symbol(&mut scopes, &mut main_scope, "/");
    assert_eq!(Err(Error::ArgumentMismatch), res);
}

#[test]
fn test_arith_on_string_is_argument_mismatch() {
    let (mut scopes, mut main_scope) =
        init_env(vec![Token::String("a".into()), Token::Number(2)]);
    let res = parse_symbol(&mut scopes, &mut main_scope, "+");
    assert_eq!(Err(Error::ArgumentMismatch), res);
}

#[test]
fn test_arity_mismatch_leaves_stack_unmodified() {
    let (mut scopes, mut main_scope) = init_env(vec![Token::Number(1)]);
    let res = parse_symbol(&mut scopes, &mut main_scope, "+");
    assert_eq!(Err(Error::ArityMismatch), res);
    assert_eq!(vec![Token::Number(1)], main_scope.stack);
}

#[test]
fn test_unregistered_symbol_pushed_on_empty_stack() {
    let (mut scopes, mut main_scope) = init_env(Stack::new());
    let res = parse_symbol(&mut scopes, &mut main_scope, "frobnicate");
    assert!(res.is_ok());
    assert_eq!(vec![Token::Symbol("frobnicate".into())], main_scope.stack);
}

#[test]
fn test_duplicate_on_empty_stack() {
    let (mut scopes, mut main_scope) = init_env(Stack::new());
    let res = parse_symbol(&mut scopes, &mut main_scope, "copy");
    assert_eq!(Err(Error::EmptyStack), res);
}

#[test]
fn test_duplicate_copies_top() {
    let (mut scopes, mut main_scope) = init_env(vec![Token::Number(7)]);
    let res = parse_symbol(&mut scopes, &mut main_scope, "copy");
    assert!(res.is_ok());
    assert_eq!(vec![Token::Number(7), Token::Number(7)], main_scope.stack);
}

#[test]
fn test_define_then_reference() {
    // 5 x def  $x  ==> stack [5]
    let (mut scopes, mut main_scope) =
        init_env(vec![Token::Number(5), Token::Symbol("x".into())]);
    let res = parse_symbol(&mut scopes, &mut main_scope, "def");
    assert!(res.is_ok());
    // def returns void: nothing is pushed.
    assert_eq!(Stack::new(), main_scope.stack);
    let res = parse_symbol(&mut scopes, &mut main_scope, "$x");
    assert!(res.is_ok());
    assert_eq!(vec![Token::Number(5)], main_scope.stack);
}

#[test]
fn test_reference_from_descendant() {
    let mut scopes = ScopeTable::new();
    let mut root = Scope::new(&mut scopes, None);
    root.stack = vec![Token::Number(9), Token::Symbol("v".into())];
    parse_symbol(&mut scopes, &mut root, "def").unwrap();
    let mut child = Scope::new(&mut scopes, Some(root.id));
    let mut grandchild = Scope::new(&mut scopes, Some(child.id));
    let res = parse_symbol(&mut scopes, &mut grandchild, "$v");
    assert!(res.is_ok());
    assert_eq!(vec![Token::Number(9)], grandchild.stack);
    let res = parse_symbol(&mut scopes, &mut child, "$v");
    assert!(res.is_ok());
    assert_eq!(vec![Token::Number(9)], child.stack);
}

#[test]
fn test_reference_from_unrelated_scope_fails() {
    let mut scopes = ScopeTable::new();
    let mut root = Scope::new(&mut scopes, None);
    root.stack = vec![Token::Number(9), Token::Symbol("v".into())];
    parse_symbol(&mut scopes, &mut root, "def").unwrap();
    // A second root: no ancestor relationship with the defining scope.
    let mut stranger = Scope::new(&mut scopes, None);
    let res = parse_symbol(&mut scopes, &mut stranger, "$v");
    assert_eq!(Err(Error::UnknownIdentifier), res);
    assert_eq!(Stack::new(), stranger.stack);
}

#[test]
fn test_shadowing_finds_nearest() {
    let mut scopes = ScopeTable::new();
    let mut root = Scope::new(&mut scopes, None);
    root.stack = vec![Token::Number(1), Token::Symbol("v".into())];
    parse_symbol(&mut scopes, &mut root, "def").unwrap();
    let mut child = Scope::new(&mut scopes, Some(root.id));
    child.stack = vec![Token::Number(2), Token::Symbol("v".into())];
    parse_symbol(&mut scopes, &mut child, "def").unwrap();
    let res = parse_symbol(&mut scopes, &mut child, "$v");
    assert!(res.is_ok());
    assert_eq!(vec![Token::Number(2)], child.stack);
}

#[test]
fn test_set_on_absent_name_fails_and_creates_nothing() {
    let (mut scopes, mut main_scope) = init_env(vec![
        Token::Number(3),
        Token::Symbol("ghost".into()),
    ]);
    let res = parse_symbol(&mut scopes, &mut main_scope, "set");
    assert_eq!(Err(Error::UnknownIdentifier), res);
    // No binding was created: a reference still fails.
    let res = parse_symbol(&mut scopes, &mut main_scope, "$ghost");
    assert_eq!(Err(Error::UnknownIdentifier), res);
}

#[test]
fn test_set_overwrites_in_defining_scope() {
    let mut scopes = ScopeTable::new();
    let mut root = Scope::new(&mut scopes, None);
    root.stack = vec![Token::Number(1), Token::Symbol("v".into())];
    parse_symbol(&mut scopes, &mut root, "def").unwrap();
    let mut child = Scope::new(&mut scopes, Some(root.id));
    // set takes the bare name, exactly as def does.
    child.stack = vec![Token::Number(8), Token::Symbol("v".into())];
    let res = parse_symbol(&mut scopes, &mut child, "set");
    assert!(res.is_ok());
    // The binding in the root scope now holds the new value.
    let mut reader = Scope::new(&mut scopes, Some(root.id));
    parse_symbol(&mut scopes, &mut reader, "$v").unwrap();
    assert_eq!(vec![Token::Number(8)], reader.stack);
}

#[test]
fn test_def_then_set_then_reference() {
    // 5 x def  7 x set  $x ==> stack [7]: set finds the binding def made.
    let (mut scopes, mut main_scope) =
        init_env(vec![Token::Number(5), Token::Symbol("x".into())]);
    parse_symbol(&mut scopes, &mut main_scope, "def").unwrap();
    main_scope.stack = vec![Token::Number(7), Token::Symbol("x".into())];
    let res = parse_symbol(&mut scopes, &mut main_scope, "set");
    assert!(res.is_ok());
    assert_eq!(Stack::new(), main_scope.stack);
    parse_symbol(&mut scopes, &mut main_scope, "$x").unwrap();
    assert_eq!(vec![Token::Number(7)], main_scope.stack);
}

#[test]
fn test_def_reserved_name_is_argument_mismatch() {
    // "$" prefixed onto "$PARENT$$" would name the reserved parent entry.
    let (mut scopes, mut main_scope) = init_env(vec![
        Token::Number(1),
        Token::Symbol("$PARENT$$".into()),
    ]);
    let res = parse_symbol(&mut scopes, &mut main_scope, "def");
    assert_eq!(Err(Error::ArgumentMismatch), res);
}

#[test]
fn test_set_reserved_name_is_argument_mismatch() {
    // "$" prefixed onto "$PARENT$$" would name the reserved parent entry.
    let mut scopes = ScopeTable::new();
    let root = Scope::new(&mut scopes, None);
    let mut child = Scope::new(&mut scopes, Some(root.id));
    child.stack = vec![Token::Id(7), Token::Symbol("$PARENT$$".into())];
    let res = parse_symbol(&mut scopes, &mut child, "set");
    assert_eq!(Err(Error::ArgumentMismatch), res);
}

#[test]
fn test_push_then_pop_round_trip() {
    // A pushed list comes back as an equal value through define/reference,
    // copied deeply rather than shared.
    let list = Token::List(vec![Token::Number(1), Token::String("two".into())]);
    let (mut scopes, mut main_scope) = init_env(vec![list, Token::Symbol("l".into())]);
    parse_symbol(&mut scopes, &mut main_scope, "def").unwrap();
    parse_symbol(&mut scopes, &mut main_scope, "$l").unwrap();
    parse_symbol(&mut scopes, &mut main_scope, "$l").unwrap();
    let expected = Token::List(vec![Token::Number(1), Token::String("two".into())]);
    assert_eq!(main_scope.stack.len(), 2);
    assert_eq!(expected, main_scope.stack[0]);
    assert_eq!(expected, main_scope.stack[1]);
}

#[test]
fn test_parse_pushes_literals_and_dispatches_symbols() {
    let mut scopes = ScopeTable::new();
    let root = Scope::new(&mut scopes, None);
    let mut frames = vec![root];
    parse(&mut scopes, &mut frames, Token::Number(12)).unwrap();
    parse(&mut scopes, &mut frames, Token::Number(2)).unwrap();
    parse(&mut scopes, &mut frames, Token::Symbol("+".into())).unwrap();
    assert_eq!(1, frames.len());
    assert_eq!(vec![Token::Number(14)], frames[0].stack);
}

#[test]
fn test_parse_with_no_frame_is_empty_stack() {
    let mut scopes = ScopeTable::new();
    let mut frames: Vec<Scope> = Vec::new();
    let res = parse(&mut scopes, &mut frames, Token::Number(1));
    assert_eq!(Err(Error::EmptyStack), res);
}

#[test]
fn test_scope_result_becomes_new_frame() {
    let mut scopes = ScopeTable::new();
    let root = Scope::new(&mut scopes, None);
    let inner = Scope::new(&mut scopes, Some(root.id));
    let inner_id = inner.id;
    let mut frames = vec![root];
    // Bind the nested scope to a name, then reference it: the reference
    // makes it the current frame instead of pushing it.
    parse(&mut scopes, &mut frames, Token::Scope(inner)).unwrap();
    parse(&mut scopes, &mut frames, Token::Symbol("s".into())).unwrap();
    parse(&mut scopes, &mut frames, Token::Symbol("def".into())).unwrap();
    assert_eq!(1, frames.len());
    parse(&mut scopes, &mut frames, Token::Symbol("$s".into())).unwrap();
    assert_eq!(2, frames.len());
    assert_eq!(inner_id, frames[1].id);
    assert_eq!(Stack::new(), frames[0].stack);
}

#[test]
fn test_new_scopes_have_distinct_ids() {
    let mut scopes = ScopeTable::new();
    let a = Scope::new(&mut scopes, None);
    let b = Scope::new(&mut scopes, None);
    let c = Scope::new(&mut scopes, Some(a.id));
    assert_ne!(a.id, b.id);
    assert_ne!(a.id, c.id);
    assert_ne!(b.id, c.id);
    assert!(scopes.contains_id(a.id));
    assert!(scopes.contains_id(b.id));
    assert!(scopes.contains_id(c.id));
}

#[test]
fn test_scope_parent_links() {
    let mut scopes = ScopeTable::new();
    let root = Scope::new(&mut scopes, None);
    let child = Scope::new(&mut scopes, Some(root.id));
    assert!(!root.has_parent());
    assert!(child.has_parent());
    assert_eq!(None, root.parent_id());
    assert_eq!(Some(root.id), child.parent_id());
    assert_eq!(child.id, child.id());
    let table = scopes.get_table(child.id);
    assert_eq!(Some(root.id), table.get_parent_id());
    match table.get(PARENT) {
        Some(Token::Id(p)) => assert_eq!(root.id, *p),
        other => panic!("reserved entry missing or malformed: {:?}", other),
    }
}

#[test]
fn test_lookup_steps() {
    let mut scopes = ScopeTable::new();
    let mut root = Scope::new(&mut scopes, None);
    root.stack = vec![Token::Number(1), Token::Symbol("v".into())];
    parse_symbol(&mut scopes, &mut root, "def").unwrap();
    let child = Scope::new(&mut scopes, Some(root.id));
    match scopes.lookup(root.id, "$v") {
        Lookup::Found(f) => assert_eq!(root.id, f),
        _ => panic!("binding not found in its own scope"),
    }
    match scopes.lookup(child.id, "$v") {
        Lookup::CheckParent(p) => assert_eq!(root.id, p),
        _ => panic!("child should defer to its parent"),
    }
    match scopes.lookup(root.id, "$w") {
        Lookup::NotFound => (),
        _ => panic!("an unbound name in a root scope is not found"),
    }
    assert_eq!(Ok(root.id), scopes.find_symbol(child.id, "$v"));
    assert_eq!(
        Err(Error::UnknownIdentifier),
        scopes.find_symbol(child.id, "$w")
    );
}

#[test]
fn test_symbol_table_insert_and_get() {
    let mut table = SymbolTable::new();
    assert!(table.get("a").is_none());
    table.insert("a".into(), Token::Number(1));
    table.insert("b".into(), Token::Number(2));
    table.insert("a".into(), Token::Number(3));
    assert_eq!(Some(&Token::Number(3)), table.get("a"));
    assert_eq!(Some(&Token::Number(2)), table.get("b"));
    assert!(table.contains_key("a"));
    assert!(!table.contains_key("c"));
    assert_eq!(None, table.get_parent_id());
}

#[test]
fn test_token_getters() {
    assert_eq!(Ok(5), Token::Number(5).get_number());
    assert_eq!(Err(Error::ArgumentMismatch), Token::Boolean(true).get_number());
    assert_eq!(Ok("s".to_string()), Token::Symbol("s".into()).get_symbol());
    assert_eq!(Err(Error::ArgumentMismatch), Token::Number(1).get_symbol());
    assert_eq!(Ok("t".to_string()), Token::String("t".into()).get_string());
    assert_eq!(Ok(true), Token::Boolean(true).get_boolean());
    assert_eq!(Ok(7), Token::Id(7).get_id());
    assert_eq!(
        Ok(vec![Token::Number(1)]),
        Token::List(vec![Token::Number(1)]).get_list()
    );
    assert!(Token::Number(1).is_number());
    assert!(Token::Symbol("x".into()).is_symbol());
    assert!(Token::String("x".into()).is_string());
    assert!(Token::Boolean(false).is_boolean());
    assert!(Token::Id(1).is_id());
    assert!(Token::List(Stack::new()).is_list());
    assert!(Token::Void.is_void());
    assert!(!Token::Void.is_number());
    let sc = Token::Scope(Scope { parent: None, id: 1, stack: Stack::new() });
    assert!(sc.is_scope());
    match sc.get_scope() {
        Ok(s) => assert_eq!(1, s.id),
        Err(_) => panic!("a scope token yields its scope"),
    }
}

#[test]
fn test_deep_clone_is_a_copy() {
    let original = Token::List(vec![
        Token::Number(1),
        Token::List(vec![Token::String("nested".into())]),
        Token::Scope(Scope { parent: None, id: 4, stack: vec![Token::Boolean(true)] }),
    ]);
    let copy = original.deep_clone();
    assert_eq!(original, copy);
}

#[test]
fn test_builtin_registry() {
    assert!(builtin("+").is_some());
    assert!(builtin("-").is_some());
    assert!(builtin("*").is_some());
    assert!(builtin("/").is_some());
    assert!(builtin("neg").is_some());
    assert!(builtin("copy").is_some());
    assert!(builtin("if").is_some());
    assert!(builtin("def").is_some());
    assert!(builtin("set").is_some());
    assert!(builtin("nonsense").is_none());
    assert_eq!(0, builtin("copy").unwrap().arity);
    assert_eq!(3, builtin("if").unwrap().arity);
}

#[test]
fn test_invoke_checks_arity() {
    let mut scopes = ScopeTable::new();
    let mut root = Scope::new(&mut scopes, None);
    let cb = builtin("+").unwrap();
    let res = cb.invoke(&mut scopes, &mut root, vec![Token::Number(1)]);
    assert_eq!(Err(Error::ArityMismatch), res);
    let res = cb.invoke(
        &mut scopes,
        &mut root,
        vec![Token::Number(1), Token::Number(2)],
    );
    assert_eq!(Ok(Token::Number(3)), res);
}

#[test]
fn test_wrapping_arithmetic() {
    let (mut scopes, mut main_scope) =
        init_env(vec![Token::Number(i64::MAX), Token::Number(1)]);
    let res = parse_symbol(&mut scopes, &mut main_scope, "+");
    assert!(res.is_ok());
    assert_eq!(vec![Token::Number(i64::MIN)], main_scope.stack);
}
