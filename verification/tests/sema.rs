//! Type checking.

use pinp::parser::{Ast, BinOp, Node, PinpType, Stmt, TopLevel, parse};
use pinp::sema::{SemaError, analyze};

/// Parse + analyze, returning the typed AST (panicking on any error).
fn analyzed(src: &str) -> Ast<'_> {
    let mut ast = parse(src).expect("source should parse");
    analyze(&mut ast).expect("source should analyze");
    ast
}

/// Parse (expecting success) then analyze, returning the semantic error.
fn sema_error(src: &str) -> SemaError {
    let mut ast = parse(src).expect("source should parse");
    analyze(&mut ast).expect_err("analysis should fail")
}

/// Type of the program's final top-level expression.
fn root_type(src: &str) -> PinpType {
    let ast = analyzed(src);
    match ast.top_level.last().unwrap() {
        TopLevel::Stmt(Stmt::Expr(expr_id)) => ast.type_of(*expr_id),
        TopLevel::Stmt(Stmt::Assign { values, .. }) => ast.type_of(*values.last().unwrap()),
        other => panic!("program does not end in an expression: {other:?}"),
    }
}

// --- type inference ------------------------------------------------------------------

#[test]
fn arithmetic_type_rules() {
    assert_eq!(root_type("2 + 3"), PinpType::Int);
    assert_eq!(root_type("10 / 4"), PinpType::Float);
    assert_eq!(root_type("10 div 4"), PinpType::Int);
    assert_eq!(root_type("7 mod 3"), PinpType::Int);
    assert_eq!(root_type("2 ^ 10"), PinpType::Int);
    assert_eq!(root_type("2.0 ^ 10"), PinpType::Float);
    assert_eq!(root_type("-3.14"), PinpType::Float);
}

#[test]
fn int_promotes_to_float() {
    assert_eq!(
        root_type("a = 2\n2.0 * a\n"),
        PinpType::Float
    );
}

#[test]
fn assignment_then_reference() {
    let ast = analyzed("a = 2 + 3\na * a\n");
    let TopLevel::Stmt(Stmt::Expr(expr_id)) = ast.top_level.last().unwrap() else {
        panic!("expected an expression statement");
    };
    assert!(matches!(
        ast.node(*expr_id),
        Node::Bin { op: BinOp::Mul, .. }
    ));
    assert_eq!(ast.type_of(*expr_id), PinpType::Int);
}

#[test]
fn reassignment_to_incompatible_type_is_error() {
    // Decision (0004): assignment is checked uniformly — re-binding to a non-assignable
    // type is an error, just like a compound assignment. `Float` is not assignable to `Int`.
    assert!(matches!(
        sema_error("a = 1\na = 2.0\n"),
        SemaError::Type(_)
    ));
}

#[test]
fn parallel_assignment_introduces_each_target() {
    // `a` (Int) and `b` (Float) are both defined and usable afterwards.
    assert_eq!(
        root_type("a, b = 1, 2.0\na\n"),
        PinpType::Int
    );
    assert_eq!(
        root_type("a, b = 1, 2.0\nb\n"),
        PinpType::Float
    );
}

#[test]
fn chained_assignment_types_all_targets_from_value() {
    assert_eq!(
        root_type("a = b = 2.0\na + b\n"),
        PinpType::Float
    );
}

#[test]
fn parallel_assignment_mutates_existing_targets() {
    // Pre-existing Int `a`,`b`; a swap re-binds both (type-checked), staying Int.
    assert_eq!(
        root_type("a = 1\nb = 2\na, b = b, a\na\n"),
        PinpType::Int
    );
}

#[test]
fn parallel_assignment_rejects_void_value() {
    // `noop` is void (its body is an `else`-less `if`, which is Void); binding its result fails.
    assert!(matches!(
        sema_error("noop(c: bool) is\n    if c\n        0\na, b = 1, noop(true)\n"),
        SemaError::Type(_)
    ));
}

#[test]
fn parallel_assignment_type_mismatch_is_error() {
    // `a` is Int; re-binding it to a Float in a parallel assignment is rejected.
    assert!(matches!(
        sema_error("a = 1\na, b = 2.0, 3\n"),
        SemaError::Type(_)
    ));
}

#[test]
fn parallel_assignment_to_unknown_global_is_error() {
    // A `::global` target must already exist, even in a multi-target assignment.
    assert!(matches!(
        sema_error("a, ::g = 1, 2"),
        SemaError::UnknownSymbol(_)
    ));
}

#[test]
fn reassignment_promotes_into_float_slot() {
    // `a` is Float; re-assigning an Int value is fine (Int promotes), and `a` stays Float.
    assert_eq!(
        root_type("a = 1.0\na = 2\na\n"),
        PinpType::Float
    );
}

// --- bool, comparisons & logicals ----------------------------------------------------

#[test]
fn bool_literal_and_logicals() {
    assert_eq!(root_type("true"), PinpType::Bool);
    assert_eq!(root_type("true and false"), PinpType::Bool);
    assert_eq!(root_type("true or false xor true"), PinpType::Bool);
    assert_eq!(root_type("not true"), PinpType::Bool);
}

#[test]
fn comparisons_yield_bool() {
    assert_eq!(root_type("1 < 2"), PinpType::Bool);
    assert_eq!(root_type("1.0 >= 2"), PinpType::Bool);
    assert_eq!(root_type("true == false"), PinpType::Bool);
    assert_eq!(root_type("1 < 2 < 3"), PinpType::Bool); // chained
}

#[test]
fn bool_promotes_in_arithmetic() {
    assert_eq!(root_type("true + false"), PinpType::Int); // bool -> int
    assert_eq!(root_type("true + 1"), PinpType::Int);
    assert_eq!(root_type("true + 1.0"), PinpType::Float);
    assert_eq!(root_type("-true"), PinpType::Int); // unary minus promotes bool to int
}

#[test]
fn bool_assignable_to_numeric_slot() {
    // bool flows into an int/float return slot, but not the reverse.
    assert_eq!(
        root_type("f(a: bool): int is a\nf(true)\n"),
        PinpType::Int
    );
    assert!(matches!(
        sema_error("f(a: int): bool is a"),
        SemaError::Type(_)
    ));
}

#[test]
fn logical_on_non_bool_is_error() {
    assert!(matches!(sema_error("1 and 2"), SemaError::Type(_)));
    assert!(matches!(sema_error("not 1"), SemaError::Type(_)));
}

#[test]
fn bool_function_signature() {
    assert_eq!(
        root_type("fu(a: bool, b: bool): bool is a and b or a xor b\nfu(true, false)\n"),
        PinpType::Bool
    );
}

// --- control flow --------------------------------------------------------------------

#[test]
fn if_expression_type_is_branch_join() {
    assert_eq!(root_type("1 if true else 2"), PinpType::Int);
    assert_eq!(root_type("1 if true else 2.0"), PinpType::Float); // join(Int, Float)
    assert_eq!(root_type("true if false else false"), PinpType::Bool);
}

#[test]
fn condition_must_be_bool() {
    assert!(matches!(sema_error("1 if 5 else 2"), SemaError::Type(_)));
    assert!(matches!(
        sema_error("i = 0\nwhile i\n    i += 1\ni\n"),
        SemaError::Type(_)
    ));
}

#[test]
fn if_without_else_is_void_and_unusable_as_value() {
    assert!(matches!(
        sema_error("x = 0\nx = if true\n    1\n"),
        SemaError::Type(_)
    ));
}

#[test]
fn body_local_does_not_escape() {
    // `m` is introduced inside the if-body, so it is not in scope afterwards.
    assert!(matches!(
        sema_error("if true\n    m = 1\nm\n"),
        SemaError::UnknownSymbol(_)
    ));
}

#[test]
fn conditional_update_mutates_outer() {
    // `m` exists before the `if`; assigning it inside mutates that binding, so `m` stays in
    // scope (and Int) afterwards.
    assert_eq!(
        root_type("m = 5\nif true\n    m = 7\nm\n"),
        PinpType::Int
    );
}

#[test]
fn bare_loop_counter_type_checks() {
    assert_eq!(
        root_type("i = 0\nwhile i < 3\n    i += 1\ni\n"),
        PinpType::Int
    );
}

// --- error cases ---------------------------------------------------------------------

#[test]
fn float_div_is_type_error() {
    assert!(matches!(sema_error("2.0 div 1"), SemaError::Type(_)));
}

#[test]
fn unassigned_symbol_is_error() {
    assert!(matches!(sema_error("x + 1"), SemaError::UnknownSymbol(_)));
}

#[test]
fn call_typechecks() {
    assert_eq!(
        root_type("sq(x: int): int is x*x\nsq(5)\n"),
        PinpType::Int
    );
}

#[test]
fn call_arg_promotes_int_to_float() {
    assert_eq!(
        root_type("f(x: float): float is x\nf(3)\n"),
        PinpType::Float
    );
}

#[test]
fn call_arity_mismatch_is_error() {
    assert!(matches!(
        sema_error("sq(x: int): int is x*x\nsq(1, 2)\n"),
        SemaError::Type(_)
    ));
}

#[test]
fn call_arg_type_mismatch_is_error() {
    assert!(matches!(
        sema_error("sq(x: int): int is x*x\nsq(1.5)\n"),
        SemaError::Type(_)
    ));
}

#[test]
fn call_before_definition_is_error() {
    assert!(matches!(
        sema_error("foo(1)\nfoo(x: int): int is x\n"),
        SemaError::UnknownSymbol(_)
    ));
}

#[test]
fn bare_name_does_not_see_global() {
    assert!(matches!(
        sema_error("g = 10\nf(a: int): int is a + g\n"),
        SemaError::UnknownSymbol(_)
    ));
}

#[test]
fn compound_assign_local() {
    assert_eq!(
        root_type("f(a: int): int is\n    b = a\n    b += 1\n    b\nf(1)\n"),
        PinpType::Int
    );
}

#[test]
fn compound_div_breaks_int_place() {
    // `b` is Int; `b /= 2` yields Float, not assignable back to Int.
    assert!(matches!(
        sema_error("f(a: int): int is\n    b = a\n    b /= 2\n    b\n"),
        SemaError::Type(_)
    ));
}

#[test]
fn void_function_with_value_body_is_error() {
    assert!(matches!(
        sema_error("f(a: int) is\n    a + 1\n"),
        SemaError::Type(_)
    ));
}

#[test]
fn return_float_to_int_is_error() {
    assert!(matches!(
        sema_error("f(a: float): int is a"),
        SemaError::Type(_)
    ));
}

#[test]
fn void_parameter_is_error() {
    // `void` is the no-return marker, not a value type, so it cannot be a parameter.
    assert!(matches!(
        sema_error("f(a: void): int is 1"),
        SemaError::Type(_)
    ));
}

#[test]
fn global_access_and_compound_assign() {
    assert_eq!(
        root_type("g = 10\nbump(a: int): int is\n    ::g += 1\n    a + ::g\nbump(5)\n"),
        PinpType::Int
    );
}

#[test]
fn branches_meet_at_the_least_type_that_holds_both() {
    assert_eq!(root_type("true if true else 2"), PinpType::Int);
    assert_eq!(root_type("true if true else false"), PinpType::Bool);
    assert_eq!(root_type("1.5 if true else false"), PinpType::Float);
}

// --- strings -------------------------------------------------------------------------

#[test]
fn plus_with_a_string_joins() {
    assert_eq!(root_type("'a' + 'b'"), PinpType::Str);
    assert_eq!(root_type("'a' + 1"), PinpType::Str);
    assert_eq!(root_type("1 + 2 + 'a'"), PinpType::Str);
    assert_eq!(root_type("true + 'x'"), PinpType::Str);
    assert_eq!(root_type("1.5 + 'x' + 2"), PinpType::Str);
    assert!(matches!(sema_error("'a' - 1"), SemaError::Type(_)));
}

#[test]
fn strings_compare_with_strings_only() {
    assert_eq!(root_type("'a' < 'b'"), PinpType::Bool);
    assert_eq!(root_type("'a' == 'b'"), PinpType::Bool);
    assert!(matches!(sema_error("'a' == 1"), SemaError::Type(_)));
}

#[test]
fn built_ins_need_no_definition() {
    assert_eq!(root_type("str(5)"), PinpType::Str);
    assert_eq!(root_type("str('a')"), PinpType::Str);
    assert_eq!(root_type("str(1 < 2) + '!'"), PinpType::Str);
    analyzed("meminfo()\n1\n");
    for src in ["str()", "str(1, 2)", "meminfo(1)", "str(meminfo())"] {
        sema_error(src);
    }
}

#[test]
fn a_defined_function_comes_before_a_built_in() {
    assert_eq!(root_type("str(n: int): int is\n    n + 1\nstr(5)\n"), PinpType::Int);
}

#[test]
fn constructs_without_a_typing_rule_are_refused() {
    for src in ["[1, 2]", "1 in 1..2", "for i in 1..3\n    i\n", "identity(2, int)"] {
        if let Ok(mut ast) = parse(src) {
            analyze(&mut ast).expect_err("analysis should fail");
        }
    }
}
