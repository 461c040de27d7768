//! The structure of parsed programs: expressions, assignment, functions and blocks.

use pinp::parser::{Ast, BinOp, ExprId, FuncDef, Node, ParseError, PinpType, Place, Stmt, TopLevel, UnOp, parse};

fn parse_ok(src: &str) -> Ast<'_> {
    parse(src).unwrap()
}

fn func<'ast>(ast: &'ast Ast, index: usize) -> &'ast FuncDef {
    match &ast.top_level[index] {
        TopLevel::Func(func_def) => func_def,
        other => panic!("Top-level element {index} is not a function: {other:?}."),
    }
}

// ExprId of the last top-level statement's expression.
fn root(ast: &Ast) -> ExprId {
    match ast.top_level.last().unwrap() {
        TopLevel::Stmt(Stmt::Expr(expr_id)) => *expr_id,
        TopLevel::Stmt(Stmt::Assign { values, .. }) => *values.last().unwrap(),
        other => panic!("Program does not end in an expression: {other:?}."),
    }
}

// --- expression structure ------------------------------------------------------------

#[test]
fn parser_precedence_mul_over_add() {
    let ast = parse_ok("2 + 3 * 4");
    let Node::Bin {
        op: BinOp::Add,
        lhs,
        rhs,
    } = *ast.node(root(&ast))
    else {
        panic!("Expected an Add node at the root.");
    };
    assert_eq!(*ast.node(lhs), Node::Int(2));
    assert!(matches!(ast.node(rhs), Node::Bin { op: BinOp::Mul, .. }));
}

#[test]
fn parser_power_is_right_assoc() {
    let ast = parse_ok("2 ^ 2 ^ 3");
    let Node::Bin {
        op: BinOp::Pow,
        lhs,
        rhs,
    } = *ast.node(root(&ast))
    else {
        panic!("Expected a Pow node at the root.");
    };
    assert_eq!(*ast.node(lhs), Node::Int(2));
    assert!(matches!(ast.node(rhs), Node::Bin { op: BinOp::Pow, .. }));
}

#[test]
fn parser_unary_minus_binds_below_power() {
    let ast = parse_ok("-2 ^ 2");
    let Node::Unary {
        op: UnOp::Neg,
        operand,
    } = *ast.node(root(&ast))
    else {
        panic!("Expected a unary Neg node at the root.");
    };
    assert!(matches!(
        ast.node(operand),
        Node::Bin { op: BinOp::Pow, .. }
    ));
}

#[test]
fn parser_paren_grouping() {
    let ast = parse_ok("(2 + 3) * 4");
    let Node::Bin {
        op: BinOp::Mul,
        lhs,
        ..
    } = *ast.node(root(&ast))
    else {
        panic!("Expected a Mul node at the root.");
    };
    assert!(matches!(ast.node(lhs), Node::Bin { op: BinOp::Add, .. }));
}

#[test]
fn parser_grouped_int_literal_value() {
    let ast = parse_ok("12_000_321");
    assert_eq!(*ast.node(root(&ast)), Node::Int(12_000_321));
}

#[test]
fn parser_compound_assign_desugars_to_read_and_op() {
    // `b += 1` becomes `b = (b + 1)`: a single-target Assign whose value is a Bin reading `b`.
    let ast = parse_ok("b = 1\nb += 1\n");
    let TopLevel::Stmt(Stmt::Assign {
        target_lists,
        values, ..
    }) = ast.top_level.last().unwrap()
    else {
        panic!("Expected a desugared local assignment.");
    };
    assert_eq!(target_lists.len(), 1);
    assert!(matches!(target_lists[0].as_slice(), [Place::Local(_)]));
    let Node::Bin {
        op: BinOp::Add,
        lhs,
        ..
    } = *ast.node(values[0])
    else {
        panic!("Expected the value to be an Add.");
    };
    assert!(matches!(ast.node(lhs), Node::Var(_)));
}

// --- multiple-target assignment ------------------------------------------------------

fn last_assign<'a>(ast: &'a Ast) -> (&'a Vec<Vec<Place>>, &'a Vec<ExprId>) {
    let TopLevel::Stmt(Stmt::Assign {
        target_lists,
        values, ..
    }) = ast.top_level.last().unwrap()
    else {
        panic!("Expected an assignment statement.");
    };
    (target_lists, values)
}

#[test]
fn parser_parallel_assignment_shape() {
    let ast = parse_ok("a, b = 1, 2");
    let (target_lists, values) = last_assign(&ast);
    assert_eq!(target_lists.len(), 1);
    assert_eq!(target_lists[0].len(), 2);
    assert_eq!(values.len(), 2);
}

#[test]
fn parser_chained_assignment_shape() {
    let ast = parse_ok("a = b = c = 0");
    let (target_lists, values) = last_assign(&ast);
    assert_eq!(target_lists.len(), 3); // a, b, c each their own group
    assert!(target_lists.iter().all(|group| group.len() == 1));
    assert_eq!(values.len(), 1);
}

#[test]
fn parser_combined_parallel_and_chained_shape() {
    let ast = parse_ok("a, b = c, d = 1, 2");
    let (target_lists, values) = last_assign(&ast);
    assert_eq!(target_lists.len(), 2);
    assert!(target_lists.iter().all(|group| group.len() == 2));
    assert_eq!(values.len(), 2);
}

#[test]
fn parser_single_assignment_is_degenerate_multi() {
    let ast = parse_ok("a = 1");
    let (target_lists, values) = last_assign(&ast);
    assert_eq!(target_lists.len(), 1);
    assert_eq!(target_lists[0].len(), 1);
    assert_eq!(values.len(), 1);
}

#[test]
fn parser_arity_mismatch_is_error() {
    assert!(matches!(parse("a, b = 1"), Err(ParseError::Unexpected(_))));
    assert!(matches!(
        parse("a, b = c = 1, 2"),
        Err(ParseError::Unexpected(_))
    ));
}

#[test]
fn parser_non_place_target_is_error() {
    assert!(matches!(parse("1 = 2"), Err(ParseError::Unexpected(_))));
    assert!(matches!(parse("a + b = 1"), Err(ParseError::Unexpected(_))));
}

#[test]
fn parser_compound_assign_in_multi_target_is_error() {
    // Compound assignment is single-target only; `a, b += 1, 2` is rejected.
    assert!(matches!(
        parse("a, b += 1, 2"),
        Err(ParseError::Unexpected(_))
    ));
}

#[test]
fn parser_bare_comma_list_without_assignment_is_error() {
    assert!(matches!(parse("a, b"), Err(ParseError::Unexpected(_))));
}

// --- multiple-target assignment: line continuation -----------------------------------
// These keep explicit `\n` + literal spaces: the exact alignment column is what is under test.

#[test]
fn parser_rhs_continuation_aligned_parses() {
    // `1` is at column 8; the continued `2` aligns under it (7 leading spaces).
    let ast = parse_ok("a, b = 1,\n       2");
    let (_, values) = last_assign(&ast);
    assert_eq!(values.len(), 2);
}

#[test]
fn parser_lhs_continuation_aligned_parses() {
    // The LHS wraps via a trailing comma; the continuation is at the same indent.
    let ast = parse_ok("a,\nb = 1, 2");
    let (target_lists, _) = last_assign(&ast);
    assert_eq!(target_lists[0].len(), 2);
}

#[test]
fn parser_continuation_inside_function_body_parses() {
    // The RHS continuation is indented past the body, exercising the pending-dedent path.
    let ast = parse_ok("f(): int is\n    a, b = 1,\n           2\n    a + b");
    let Stmt::Assign { values, .. } = &func(&ast, 0).body.stmts[0] else {
        panic!("Expected an assignment in the body.");
    };
    assert_eq!(values.len(), 2);
}

#[test]
fn parser_misaligned_continuation_is_error() {
    // `2` does not align to `1`'s column (8).
    assert!(matches!(
        parse("a, b = 1,\n  2"),
        Err(ParseError::Layout(_))
    ));
}

#[test]
fn parser_comma_starting_a_line_is_error() {
    assert!(matches!(
        parse("a, b\n, c = 1, 2, 3"),
        Err(ParseError::Layout(_))
    ));
}

#[test]
fn parser_trailing_comma_without_continuation_is_error() {
    assert!(matches!(
        parse("a, b = 1, 2,\n"),
        Err(ParseError::Layout(_))
    ));
}

// --- bool literals, logical & comparison operators -----------------------------------

#[test]
fn parser_bool_literals() {
    let true_ast = parse_ok("true");
    assert_eq!(*true_ast.node(root(&true_ast)), Node::Bool(true));
    let false_ast = parse_ok("false");
    assert_eq!(*false_ast.node(root(&false_ast)), Node::Bool(false));
}

#[test]
fn parser_logical_precedence_and_xor_or() {
    // `and` (30) > `xor` (25) > `or` (20): `a and b or a xor b` = `(a and b) or (a xor b)`.
    let ast = parse_ok("a and b or a xor b");
    let Node::Bin {
        op: BinOp::Or,
        lhs,
        rhs,
    } = *ast.node(root(&ast))
    else {
        panic!("Expected an Or at the root.");
    };
    assert!(matches!(ast.node(lhs), Node::Bin { op: BinOp::And, .. }));
    assert!(matches!(ast.node(rhs), Node::Bin { op: BinOp::Xor, .. }));
}

#[test]
fn parser_not_is_unary_tight() {
    // C precedence: `not` binds tighter than every infix op, so `not a == b` = `(not a) == b`.
    let ast = parse_ok("not a == b");
    let Node::Bin {
        op: BinOp::Eq, lhs, ..
    } = *ast.node(root(&ast))
    else {
        panic!("Expected an Eq at the root.");
    };
    assert!(matches!(ast.node(lhs), Node::Unary { op: UnOp::Not, .. }));
}

#[test]
fn parser_not_chains() {
    let ast = parse_ok("not not a");
    let Node::Unary {
        op: UnOp::Not,
        operand,
    } = *ast.node(root(&ast))
    else {
        panic!("Expected a Not at the root.");
    };
    assert!(matches!(
        ast.node(operand),
        Node::Unary { op: UnOp::Not, .. }
    ));
}

#[test]
fn parser_comparison_binds_looser_than_arithmetic() {
    // `a + b < c` = `(a + b) < c`.
    let ast = parse_ok("a + b < c");
    let Node::Bin {
        op: BinOp::Lt, lhs, ..
    } = *ast.node(root(&ast))
    else {
        panic!("Expected a Lt at the root.");
    };
    assert!(matches!(ast.node(lhs), Node::Bin { op: BinOp::Add, .. }));
}

#[test]
fn parser_lone_comparison_has_no_and() {
    let ast = parse_ok("a > b");
    assert!(matches!(
        ast.node(root(&ast)),
        Node::Bin { op: BinOp::Gt, .. }
    ));
}

#[test]
fn parser_chained_comparison_desugars_with_shared_operand() {
    // `a < b < c` => `(a < b) and (b < c)`, with the middle `b` shared (same ExprId).
    let ast = parse_ok("a < b < c");
    let Node::Bin {
        op: BinOp::And,
        lhs,
        rhs,
    } = *ast.node(root(&ast))
    else {
        panic!("Expected an And at the root.");
    };
    let Node::Bin {
        op: BinOp::Lt,
        rhs: left_b,
        ..
    } = *ast.node(lhs)
    else {
        panic!("Expected the first comparison to be a Lt.");
    };
    let Node::Bin {
        op: BinOp::Lt,
        lhs: right_b,
        ..
    } = *ast.node(rhs)
    else {
        panic!("Expected the second comparison to be a Lt.");
    };
    assert_eq!(
        left_b, right_b,
        "the shared middle operand must reuse one ExprId"
    );
}

#[test]
fn parser_monotonic_chains_parse() {
    parse_ok("a <= b < c");
    parse_ok("d >= e >= f > g");
    parse_ok("a == b == c");
}

#[test]
fn parser_non_monotonic_chains_are_errors() {
    assert!(matches!(parse("a < b > c"), Err(ParseError::Unexpected(_))));
    assert!(matches!(
        parse("a <= b == c"),
        Err(ParseError::Unexpected(_))
    ));
    assert!(matches!(
        parse("a != b != c"),
        Err(ParseError::Unexpected(_))
    ));
}

// --- control flow: `if` expression, `while`/`loop` statements ------------------------

#[test]
fn parser_ternary_binds_below_or() {
    // `a or b if c else d` = `(a or b) if c else d`.
    let ast = parse_ok("a or b if c else d");
    let Node::If { arms, else_block } = ast.node(root(&ast)) else {
        panic!("Expected an If at the root.");
    };
    assert_eq!(arms.len(), 1);
    let then = arms[0].body.result.unwrap();
    assert!(matches!(ast.node(then), Node::Bin { op: BinOp::Or, .. }));
    assert!(else_block.is_some());
}

#[test]
fn parser_ternary_else_tail_is_right_associative() {
    // `a if p else b if q else c` = `a if p else (b if q else c)`.
    let ast = parse_ok("a if p else b if q else c");
    let Node::If { else_block, .. } = ast.node(root(&ast)) else {
        panic!("Expected an If at the root.");
    };
    let tail = else_block.as_ref().unwrap().result.unwrap();
    assert!(matches!(ast.node(tail), Node::If { .. }));
}

#[test]
fn parser_wrapped_conditional_alignment() {
    // The `else` line must align to the column where the then-expression (`42`) starts.
    parse_ok("fu = 42 + 142 if a > 42\n     else 42");
    assert!(matches!(
        parse("fu = 42 + 142 if a > 42\n   else 42"),
        Err(ParseError::Layout(_))
    ));
}

#[test]
fn parser_block_if_shape() {
    let ast = parse_ok("if a > b\n    a\nelif a == b\n    b\nelse\n    c\n");
    let Node::If { arms, else_block } = ast.node(root(&ast)) else {
        panic!("Expected an If at the root.");
    };
    assert_eq!(arms.len(), 2); // `if` + one `elif`
    assert!(else_block.is_some());
    assert!(arms[0].body.result.is_some());
}

#[test]
fn parser_block_if_as_function_result() {
    let ast = parse_ok("mx(a: int, b: int): int is\n    if a > b\n        a\n    else\n        b\n");
    let func_def = func(&ast, 0);
    assert!(matches!(
        ast.node(func_def.body.result.unwrap()),
        Node::If { .. }
    ));
}

#[test]
fn parser_while_and_loop_shapes() {
    let w = parse_ok("while a > 0\n    a\n");
    assert!(matches!(w.top_level[0], TopLevel::Stmt(Stmt::While { .. })));

    let l = parse_ok("loop\n    a\nwhile a > 0\n");
    assert!(matches!(
        l.top_level[0],
        TopLevel::Stmt(Stmt::Loop { until: false, .. })
    ));

    let u = parse_ok("loop\n    a\nuntil a > 0\n");
    assert!(matches!(
        u.top_level[0],
        TopLevel::Stmt(Stmt::Loop { until: true, .. })
    ));
}

#[test]
fn parser_body_ending_in_statement_has_no_result() {
    let ast = parse_ok("while a > 0\n    b = 1\n");
    let TopLevel::Stmt(Stmt::While { body, .. }) = &ast.top_level[0] else {
        panic!("Expected a while statement.");
    };
    assert_eq!(body.stmts.len(), 1);
    assert!(body.result.is_none());
}

#[test]
fn parser_loop_without_trailing_condition_is_error() {
    assert!(matches!(
        parse("loop\n    a\nb\n"),
        Err(ParseError::Unexpected(_))
    ));
}

#[test]
fn parser_deeply_nested_input_errors_rather_than_overflowing() {
    // Thousands of nested parens would blow the stack without the depth guard; instead the
    // parser bails fast with an error well before the real stack is exhausted.
    let deep = format!("{}1{}", "(".repeat(5_000), ")".repeat(5_000));
    assert!(matches!(parse(&deep), Err(ParseError::TooDeeplyNested(_))));
}

#[test]
fn parser_moderately_nested_input_still_parses() {
    // Well under the limit — ordinary (if unusual) nesting must keep working.
    let nested = format!("{}1{}", "(".repeat(50), ")".repeat(50));
    assert!(parse(&nested).is_ok());
}

#[test]
fn parser_excessive_if_arms_are_rejected() {
    // A flat `elif` ladder past the arm cap is refused (a sanity bound, not a stack risk).
    let mut src = String::from("if a > 0\n    1\n");
    for _ in 0..300 {
        src.push_str("elif a > 0\n    1\n");
    }
    src.push_str("else\n    1\n");
    assert!(matches!(parse(&src), Err(ParseError::TooManyArms(_))));
}

#[test]
fn parser_bool_type_annotation() {
    let ast = parse_ok("f(a: bool): bool is a");
    assert_eq!(func(&ast, 0).params[0].param_type, PinpType::Bool);
    assert_eq!(func(&ast, 0).return_type, PinpType::Bool);
}

// --- function & program structure ----------------------------------------------------

#[test]
fn parser_single_line_function() {
    let ast = parse_ok("fu(a:float, b:float, c:float): float is b^2 - 4*a*c");
    let func_def = func(&ast, 0);
    assert_eq!(ast.names[func_def.name.value()], "fu");
    assert_eq!(func_def.params.len(), 3);
    assert!(
        func_def
            .params
            .iter()
            .all(|param| param.param_type == PinpType::Float)
    );
    assert_eq!(func_def.return_type, PinpType::Float);
    assert!(func_def.body.stmts.is_empty());

    // Omitting the return type on the single-line form is an explicit, specific error —
    // it must name the missing return type, not fall back to a generic syntax message.
    let Err(err) = parse("fu(a: float) is a") else {
        panic!("Expected a missing-return-type error, but parsing succeeded.");
    };
    assert!(
        matches!(&err, ParseError::Unexpected(msg) if msg.contains("return type")),
        "Expected an explicit missing-return-type error, got {err:?}."
    );
}

#[test]
fn parser_block_function_with_local() {
    let ast = parse_ok("_fu_bar_baz_1(a:int, b:int): int is\n    xx = a+b*b\n    xx\n");
    let func_def = func(&ast, 0);
    assert_eq!(func_def.params.len(), 2);
    assert_eq!(func_def.return_type, PinpType::Int);
    assert_eq!(func_def.body.stmts.len(), 1);
    assert!(matches!(func_def.body.stmts[0], Stmt::Assign { .. }));
}

#[test]
fn parser_multiline_params_aligned() {
    // `bb` aligns under `aa` (both column 3).
    let ast = parse_ok("f(aa: float,\n  bb: float): float is aa^2 + bb^2");
    assert_eq!(func(&ast, 0).params.len(), 2);
}

#[test]
fn parser_block_body_trailing_call_shape() {
    // A block body's trailing expression `b + fu(b)` is a `Bin` whose rhs is a call.
    let ast = parse_ok("fu(a: int): int is a + 2\nbar(b: int): int is\n    b + fu(b)\n");
    let bar = func(&ast, 1);
    let Node::Bin { rhs, .. } = *ast.node(bar.body.result.unwrap()) else {
        panic!("Expected the body to end in a binary expression.");
    };
    assert!(matches!(ast.node(rhs), Node::Call { .. }));
}

#[test]
fn parser_global_compound_assign_desugars_to_global_target() {
    let ast = parse_ok("g = 10\nbump(a: int): int is\n    ::g += 1\n    a + ::g\n");
    let Stmt::Assign { target_lists, .. } = &func(&ast, 1).body.stmts[0] else {
        panic!("Expected a global compound assignment.");
    };
    assert_eq!(target_lists.len(), 1);
    assert!(matches!(target_lists[0].as_slice(), [Place::Global(_)]));
}

#[test]
fn parser_return_type_annotation_resolved() {
    let ast = parse_ok("f(a: int): float is a");
    assert_eq!(func(&ast, 0).return_type, PinpType::Float);
}

#[test]
fn parser_program_shape_with_several_top_level() {
    let ast = parse_ok("g = 100\nsq(x: int): int is x*x\nbump(a: int): int is\n    ::g += 1\n    a + ::g + sq(2)\nsq(3)\n");
    assert_eq!(ast.top_level.len(), 4);
    assert!(matches!(ast.top_level[0], TopLevel::Stmt(_)));
    assert!(matches!(ast.top_level[1], TopLevel::Func(_)));
    assert!(matches!(ast.top_level[2], TopLevel::Func(_)));
    assert!(matches!(ast.top_level[3], TopLevel::Stmt(_)));
}

// --- syntactic / structural errors ---------------------------------------------------

#[test]
fn parser_misaligned_param_is_error() {
    // `bb` is one column past `aa`.
    assert!(matches!(
        parse("f(aa: int,\n   bb: int): int is aa+bb"),
        Err(ParseError::Layout(_))
    ));
}

#[test]
fn parser_duplicate_param_is_error() {
    assert!(matches!(
        parse("f(a: int, a: int): int is a"),
        Err(ParseError::Unexpected(_))
    ));
}

#[test]
fn parser_unknown_type_name_is_error() {
    assert!(matches!(
        parse("f(a: blah): int is a"),
        Err(ParseError::Unexpected(_))
    ));
}

#[test]
fn parser_integer_literal_overflow_is_error() {
    // Lexically valid but out of i64 range, in every base — rejected, not panicked.
    assert!(matches!(
        parse("99999999999999999999"),
        Err(ParseError::Unexpected(_))
    )); // decimal > i64::MAX
    assert!(matches!(
        parse("0xFFFF_FFFF_FFFF_FFFF_F"),
        Err(ParseError::Unexpected(_))
    )); // 68-bit hex
    assert!(matches!(parse("9E99"), Err(ParseError::Unexpected(_)))); // mantissa*10^exp overflows
    let wide_binary = format!("0b{}", "1".repeat(65));
    assert!(matches!(
        parse(&wide_binary),
        Err(ParseError::Unexpected(_))
    )); // 65-bit binary
}

#[test]
fn parser_max_int_literal_is_accepted() {
    let ast = parse_ok("9223372036854775807"); // i64::MAX
    assert_eq!(*ast.node(root(&ast)), Node::Int(i64::MAX));
}

#[test]
fn a_zero_stays_zero_however_it_is_scaled() {
    let ast = parse_ok("0E19");
    assert_eq!(*ast.node(root(&ast)), Node::Int(0));
    let ast = parse_ok("0E400");
    assert_eq!(*ast.node(root(&ast)), Node::Int(0));
    assert!(parse("1E19").is_err());
    let ast = parse_ok("9E18");
    assert_eq!(*ast.node(root(&ast)), Node::Int(9_000_000_000_000_000_000));
}
