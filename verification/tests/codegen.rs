//! The shape of lowered programs.

use pinp::codegen::ir::{Callee, FunctionName, Inst, IrType, Module, RuntimeFn};
use pinp::codegen::{CodegenError, generate};
use pinp::parser::{PinpType, parse};
use pinp::sema::analyze;

/// Parses, checks and lowers `src`.
fn lowered(src: &str) -> Module {
    let mut ast = parse(src).unwrap();
    analyze(&mut ast).unwrap();
    generate(&ast).unwrap().0
}

/// How many times a module calls a native function by this name.
fn call_count(module: &Module, name: &str) -> usize {
    module
        .insts
        .iter()
        .filter(|inst| match inst {
            Inst::Call {
                callee: Callee::Runtime(function),
                ..
            } => function.name() == name,
            _ => false,
        })
        .count()
}

#[test]
fn pinp_str_is_two_eightbytes_in_ir() {
    let module = lowered("greet(): str is 'hi'\ngreet()\n");
    assert_eq!(RuntimeFn::StrFromCstr.result(), Some(IrType::Str));
    assert_eq!(RuntimeFn::StrFromCstr.params(), vec![IrType::Ptr]);
    assert_eq!(call_count(&module, "pinp_str_from_cstr"), 1);
    let greet = module
        .functions
        .iter()
        .find(|function| matches!(function.name, FunctionName::Named(_)))
        .unwrap();
    assert_eq!(greet.result, PinpType::Str);
    assert!(greet.params.is_empty());
}

#[test]
fn a_concat_chain_lowers_to_a_single_call() {
    // The flatten bonus: `a + b + c + d` is one N-way concatenation (one allocation), not three
    // pairwise ones.
    let module = lowered("'a' + 'b' + 'c' + 'd'");
    assert_eq!(call_count(&module, "pinp_str_concat_n"), 1);
    assert_eq!(call_count(&module, "pinp_str_concat"), 0);
}

#[test]
fn an_fstring_lowers_to_a_single_call() {
    let module = lowered("a = 'x'\nb = 2\nf'<{a}|{b}>'\n");
    assert_eq!(call_count(&module, "pinp_str_concat_n"), 1);
}

#[test]
fn a_program_of_a_range_is_refused() {
    let mut ast = parse("1..3").unwrap();
    // A range has no place in the checker's types yet, so the tree is typed by hand.
    for index in 0..ast.types.len() {
        ast.types[index] = PinpType::Int;
    }
    let last = ast.types.len() - 1;
    ast.types[last] = PinpType::Range;
    let error = generate(&ast).unwrap_err();
    assert_eq!(error, CodegenError::RangeResult);
    assert_eq!(error.message(), "A program cannot evaluate to a range.");
}
