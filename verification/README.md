# PINP - Pinp Is Not Python

A small indentation-structured language, front end and lowering verified with Verus.

- `src/` is the library. A program goes from text to tokens (`lexer`), to a syntax tree
  (`parser`), through type checking (`sema`) and static checks (`analysis`), and down to an
  intermediate representation (`codegen`). `runtime` holds the strings that running programs use.
  Every function has a contract, and Verus proves it.
- `tests/` runs the library.
- `app/` is the command around it: it replays the intermediate representation through LLVM, runs
  it in a JIT, and prints the program's value.

What each stage computes is stated as functions on mathematical values: `parser::grammar` for
programs as sequences of tokens, `sema` for types, `analysis` for control flow and the facts along
it, `codegen::lowering` for the instructions of each construct.

The laws that span stages stand beside them: `parser::trees` (what is parsed is a tree), `typing`
(the types recorded are the types found), `codegen::validity` (what is lowered is valid),
`codegen::soundness` (what is checked can be lowered), `codegen::meaning` (what ranges and indices
compute), `token_stream` and `line_ends` (what every list of tokens is like), and
`codegen::results` (what a compiled program on whole numbers and strings computes) and
`codegen::ownership` (that it releases every string it makes). These rest on `codegen::evaluation`
(what such programs mean), `codegen::execution` (a machine that runs the code),
`codegen::building` and `codegen::joining` (what lowering adds to code), and `codegen::effects` and
`codegen::texts` (what the added code does when it runs).
