//! The state of a lowering, and the single steps that change it.
//!
//! A [`CodeGen`] is a cursor over a module under construction: it appends instructions to the block
//! it stands in, opens blocks and moves between them, and keeps the scopes that names resolve in.
//! Nothing is undone when lowering goes wrong; the first failure is kept, and it is the outcome.
//!
//! [`Lowering`] is the same state as a mathematical value. Every step has a spec function here that
//! says what it makes of that value, and everything lowered is a composition of these steps.

use vstd::prelude::*;

use super::ir::{
    Callee, FunctionName, Inst, InstView, IrBlock, IrBlockView, IrFunction, IrFunctionView,
    IrGlobal, IrType, Module, ModuleView, Op, RuntimeFn, Value, function_views, inst_views,
    ir_block_views, text_views,
};
use super::validity::countable;
use crate::parser::ast::{Ast, AstView, PinpType, SymId};
use crate::symbols::{SymbolMap, map_get, map_insert, symbol_map};

verus! {

/// Why a program could not be lowered.
#[derive(Debug, Clone, Copy, PartialEq, Eq, Structural)]
pub enum CodegenError {
    /// A value was needed of an expression that yields none.
    VoidValue,
    /// The program's last value is a range.
    RangeResult,
    /// The tree does not have the types its shape calls for: it has not been checked.
    Malformed,
}

impl CodegenError {
    /// The error in words.
    pub fn message(self) -> (r: &'static str)
        ensures
            r@ == (match self {
                CodegenError::VoidValue => "Expected a value but the expression is void."@,
                CodegenError::RangeResult => "A program cannot evaluate to a range."@,
                CodegenError::Malformed => "The program has not been type-checked."@,
            }),
    {
        match self {
            CodegenError::VoidValue => "Expected a value but the expression is void.",
            CodegenError::RangeResult => "A program cannot evaluate to a range.",
            CodegenError::Malformed => "The program has not been type-checked.",
        }
    }
}

/// Where a name's value lives, and its type.
#[derive(Debug, Clone, Copy, PartialEq, Eq, Structural)]
pub struct Slot {
    pub place: Value,
    pub value_type: PinpType,
}

// ---------------------------------------------------------------------------
// The state as a value
// ---------------------------------------------------------------------------

/// A lowering in progress: what has been emitted, the block being emitted into, and the names in
/// scope, innermost frame last.
pub struct Lowering {
    pub insts: Seq<InstView>,
    pub blocks: Seq<IrBlockView>,
    pub functions: Seq<IrFunctionView>,
    pub globals: Seq<IrGlobal>,
    pub texts: Seq<Seq<char>>,
    pub floats: Seq<Seq<char>>,
    pub current: usize,
    pub frames: Seq<Map<u32, Slot>>,
    pub global_slots: Map<u32, Slot>,
    pub callables: Map<u32, usize>,
    pub in_function: bool,
    pub failure: Option<CodegenError>,
}

/// A checked program: its tree and the type of every expression.
pub struct Program {
    pub ast: AstView,
    pub types: Seq<PinpType>,
}

/// Nothing lowered yet.
pub open spec fn nothing_lowered() -> Lowering {
    Lowering {
        insts: Seq::empty(),
        blocks: Seq::empty(),
        functions: Seq::empty(),
        globals: Seq::empty(),
        texts: Seq::empty(),
        floats: Seq::empty(),
        current: 0,
        frames: Seq::empty(),
        global_slots: Map::empty(),
        callables: Map::empty(),
        in_function: false,
        failure: None,
    }
}

/// The value of the instruction emitted next.
#[verifier::opaque]
pub open spec fn next_value(s: Lowering) -> Value {
    Value::Inst(s.insts.len() as usize)
}

/// An instruction at the end of the current block.
#[verifier::opaque]
pub open spec fn emitted(s: Lowering, inst: InstView) -> Lowering {
    let id = s.insts.len() as usize;
    let block = s.blocks[s.current as int];
    Lowering {
        insts: s.insts.push(inst),
        blocks: if s.current < s.blocks.len() {
            s.blocks.update(
                s.current as int,
                IrBlockView { insts: block.insts.push(id), ..block },
            )
        } else {
            s.blocks
        },
        ..s
    }
}

/// An instruction with fixed operands at the end of the current block.
pub open spec fn op(s: Lowering, inst: Op) -> Lowering {
    emitted(s, InstView::Op(inst))
}

/// A call at the end of the current block.
pub open spec fn called(s: Lowering, callee: Callee, args: Seq<Value>) -> Lowering {
    emitted(s, InstView::Call(callee, args))
}

/// The block the current function starts in.
pub open spec fn entry_block(s: Lowering) -> Option<usize> {
    if s.current >= s.blocks.len() {
        None
    } else {
        let function = s.blocks[s.current as int].function;
        if function >= s.functions.len() {
            None
        } else {
            match s.functions[function as int].entry {
                None => None,
                Some(entry) => if entry < s.blocks.len() {
                    Some(entry)
                } else {
                    None
                },
            }
        }
    }
}

/// An instruction `at` that place in the current function's first block, ahead of what stands
/// there.
#[verifier::opaque]
pub open spec fn entered(s: Lowering, at: usize, inst: Op) -> Lowering {
    let id = s.insts.len() as usize;
    Lowering {
        insts: s.insts.push(InstView::Op(inst)),
        blocks: match entry_block(s) {
            None => s.blocks,
            Some(entry) => {
                let block = s.blocks[entry as int];
                if at <= block.insts.len() {
                    s.blocks.update(
                        entry as int,
                        IrBlockView { insts: block.insts.insert(at as int, id), ..block },
                    )
                } else {
                    s.blocks
                }
            },
        },
        ..s
    }
}

/// The block opened next.
#[verifier::opaque]
pub open spec fn next_block(s: Lowering) -> usize {
    s.blocks.len() as usize
}

/// The function being emitted into: the one the current block belongs to.
pub open spec fn current_function(s: Lowering) -> usize {
    if s.current < s.blocks.len() {
        s.blocks[s.current as int].function
    } else {
        0
    }
}

/// A block more in the current function. Emission stays where it is.
#[verifier::opaque]
pub open spec fn block_appended(s: Lowering, label: Seq<char>) -> Lowering {
    Lowering {
        blocks: s.blocks.push(
            IrBlockView { function: current_function(s), label, insts: Seq::empty() },
        ),
        ..s
    }
}

/// Emission goes on at the end of `block`.
#[verifier::opaque]
pub open spec fn positioned(s: Lowering, block: usize) -> Lowering {
    Lowering { current: block, ..s }
}

/// The block being emitted into.
#[verifier::opaque]
pub open spec fn insert_block(s: Lowering) -> usize {
    s.current
}

/// A constant text more.
#[verifier::opaque]
pub open spec fn text_added(s: Lowering, content: Seq<char>) -> Lowering {
    Lowering { texts: s.texts.push(content), ..s }
}

#[verifier::opaque]
pub open spec fn next_text(s: Lowering) -> Value {
    Value::Text(s.texts.len() as usize)
}

/// A float constant more, by its digits.
#[verifier::opaque]
pub open spec fn float_added(s: Lowering, digits: Seq<char>) -> Lowering {
    Lowering { floats: s.floats.push(digits), ..s }
}

#[verifier::opaque]
pub open spec fn next_float(s: Lowering) -> Value {
    Value::Float(s.floats.len() as usize)
}

/// The first failure is the one that counts.
#[verifier::opaque]
pub open spec fn failed(s: Lowering, error: CodegenError) -> Lowering {
    Lowering {
        failure: match s.failure {
            None => Some(error),
            Some(first) => Some(first),
        },
        ..s
    }
}

/// A fresh innermost scope.
#[verifier::opaque]
pub open spec fn scope_pushed(s: Lowering) -> Lowering {
    Lowering { frames: s.frames.push(Map::empty()), ..s }
}

/// Back to the enclosing scope.
#[verifier::opaque]
pub open spec fn scope_popped(s: Lowering) -> Lowering {
    Lowering {
        frames: if s.frames.len() > 0 {
            s.frames.drop_last()
        } else {
            s.frames
        },
        ..s
    }
}

/// A name bound in the innermost scope.
#[verifier::opaque]
pub open spec fn name_bound(s: Lowering, sym_id: SymId, slot: Slot) -> Lowering {
    Lowering {
        frames: if s.frames.len() > 0 {
            s.frames.update(s.frames.len() - 1, s.frames.last().insert(sym_id.0, slot))
        } else {
            s.frames
        },
        ..s
    }
}

/// The nearest binding of a symbol in the frames below `top`.
pub open spec fn nearest(frames: Seq<Map<u32, Slot>>, top: int, sym: u32) -> Option<Slot>
    decreases top,
{
    if top <= 0 || top > frames.len() {
        None
    } else if frames[top - 1].contains_key(sym) {
        Some(frames[top - 1][sym])
    } else {
        nearest(frames, top - 1, sym)
    }
}

/// The nearest enclosing local binding of a symbol.
#[verifier::opaque]
pub open spec fn local_slot(s: Lowering, sym_id: SymId) -> Option<Slot> {
    nearest(s.frames, s.frames.len() as int, sym_id.0)
}

/// The global a symbol names.
#[verifier::opaque]
pub open spec fn global_slot(s: Lowering, sym_id: SymId) -> Option<Slot> {
    if s.global_slots.contains_key(sym_id.0) {
        Some(s.global_slots[sym_id.0])
    } else {
        None
    }
}

/// What a symbol is bound to in the innermost scope itself.
#[verifier::opaque]
pub open spec fn innermost_slot(s: Lowering, sym: u32) -> Option<Slot> {
    if s.frames.len() > 0 && s.frames.last().contains_key(sym) {
        Some(s.frames.last()[sym])
    } else {
        None
    }
}

/// A global more, and the name it goes by.
#[verifier::opaque]
pub open spec fn global_added(s: Lowering, name: SymId, value_type: PinpType) -> Lowering {
    Lowering {
        globals: s.globals.push(IrGlobal { name, value_type }),
        global_slots: s.global_slots.insert(
            name.0,
            Slot { place: Value::Global(s.globals.len() as usize), value_type },
        ),
        ..s
    }
}

/// A function more. One with a name can be called by it, in place of an earlier one of that name.
#[verifier::opaque]
pub open spec fn function_added(
    s: Lowering,
    name: FunctionName,
    params: Seq<PinpType>,
    result: PinpType,
) -> Lowering {
    Lowering {
        functions: s.functions.push(IrFunctionView { name, params, result, entry: None }),
        callables: match name {
            FunctionName::Named(sym_id) => s.callables.insert(
                sym_id.0,
                s.functions.len() as usize,
            ),
            FunctionName::Entry => s.callables,
        },
        ..s
    }
}

#[verifier::opaque]
pub open spec fn next_function(s: Lowering) -> usize {
    s.functions.len() as usize
}

/// The function a symbol names.
#[verifier::opaque]
pub open spec fn callable(s: Lowering, sym_id: SymId) -> Option<usize> {
    if s.callables.contains_key(sym_id.0) && s.callables[sym_id.0] < s.functions.len() {
        Some(s.callables[sym_id.0])
    } else {
        None
    }
}

/// The signature of a function that can be called.
#[verifier::opaque]
pub open spec fn signature(s: Lowering, function: usize) -> (Seq<PinpType>, PinpType) {
    (s.functions[function as int].params, s.functions[function as int].result)
}

/// Emission into the body of `function`, in a block of its own, with no names in scope yet. A
/// function starts in the first of these blocks.
#[verifier::opaque]
pub open spec fn body_begun(s: Lowering, function: usize, in_function: bool) -> Lowering {
    let block = s.blocks.len() as usize;
    Lowering {
        blocks: s.blocks.push(IrBlockView { function, label: "entry"@, insts: Seq::empty() }),
        functions: if function < s.functions.len() {
            s.functions.update(
                function as int,
                IrFunctionView {
                    entry: match s.functions[function as int].entry {
                        None => Some(block),
                        Some(first) => Some(first),
                    },
                    ..s.functions[function as int]
                },
            )
        } else {
            s.functions
        },
        current: block,
        frames: seq![Map::empty()],
        in_function,
        ..s
    }
}

/// Whether emission is in a function of the program rather than at the top level.
#[verifier::opaque]
pub open spec fn inside_function(s: Lowering) -> bool {
    s.in_function
}

// ---------------------------------------------------------------------------
// The steps
// ---------------------------------------------------------------------------

/// Lowers a checked program. Every function of the program becomes a function of the module,
/// top-level bindings become module globals, and the top-level statements go into an entry function
/// that writes the program's final value to the address it is given.
pub struct CodeGen<'ast, 'src> {
    ast: &'ast Ast<'src>,
    insts: Vec<Inst>,
    blocks: Vec<IrBlock>,
    functions: Vec<IrFunction>,
    globals: Vec<IrGlobal>,
    texts: Vec<String>,
    floats: Vec<String>,
    current: usize,
    /// A function (or the entry) starts with a base frame, and every control-flow body pushes
    /// another. A bare name is looked up from the innermost frame outwards, so an assignment
    /// changes the nearest enclosing local, while a name new to all frames becomes local to its
    /// body.
    frames: Vec<SymbolMap<Slot>>,
    global_slots: SymbolMap<Slot>,
    callables: SymbolMap<usize>,
    in_function: bool,
    failure: Option<CodegenError>,
}

spec fn frame_views(frames: Seq<SymbolMap<Slot>>) -> Seq<Map<u32, Slot>> {
    Seq::new(frames.len(), |i: int| frames[i]@)
}

impl<'ast, 'src> CodeGen<'ast, 'src> {
    /// The state as a value.
    pub closed spec fn state(self) -> Lowering {
        Lowering {
            insts: inst_views(self.insts@),
            blocks: ir_block_views(self.blocks@),
            functions: function_views(self.functions@),
            globals: self.globals@,
            texts: text_views(self.texts@),
            floats: text_views(self.floats@),
            current: self.current,
            frames: frame_views(self.frames@),
            global_slots: self.global_slots@,
            callables: self.callables@,
            in_function: self.in_function,
            failure: self.failure,
        }
    }

    /// The program being lowered.
    pub closed spec fn program(self) -> Program {
        Program { ast: self.ast@, types: self.ast.types@ }
    }

    /// The program is well-formed, and `limit` expressions of it may be named.
    pub open spec fn ready(self, limit: int) -> bool {
        &&& self.program().ast.well_formed()
        &&& self.program().types.len() == self.program().ast.nodes.len()
        &&& 0 <= limit <= self.program().ast.nodes.len()
    }

    pub(super) fn tree(&self) -> (ast: &'ast Ast<'src>)
        ensures
            ast@ == self.program().ast,
            ast.types@ == self.program().types,
    {
        self.ast
    }

    /// An empty module for a program.
    pub(super) fn new(ast: &'ast Ast<'src>) -> (codegen: Self)
        ensures
            codegen.program() == (Program { ast: ast@, types: ast.types@ }),
            codegen.state() == nothing_lowered(),
    {
        let codegen = CodeGen {
            ast,
            insts: Vec::new(),
            blocks: Vec::new(),
            functions: Vec::new(),
            globals: Vec::new(),
            texts: Vec::new(),
            floats: Vec::new(),
            current: 0,
            frames: Vec::new(),
            global_slots: symbol_map(),
            callables: symbol_map(),
            in_function: false,
            failure: None,
        };
        proof {
            assert(codegen.state().insts =~= Seq::empty());
            assert(codegen.state().blocks =~= Seq::empty());
            assert(codegen.state().functions =~= Seq::empty());
            assert(codegen.state().texts =~= Seq::empty());
            assert(codegen.state().floats =~= Seq::empty());
            assert(codegen.state().frames =~= Seq::empty());
        }
        codegen
    }

    fn push_inst(&mut self, inst: Inst) -> (value: Value)
        ensures
            final(self).program() == old(self).program(),
            value == next_value(old(self).state()),
            final(self).state() == emitted(old(self).state(), inst@),
    {
        proof {
            reveal(next_value);
            reveal(emitted);
        }
        let ghost before = self.state();
        let id: usize = self.insts.len();
        self.insts.push(inst);
        assert(inst_views(self.insts@) =~= before.insts.push(inst@));
        if self.current < self.blocks.len() {
            let current: usize = self.current;
            self.blocks[current].insts.push(id);
            assert(ir_block_views(self.blocks@) =~= before.blocks.update(
                current as int,
                IrBlockView {
                    insts: before.blocks[current as int].insts.push(id),
                    ..before.blocks[current as int]
                },
            ));
        }
        Value::Inst(id)
    }

    pub(super) fn emit(&mut self, inst: Op) -> (value: Value)
        ensures
            final(self).program() == old(self).program(),
            value == next_value(old(self).state()),
            final(self).state() == op(old(self).state(), inst),
    {
        self.push_inst(Inst::Op(inst))
    }

    pub(super) fn call(&mut self, callee: Callee, args: Vec<Value>) -> (value: Value)
        ensures
            final(self).program() == old(self).program(),
            value == next_value(old(self).state()),
            final(self).state() == called(old(self).state(), callee, args@),
    {
        self.push_inst(Inst::Call { callee, args })
    }

    /// A call of a native function with no arguments.
    pub(super) fn call0(&mut self, function: RuntimeFn) -> (value: Value)
        ensures
            final(self).program() == old(self).program(),
            value == next_value(old(self).state()),
            final(self).state() == called(
                old(self).state(),
                Callee::Runtime(function),
                Seq::empty(),
            ),
    {
        self.call(Callee::Runtime(function), Vec::new())
    }

    /// A call of a native function with one argument.
    pub(super) fn call1(&mut self, function: RuntimeFn, a: Value) -> (value: Value)
        ensures
            final(self).program() == old(self).program(),
            value == next_value(old(self).state()),
            final(self).state() == called(old(self).state(), Callee::Runtime(function), seq![a]),
    {
        let mut args: Vec<Value> = Vec::new();
        args.push(a);
        assert(args@ =~= seq![a]);
        self.call(Callee::Runtime(function), args)
    }

    /// A call of a native function with two arguments.
    pub(super) fn call2(&mut self, function: RuntimeFn, a: Value, b: Value) -> (value: Value)
        ensures
            final(self).program() == old(self).program(),
            value == next_value(old(self).state()),
            final(self).state() == called(old(self).state(), Callee::Runtime(function), seq![a, b]),
    {
        let mut args: Vec<Value> = Vec::new();
        args.push(a);
        args.push(b);
        assert(args@ =~= seq![a, b]);
        self.call(Callee::Runtime(function), args)
    }

    /// A call of a native function with three arguments.
    pub(super) fn call3(&mut self, function: RuntimeFn, a: Value, b: Value, c: Value) -> (value:
        Value)
        ensures
            final(self).program() == old(self).program(),
            value == next_value(old(self).state()),
            final(self).state() == called(
                old(self).state(),
                Callee::Runtime(function),
                seq![a, b, c],
            ),
    {
        let mut args: Vec<Value> = Vec::new();
        args.push(a);
        args.push(b);
        args.push(c);
        assert(args@ =~= seq![a, b, c]);
        self.call(Callee::Runtime(function), args)
    }

    pub(super) fn phi(&mut self, ir_type: IrType, incomings: Vec<(Value, usize)>) -> (value: Value)
        ensures
            final(self).program() == old(self).program(),
            value == next_value(old(self).state()),
            final(self).state() == emitted(
                old(self).state(),
                InstView::Phi(ir_type, incomings@),
            ),
    {
        self.push_inst(Inst::Phi { ir_type, incomings })
    }

    /// A value that depends on which of two blocks control came from.
    pub(super) fn phi2(&mut self, ir_type: IrType, a: Value, from_a: usize, b: Value, from_b: usize) -> (
    value: Value)
        ensures
            final(self).program() == old(self).program(),
            value == next_value(old(self).state()),
            final(self).state() == emitted(
                old(self).state(),
                InstView::Phi(ir_type, seq![(a, from_a), (b, from_b)]),
            ),
    {
        let mut incomings: Vec<(Value, usize)> = Vec::new();
        incomings.push((a, from_a));
        incomings.push((b, from_b));
        assert(incomings@ =~= seq![(a, from_a), (b, from_b)]);
        self.phi(ir_type, incomings)
    }

    /// Places an instruction in the current function's first block, so that it runs once on entry
    /// and dominates every use.
    pub(super) fn enter(&mut self, at: usize, inst: Op) -> (value: Value)
        ensures
            final(self).program() == old(self).program(),
            value == next_value(old(self).state()),
            final(self).state() == entered(old(self).state(), at, inst),
    {
        proof {
            reveal(next_value);
            reveal(entered);
        }
        let ghost before = self.state();
        let id: usize = self.insts.len();
        self.insts.push(Inst::Op(inst));
        assert(inst_views(self.insts@) =~= before.insts.push(InstView::Op(inst)));
        if self.current < self.blocks.len() {
            let function: usize = self.blocks[self.current].function;
            if function < self.functions.len() {
                assert(before.functions[function as int] == self.functions@[function as int]@);
                if let Some(entry) = self.functions[function].entry {
                    if entry < self.blocks.len() && at <= self.blocks[entry].insts.len() {
                        self.blocks[entry].insts.insert(at, id);
                        assert(ir_block_views(self.blocks@) =~= before.blocks.update(
                            entry as int,
                            IrBlockView {
                                insts: before.blocks[entry as int].insts.insert(at as int, id),
                                ..before.blocks[entry as int]
                            },
                        ));
                    }
                }
            }
        }
        Value::Inst(id)
    }

    pub(super) fn append_block(&mut self, label: &'static str) -> (block: usize)
        ensures
            final(self).program() == old(self).program(),
            block == next_block(old(self).state()),
            final(self).state() == block_appended(old(self).state(), label@),
    {
        proof {
            reveal(next_block);
            reveal(block_appended);
        }
        let ghost before = self.state();
        let block: usize = self.blocks.len();
        let function: usize = if self.current < self.blocks.len() {
            self.blocks[self.current].function
        } else {
            0
        };
        self.blocks.push(IrBlock { function, label, insts: Vec::new() });
        assert(ir_block_views(self.blocks@) =~= before.blocks.push(
            IrBlockView { function, label: label@, insts: Seq::empty() },
        ));
        block
    }

    pub(super) fn position_at_end(&mut self, block: usize)
        ensures
            final(self).program() == old(self).program(),
            final(self).state() == positioned(old(self).state(), block),
    {
        proof {
            reveal(positioned);
        }
        self.current = block;
    }

    pub(super) fn get_insert_block(&self) -> (block: usize)
        ensures
            block == insert_block(self.state()),
    {
        proof {
            reveal(insert_block);
        }
        self.current
    }

    /// A NUL-terminated constant.
    pub(super) fn global_string_ptr(&mut self, content: &str) -> (value: Value)
        ensures
            final(self).program() == old(self).program(),
            value == next_text(old(self).state()),
            final(self).state() == text_added(old(self).state(), content@),
    {
        proof {
            reveal(next_text);
            reveal(text_added);
        }
        let ghost before = self.state();
        let id: usize = self.texts.len();
        self.texts.push(String::from_str(content));
        assert(text_views(self.texts@) =~= before.texts.push(content@));
        Value::Text(id)
    }

    /// A float constant, by its digits.
    pub(super) fn const_float(&mut self, digits: &str) -> (value: Value)
        ensures
            final(self).program() == old(self).program(),
            value == next_float(old(self).state()),
            final(self).state() == float_added(old(self).state(), digits@),
    {
        proof {
            reveal(next_float);
            reveal(float_added);
        }
        let ghost before = self.state();
        let id: usize = self.floats.len();
        self.floats.push(String::from_str(digits));
        assert(text_views(self.floats@) =~= before.floats.push(digits@));
        Value::Float(id)
    }

    pub(super) fn fail(&mut self, error: CodegenError)
        ensures
            final(self).program() == old(self).program(),
            final(self).state() == failed(old(self).state(), error),
    {
        proof {
            reveal(failed);
        }
        if self.failure.is_none() {
            self.failure = Some(error);
        }
    }

    pub(super) fn push_scope(&mut self)
        ensures
            final(self).program() == old(self).program(),
            final(self).state() == scope_pushed(old(self).state()),
    {
        proof {
            reveal(scope_pushed);
        }
        let ghost before = self.state();
        self.frames.push(symbol_map());
        assert(frame_views(self.frames@) =~= before.frames.push(Map::empty()));
    }

    pub(super) fn pop_scope(&mut self)
        ensures
            final(self).program() == old(self).program(),
            final(self).state() == scope_popped(old(self).state()),
    {
        proof {
            reveal(scope_popped);
        }
        let ghost before = self.state();
        let _ = self.frames.pop();
        proof {
            if before.frames.len() > 0 {
                assert(frame_views(self.frames@) =~= before.frames.drop_last());
            }
        }
    }

    pub(super) fn bind(&mut self, sym_id: SymId, slot: Slot)
        ensures
            final(self).program() == old(self).program(),
            final(self).state() == name_bound(old(self).state(), sym_id, slot),
    {
        proof {
            reveal(name_bound);
        }
        let ghost before = self.state();
        match self.frames.pop() {
            Some(mut frame) => {
                map_insert(&mut frame, sym_id.0, slot);
                self.frames.push(frame);
                assert(frame_views(self.frames@) =~= before.frames.update(
                    before.frames.len() - 1,
                    before.frames.last().insert(sym_id.0, slot),
                ));
            },
            None => {},
        }
    }

    /// The nearest enclosing local binding, searched innermost first; never a global.
    pub(super) fn find_local(&self, sym_id: SymId) -> (r: Option<Slot>)
        ensures
            r == local_slot(self.state(), sym_id),
    {
        proof {
            reveal(local_slot);
        }
        let mut top: usize = self.frames.len();
        while top > 0
            invariant
                top <= self.frames@.len(),
                local_slot(self.state(), sym_id) == nearest(
                    self.state().frames,
                    top as int,
                    sym_id.0,
                ),
            decreases top,
        {
            assert(self.state().frames[top - 1] == self.frames@[top - 1]@);
            match map_get(&self.frames[top - 1], sym_id.0) {
                Some(slot) => {
                    return Some(*slot);
                },
                None => {},
            }
            top = top - 1;
        }
        None
    }

    pub(super) fn find_global(&self, sym_id: SymId) -> (r: Option<Slot>)
        ensures
            r == global_slot(self.state(), sym_id),
    {
        proof {
            reveal(global_slot);
        }
        match map_get(&self.global_slots, sym_id.0) {
            Some(slot) => Some(*slot),
            None => None,
        }
    }

    pub(super) fn find_innermost(&self, sym: u32) -> (r: Option<Slot>)
        ensures
            r == innermost_slot(self.state(), sym),
    {
        proof {
            reveal(innermost_slot);
        }
        let depth: usize = self.frames.len();
        if depth == 0 {
            return None;
        }
        assert(self.state().frames.last() == self.frames@[depth - 1]@);
        match map_get(&self.frames[depth - 1], sym) {
            Some(slot) => Some(*slot),
            None => None,
        }
    }

    pub(super) fn add_global(&mut self, name: SymId, value_type: PinpType)
        ensures
            final(self).program() == old(self).program(),
            final(self).state() == global_added(old(self).state(), name, value_type),
    {
        proof {
            reveal(global_added);
        }
        let place: Value = Value::Global(self.globals.len());
        self.globals.push(IrGlobal { name, value_type });
        map_insert(&mut self.global_slots, name.0, Slot { place, value_type });
    }

    pub(super) fn add_function(
        &mut self,
        name: FunctionName,
        params: Vec<PinpType>,
        result: PinpType,
    ) -> (function: usize)
        ensures
            final(self).program() == old(self).program(),
            function == next_function(old(self).state()),
            final(self).state() == function_added(old(self).state(), name, params@, result),
    {
        proof {
            reveal(next_function);
            reveal(function_added);
        }
        let ghost before = self.state();
        let ghost params_view = params@;
        let function: usize = self.functions.len();
        self.functions.push(IrFunction { name, params, result, entry: None });
        assert(function_views(self.functions@) =~= before.functions.push(
            IrFunctionView { name, params: params_view, result, entry: None },
        ));
        if let FunctionName::Named(sym_id) = name {
            map_insert(&mut self.callables, sym_id.0, function);
        }
        function
    }

    pub(super) fn find_function(&self, sym_id: SymId) -> (r: Option<usize>)
        ensures
            r == callable(self.state(), sym_id),
            r matches Some(function) ==> self.declared(function),
    {
        proof {
            reveal(callable);
        }
        match map_get(&self.callables, sym_id.0) {
            Some(function) => if *function < self.functions.len() {
                Some(*function)
            } else {
                None
            },
            None => None,
        }
    }

    pub closed spec fn declared(self, function: usize) -> bool {
        function < self.functions@.len()
    }

    /// How many parameters a function has, and the type of what it hands back.
    pub(super) fn arity(&self, function: usize) -> (r: (usize, PinpType))
        requires
            self.declared(function),
        ensures
            r.0 == signature(self.state(), function).0.len(),
            r.1 == signature(self.state(), function).1,
    {
        proof {
            reveal(signature);
        }
        assert(self.state().functions[function as int] == self.functions@[function as int]@);
        (self.functions[function].params.len(), self.functions[function].result)
    }

    /// The parameter types of a function.
    pub(super) fn param_types(&self, function: usize) -> (r: Vec<PinpType>)
        requires
            self.declared(function),
        ensures
            r@ == signature(self.state(), function).0,
    {
        proof {
            reveal(signature);
        }
        assert(self.state().functions[function as int] == self.functions@[function as int]@);
        let params: &Vec<PinpType> = &self.functions[function].params;
        let mut copy: Vec<PinpType> = Vec::new();
        let mut index: usize = 0;
        while index < params.len()
            invariant
                index <= params@.len(),
                copy@ == params@.take(index as int),
            decreases params@.len() - index,
        {
            copy.push(params[index]);
            index = index + 1;
            assert(copy@ =~= params@.take(index as int));
        }
        assert(copy@ =~= params@);
        copy
    }

    /// Starts the body of a function.
    pub(super) fn begin_body(&mut self, function: usize, in_function: bool)
        ensures
            final(self).program() == old(self).program(),
            final(self).state() == body_begun(old(self).state(), function, in_function),
    {
        proof {
            reveal(body_begun);
        }
        let ghost before = self.state();
        let block: usize = self.blocks.len();
        self.blocks.push(IrBlock { function, label: "entry", insts: Vec::new() });
        assert(ir_block_views(self.blocks@) =~= before.blocks.push(
            IrBlockView { function, label: "entry"@, insts: Seq::empty() },
        ));
        if function < self.functions.len() {
            assert(before.functions[function as int] == self.functions@[function as int]@);
            if self.functions[function].entry.is_none() {
                self.functions[function].entry = Some(block);
            }
            assert(function_views(self.functions@) =~= before.functions.update(
                function as int,
                IrFunctionView {
                    entry: match before.functions[function as int].entry {
                        None => Some(block),
                        Some(first) => Some(first),
                    },
                    ..before.functions[function as int]
                },
            ));
        }
        self.current = block;
        let mut frames: Vec<SymbolMap<Slot>> = Vec::new();
        frames.push(symbol_map());
        assert(frame_views(frames@) =~= seq![Map::empty()]);
        self.frames = frames;
        self.in_function = in_function;
    }

    /// The finished module, or the first failure.
    pub(super) fn into_module(self) -> (r: Result<Module, CodegenError>)
        ensures
            countable(self.state()),
            match r {
                Ok(module) => self.state().failure is None && module@ == (ModuleView {
                    insts: self.state().insts,
                    blocks: self.state().blocks,
                    functions: self.state().functions,
                    globals: self.state().globals,
                    texts: self.state().texts,
                    floats: self.state().floats,
                }),
                Err(error) => self.state().failure == Some(error),
            },
    {
        proof {
            assert(self.insts.len() == self.insts@.len());
            assert(self.blocks.len() == self.blocks@.len());
            assert(self.functions.len() == self.functions@.len());
            assert(self.globals.len() == self.globals@.len());
            assert(self.texts.len() == self.texts@.len());
            assert(self.floats.len() == self.floats@.len());
        }
        match self.failure {
            Some(error) => Err(error),
            None => Ok(
                Module {
                    insts: self.insts,
                    blocks: self.blocks,
                    functions: self.functions,
                    globals: self.globals,
                    texts: self.texts,
                    floats: self.floats,
                },
            ),
        }
    }

    pub(super) fn is_in_function(&self) -> (r: bool)
        ensures
            r == inside_function(self.state()),
    {
        proof {
            reveal(inside_function);
        }
        self.in_function
    }
}

} // verus!
