//! The intermediate representation a program is lowered to.
//!
//! It is the part of LLVM's IR that lowering needs, as plain values: a host that links LLVM replays
//! a [`Module`] instruction by instruction. Instructions live in one arena and are named by their
//! index there, so that an instruction placed at the head of a block later on does not renumber the
//! others; a block lists the instructions it runs, in order.

use vstd::prelude::*;

use crate::parser::ast::{ArrayElementType, PinpType, SymId};

verus! {

/// The type of a value, or of what a slot holds.
#[derive(Debug, Clone, Copy, PartialEq, Eq, Structural)]
pub enum IrType {
    /// `i1`, behind `Bool`.
    I1,
    /// `i32`, what the runtime's string comparisons answer.
    I32,
    /// `i64`, behind `Int`.
    I64,
    /// `f64`, behind `Float`.
    F64,
    /// An address.
    Ptr,
    /// A string descriptor, `{ i64, i64 }`: two INTEGER eightbytes, which is what a C function
    /// hands back in two registers.
    Str,
    /// A range, `{ i64, i64, i64, i1 }`: start, stop, step, and whether `stop` belongs to it.
    Range,
    /// So many string descriptors in a row.
    StrArray(usize),
}

/// An operand.
#[derive(Debug, Clone, Copy, PartialEq, Eq, Structural)]
pub enum Value {
    Bool(bool),
    Int(i64),
    I32(i32),
    /// A float constant, by its place in [`Module::floats`].
    Float(usize),
    /// The all-zero value of a type; the null pointer for `Ptr`.
    Zero(IrType),
    /// A value of a type with nothing known of it, to insert fields into.
    Undef(IrType),
    /// A parameter of the function, by position.
    Param(usize),
    /// What an instruction yields, by its place in [`Module::insts`].
    Inst(usize),
    /// The address of a global, by its place in [`Module::globals`].
    Global(usize),
    /// The address of a NUL-terminated constant, by its place in [`Module::texts`].
    Text(usize),
}

/// A signed integer comparison.
#[derive(Debug, Clone, Copy, PartialEq, Eq, Structural)]
pub enum IntPredicate {
    Eq,
    Ne,
    Slt,
    Sgt,
    Sle,
    Sge,
}

/// An ordered float comparison.
#[derive(Debug, Clone, Copy, PartialEq, Eq, Structural)]
pub enum FloatPredicate {
    Oeq,
    One,
    Olt,
    Ogt,
    Ole,
    Oge,
}

/// Integer arithmetic and logic on two operands.
#[derive(Debug, Clone, Copy, PartialEq, Eq, Structural)]
pub enum IntOp {
    Add,
    Sub,
    Mul,
    SignedDiv,
    SignedRem,
    And,
    Or,
    Xor,
}

/// Float arithmetic on two operands.
#[derive(Debug, Clone, Copy, PartialEq, Eq, Structural)]
pub enum FloatOp {
    Add,
    Sub,
    Mul,
    Div,
}

/// A conversion between scalar types.
#[derive(Debug, Clone, Copy, PartialEq, Eq, Structural)]
pub enum Cast {
    /// `i1` to `i64`.
    ZeroExtend,
    /// `i64` to `f64`.
    SignedToFloat,
    /// `i1` to `f64`.
    UnsignedToFloat,
    /// `f64` to `i64`, towards zero.
    FloatToSigned,
}

/// An instruction with a fixed number of operands.
#[derive(Debug, Clone, Copy, PartialEq, Eq, Structural)]
pub enum Op {
    /// A stack slot.
    Alloca(IrType),
    /// `Load(type, address)`.
    Load(IrType, Value),
    /// `Store(address, value)`.
    Store(Value, Value),
    /// The address of an element: `ElementPtr(element type, base, index)`.
    ElementPtr(IrType, Value, Value),
    IntBinary(IntOp, Value, Value),
    FloatBinary(FloatOp, Value, Value),
    IntNeg(Value),
    FloatNeg(Value),
    Not(Value),
    IntCompare(IntPredicate, Value, Value),
    FloatCompare(FloatPredicate, Value, Value),
    /// `Select(condition, if true, if false)`.
    Select(Value, Value, Value),
    Cast(Cast, Value),
    /// `InsertField(aggregate, value, field)`.
    InsertField(Value, Value, u32),
    /// `ExtractField(aggregate, field)`.
    ExtractField(Value, u32),
    Branch(usize),
    /// `CondBranch(condition, block if true, block if false)`.
    CondBranch(Value, usize, usize),
    ReturnVoid,
    Return(Value),
    Unreachable,
}

/// A native function that lowered code calls.
#[derive(Debug, Clone, Copy, PartialEq, Eq, Structural)]
pub enum RuntimeFn {
    Alloc,
    Memset,
    Pow,
    RuntimeError,
    StrFromCstr,
    StrConcatN,
    StrLen,
    StrEq,
    StrCmp,
    StrFromInt,
    StrFromFloat,
    StrFree,
    MemInfo,
}

/// What a call calls.
#[derive(Debug, Clone, Copy, PartialEq, Eq, Structural)]
pub enum Callee {
    /// A function of the program, by its place in [`Module::functions`].
    Function(usize),
    Runtime(RuntimeFn),
}

/// An instruction.
#[derive(Debug)]
pub enum Inst {
    Op(Op),
    Call { callee: Callee, args: Vec<Value> },
    /// The value that belongs to the block control came from.
    Phi { ir_type: IrType, incomings: Vec<(Value, usize)> },
}

pub enum InstView {
    Op(Op),
    Call(Callee, Seq<Value>),
    Phi(IrType, Seq<(Value, usize)>),
}

impl View for Inst {
    type V = InstView;

    open spec fn view(&self) -> InstView {
        match *self {
            Inst::Op(op) => InstView::Op(op),
            Inst::Call { callee, args } => InstView::Call(callee, args@),
            Inst::Phi { ir_type, incomings } => InstView::Phi(ir_type, incomings@),
        }
    }
}

/// A basic block: the function it belongs to, and the instructions it runs.
#[derive(Debug)]
pub struct IrBlock {
    pub function: usize,
    pub label: &'static str,
    pub insts: Vec<usize>,
}

#[verifier::ext_equal]
pub struct IrBlockView {
    pub function: usize,
    pub label: Seq<char>,
    pub insts: Seq<usize>,
}

impl View for IrBlock {
    type V = IrBlockView;

    open spec fn view(&self) -> IrBlockView {
        IrBlockView { function: self.function, label: self.label@, insts: self.insts@ }
    }
}

/// What a function is called.
#[derive(Debug, Clone, Copy, PartialEq, Eq, Structural)]
pub enum FunctionName {
    /// A function of the program.
    Named(SymId),
    /// The function that runs the top-level statements. It takes the address to write the program's
    /// value to.
    Entry,
}

/// A function: its signature, and the block it starts in once it has a body.
#[derive(Debug)]
pub struct IrFunction {
    pub name: FunctionName,
    pub params: Vec<PinpType>,
    pub result: PinpType,
    pub entry: Option<usize>,
}

#[verifier::ext_equal]
pub struct IrFunctionView {
    pub name: FunctionName,
    pub params: Seq<PinpType>,
    pub result: PinpType,
    pub entry: Option<usize>,
}

impl View for IrFunction {
    type V = IrFunctionView;

    open spec fn view(&self) -> IrFunctionView {
        IrFunctionView {
            name: self.name,
            params: self.params@,
            result: self.result,
            entry: self.entry,
        }
    }
}

/// A module global, zero to begin with.
#[derive(Debug, Clone, Copy, PartialEq, Eq, Structural)]
pub struct IrGlobal {
    pub name: SymId,
    pub value_type: PinpType,
}

/// A lowered program.
#[derive(Debug)]
pub struct Module {
    pub insts: Vec<Inst>,
    pub blocks: Vec<IrBlock>,
    pub functions: Vec<IrFunction>,
    pub globals: Vec<IrGlobal>,
    pub texts: Vec<String>,
    pub floats: Vec<String>,
}

#[verifier::ext_equal]
pub struct ModuleView {
    pub insts: Seq<InstView>,
    pub blocks: Seq<IrBlockView>,
    pub functions: Seq<IrFunctionView>,
    pub globals: Seq<IrGlobal>,
    pub texts: Seq<Seq<char>>,
    pub floats: Seq<Seq<char>>,
}

pub open spec fn inst_views(insts: Seq<Inst>) -> Seq<InstView> {
    Seq::new(insts.len(), |i: int| insts[i]@)
}

pub open spec fn ir_block_views(blocks: Seq<IrBlock>) -> Seq<IrBlockView> {
    Seq::new(blocks.len(), |i: int| blocks[i]@)
}

pub open spec fn function_views(functions: Seq<IrFunction>) -> Seq<IrFunctionView> {
    Seq::new(functions.len(), |i: int| functions[i]@)
}

pub open spec fn text_views(texts: Seq<String>) -> Seq<Seq<char>> {
    Seq::new(texts.len(), |i: int| texts[i]@)
}

impl View for Module {
    type V = ModuleView;

    open spec fn view(&self) -> ModuleView {
        ModuleView {
            insts: inst_views(self.insts@),
            blocks: ir_block_views(self.blocks@),
            functions: function_views(self.functions@),
            globals: self.globals@,
            texts: text_views(self.texts@),
            floats: text_views(self.floats@),
        }
    }
}

/// The type backing a storable value type; `None` for `Void`. An array or a matrix is held by
/// address.
#[verifier::allow_in_spec]
pub fn basic_type(pinp_type: PinpType) -> (r: Option<IrType>)
    returns
        (match pinp_type {
            PinpType::Bool => Some(IrType::I1),
            PinpType::Int => Some(IrType::I64),
            PinpType::Float => Some(IrType::F64),
            PinpType::Str => Some(IrType::Str),
            PinpType::Void => None,
            PinpType::Range => Some(IrType::Range),
            PinpType::Array(_, _) => Some(IrType::Ptr),
            PinpType::Matrix(_, _, _) => Some(IrType::Ptr),
        }),
{
    match pinp_type {
        PinpType::Bool => Some(IrType::I1),
        PinpType::Int => Some(IrType::I64),
        PinpType::Float => Some(IrType::F64),
        PinpType::Str => Some(IrType::Str),
        PinpType::Void => None,
        PinpType::Range => Some(IrType::Range),
        PinpType::Array(_, _) => Some(IrType::Ptr),
        PinpType::Matrix(_, _, _) => Some(IrType::Ptr),
    }
}

/// The type of one element of an array or a matrix.
#[verifier::allow_in_spec]
pub fn element_ir_type(elem: ArrayElementType) -> (r: IrType)
    returns
        (match elem {
            ArrayElementType::Bool => IrType::I1,
            ArrayElementType::Int => IrType::I64,
            ArrayElementType::Float => IrType::F64,
        }),
{
    match elem {
        ArrayElementType::Bool => IrType::I1,
        ArrayElementType::Int => IrType::I64,
        ArrayElementType::Float => IrType::F64,
    }
}

/// The type of an element on its own.
#[verifier::allow_in_spec]
pub fn element_type(elem: ArrayElementType) -> (r: PinpType)
    returns
        (match elem {
            ArrayElementType::Bool => PinpType::Bool,
            ArrayElementType::Int => PinpType::Int,
            ArrayElementType::Float => PinpType::Float,
        }),
{
    PinpType::from(elem)
}

impl RuntimeFn {
    /// The symbol the function is linked by.
    pub fn name(self) -> (r: &'static str)
        ensures
            r@ == self.spec_name(),
    {
        match self {
            RuntimeFn::Alloc => "pinp_alloc",
            RuntimeFn::Memset => "memset",
            RuntimeFn::Pow => "llvm.pow.f64",
            RuntimeFn::RuntimeError => "pinp_runtime_error",
            RuntimeFn::StrFromCstr => "pinp_str_from_cstr",
            RuntimeFn::StrConcatN => "pinp_str_concat_n",
            RuntimeFn::StrLen => "pinp_str_len",
            RuntimeFn::StrEq => "pinp_str_eq",
            RuntimeFn::StrCmp => "pinp_str_cmp",
            RuntimeFn::StrFromInt => "pinp_str_from_int",
            RuntimeFn::StrFromFloat => "pinp_str_from_float",
            RuntimeFn::StrFree => "pinp_str_free",
            RuntimeFn::MemInfo => "pinp_meminfo",
        }
    }

    pub open spec fn spec_name(self) -> Seq<char> {
        match self {
            RuntimeFn::Alloc => "pinp_alloc"@,
            RuntimeFn::Memset => "memset"@,
            RuntimeFn::Pow => "llvm.pow.f64"@,
            RuntimeFn::RuntimeError => "pinp_runtime_error"@,
            RuntimeFn::StrFromCstr => "pinp_str_from_cstr"@,
            RuntimeFn::StrConcatN => "pinp_str_concat_n"@,
            RuntimeFn::StrLen => "pinp_str_len"@,
            RuntimeFn::StrEq => "pinp_str_eq"@,
            RuntimeFn::StrCmp => "pinp_str_cmp"@,
            RuntimeFn::StrFromInt => "pinp_str_from_int"@,
            RuntimeFn::StrFromFloat => "pinp_str_from_float"@,
            RuntimeFn::StrFree => "pinp_str_free"@,
            RuntimeFn::MemInfo => "pinp_meminfo"@,
        }
    }

    /// The type of what the function hands back, if it hands back anything.
    #[verifier::allow_in_spec]
    pub fn result(self) -> (r: Option<IrType>)
        returns
            (match self {
                RuntimeFn::Alloc => Some(IrType::Ptr),
                RuntimeFn::Memset => Some(IrType::Ptr),
                RuntimeFn::Pow => Some(IrType::F64),
                RuntimeFn::RuntimeError => None,
                RuntimeFn::StrFromCstr => Some(IrType::Str),
                RuntimeFn::StrConcatN => Some(IrType::Str),
                RuntimeFn::StrLen => Some(IrType::I64),
                RuntimeFn::StrEq => Some(IrType::I32),
                RuntimeFn::StrCmp => Some(IrType::I32),
                RuntimeFn::StrFromInt => Some(IrType::Str),
                RuntimeFn::StrFromFloat => Some(IrType::Str),
                RuntimeFn::StrFree => None,
                RuntimeFn::MemInfo => None,
            }),
    {
        match self {
            RuntimeFn::Alloc => Some(IrType::Ptr),
            RuntimeFn::Memset => Some(IrType::Ptr),
            RuntimeFn::Pow => Some(IrType::F64),
            RuntimeFn::RuntimeError => None,
            RuntimeFn::StrFromCstr => Some(IrType::Str),
            RuntimeFn::StrConcatN => Some(IrType::Str),
            RuntimeFn::StrLen => Some(IrType::I64),
            RuntimeFn::StrEq => Some(IrType::I32),
            RuntimeFn::StrCmp => Some(IrType::I32),
            RuntimeFn::StrFromInt => Some(IrType::Str),
            RuntimeFn::StrFromFloat => Some(IrType::Str),
            RuntimeFn::StrFree => None,
            RuntimeFn::MemInfo => None,
        }
    }

    /// The types of its parameters.
    pub open spec fn spec_params(self) -> Seq<IrType> {
        match self {
            RuntimeFn::Alloc => seq![IrType::I64],
            RuntimeFn::Memset => seq![IrType::Ptr, IrType::I32, IrType::I64],
            RuntimeFn::Pow => seq![IrType::F64, IrType::F64],
            RuntimeFn::RuntimeError => seq![IrType::Ptr],
            RuntimeFn::StrFromCstr => seq![IrType::Ptr],
            RuntimeFn::StrConcatN => seq![IrType::Ptr, IrType::I64],
            RuntimeFn::StrLen => seq![IrType::Ptr],
            RuntimeFn::StrEq => seq![IrType::Ptr, IrType::Ptr],
            RuntimeFn::StrCmp => seq![IrType::Ptr, IrType::Ptr],
            RuntimeFn::StrFromInt => seq![IrType::I64],
            RuntimeFn::StrFromFloat => seq![IrType::F64],
            RuntimeFn::StrFree => seq![IrType::Ptr],
            RuntimeFn::MemInfo => Seq::empty(),
        }
    }

    /// The types of its parameters.
    pub fn params(self) -> (r: Vec<IrType>)
        ensures
            r@ == self.spec_params(),
    {
        let mut params: Vec<IrType> = Vec::new();
        match self {
            RuntimeFn::Alloc | RuntimeFn::StrFromInt => {
                params.push(IrType::I64);
            },
            RuntimeFn::Memset => {
                params.push(IrType::Ptr);
                params.push(IrType::I32);
                params.push(IrType::I64);
            },
            RuntimeFn::Pow => {
                params.push(IrType::F64);
                params.push(IrType::F64);
            },
            RuntimeFn::RuntimeError | RuntimeFn::StrFromCstr | RuntimeFn::StrLen | RuntimeFn::StrFree => {
                params.push(IrType::Ptr);
            },
            RuntimeFn::StrConcatN => {
                params.push(IrType::Ptr);
                params.push(IrType::I64);
            },
            RuntimeFn::StrEq | RuntimeFn::StrCmp => {
                params.push(IrType::Ptr);
                params.push(IrType::Ptr);
            },
            RuntimeFn::StrFromFloat => {
                params.push(IrType::F64);
            },
            RuntimeFn::MemInfo => {},
        }
        params
    }
}

} // verus!
