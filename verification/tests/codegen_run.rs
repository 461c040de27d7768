//! Lowered programs, run by a small interpreter of the intermediate representation.
//!
//! It keeps count of the strings a program makes and releases: a string that is read or released
//! after its release, or that is left over when the program has ended, fails the test.

use std::collections::HashMap;

use pinp::codegen::ir::{
    Callee, Cast, FloatOp, FloatPredicate, FunctionName, Inst, IntOp, IntPredicate, IrType, Module,
    Op, RuntimeFn, Value,
};
use pinp::codegen::value::decode;
use pinp::codegen::{CodegenError, PinpValue, generate};
use pinp::parser::{
    ArrayElementType, Ast, BinOp, Block, ExprId, Node, PinpType, RangeKind, Stmt, TopLevel, UnOp,
    parse,
};
use pinp::runtime::string::{
    PinpStr, pinp_str_cmp, pinp_str_concat_n, pinp_str_eq, pinp_str_from_cstr, pinp_str_from_int,
    pinp_str_len,
};
use pinp::sema::analyze;

// ---------------------------------------------------------------------------
// The interpreter
// ---------------------------------------------------------------------------

/// What a value is at run time.
#[derive(Debug, Clone)]
enum Word {
    Int(i64),
    Float(f64),
    /// A place in a region of memory.
    Address(usize, i64),
    /// A NUL-terminated constant.
    Text(String),
    /// A string, by the order in which the strings were made; `None` for the empty descriptor.
    Str(Option<usize>),
    Fields(Vec<Word>),
    Unset,
}

struct Machine<'m> {
    module: &'m Module,
    memory: Vec<Vec<Word>>,
    globals: Vec<usize>,
    /// Every string made so far; `None` once it is released.
    strings: Vec<Option<Vec<u8>>>,
    steps: usize,
}

/// What running a program gave: the word its entry function wrote, the elements at that address, and
/// the string, for the types that have them.
#[derive(Debug)]
struct Outcome {
    word: u64,
    words: Vec<u64>,
    text: Option<String>,
}

fn zero(ir_type: IrType) -> Word {
    match ir_type {
        IrType::F64 => Word::Float(0.0),
        IrType::Str => Word::Str(None),
        IrType::Range => Word::Fields(vec![Word::Int(0); 4]),
        IrType::StrArray(_) => panic!("an array of strings is no operand"),
        _ => Word::Int(0),
    }
}

fn bits(word: &Word) -> u64 {
    match word {
        Word::Int(value) => *value as u64,
        Word::Float(value) => value.to_bits(),
        other => panic!("{other:?} is no scalar"),
    }
}

impl<'m> Machine<'m> {
    fn region(&mut self, words: Vec<Word>) -> usize {
        self.memory.push(words);
        self.memory.len() - 1
    }

    fn make_str(&mut self, content: Vec<u8>) -> Word {
        self.strings.push(Some(content));
        Word::Str(Some(self.strings.len() - 1))
    }

    fn str_bytes(&self, word: &Word) -> Vec<u8> {
        match word {
            Word::Str(None) => Vec::new(),
            Word::Str(Some(id)) => self.strings[*id]
                .clone()
                .expect("a released string was read"),
            other => panic!("{other:?} is no string"),
        }
    }

    fn str_at(&self, address: &Word) -> PinpStr {
        pinp_str_from_cstr(&self.str_bytes(&self.load(address))).unwrap()
    }

    fn load(&self, address: &Word) -> Word {
        match address {
            Word::Address(region, at) => self.memory[*region][*at as usize].clone(),
            other => panic!("{other:?} is no address"),
        }
    }

    fn store(&mut self, address: &Word, value: Word) {
        match address {
            Word::Address(region, at) => self.memory[*region][*at as usize] = value,
            other => panic!("{other:?} is no address"),
        }
    }

    fn operand(&self, value: Value, params: &[Word], yielded: &HashMap<usize, Word>) -> Word {
        match value {
            Value::Bool(value) => Word::Int(i64::from(value)),
            Value::Int(value) => Word::Int(value),
            Value::I32(value) => Word::Int(i64::from(value)),
            Value::Float(index) => Word::Float(self.module.floats[index].parse().unwrap()),
            Value::Zero(ir_type) => zero(ir_type),
            Value::Undef(IrType::Range) => Word::Fields(vec![Word::Unset; 4]),
            Value::Undef(_) => Word::Unset,
            Value::Param(index) => params[index].clone(),
            Value::Inst(id) => yielded[&id].clone(),
            Value::Global(index) => Word::Address(self.globals[index], 0),
            Value::Text(index) => Word::Text(self.module.texts[index].clone()),
        }
    }

    fn native(&mut self, function: RuntimeFn, args: &[Word]) -> Result<Word, String> {
        assert_eq!(args.len(), function.params().len());
        Ok(match function {
            RuntimeFn::Alloc => {
                let Word::Int(size) = args[0] else { panic!("no size") };
                let region = self.region(vec![Word::Unset; size as usize]);
                Word::Address(region, 0)
            }
            RuntimeFn::Memset => {
                let (Word::Address(region, _), Word::Int(0)) = (&args[0], &args[1]) else {
                    panic!("only zeroes are set")
                };
                for word in &mut self.memory[*region] {
                    *word = Word::Int(0);
                }
                args[0].clone()
            }
            RuntimeFn::Pow => match (&args[0], &args[1]) {
                (Word::Float(base), Word::Float(exponent)) => Word::Float(base.powf(*exponent)),
                _ => panic!("`pow` is on floats"),
            },
            RuntimeFn::RuntimeError => match &args[0] {
                Word::Text(message) => return Err(message.clone()),
                other => panic!("{other:?} is no message"),
            },
            RuntimeFn::StrFromCstr => match &args[0] {
                Word::Text(content) => self.make_str(content.clone().into_bytes()),
                other => panic!("{other:?} is no text"),
            },
            RuntimeFn::StrConcatN => {
                let (Word::Address(region, at), Word::Int(count)) = (&args[0], &args[1]) else {
                    panic!("no parts")
                };
                let parts: Vec<PinpStr> = (0..*count)
                    .map(|index| self.str_at(&Word::Address(*region, at + index)))
                    .collect();
                let joined = pinp_str_concat_n(&parts).unwrap().as_bytes();
                self.make_str(joined)
            }
            RuntimeFn::StrLen => Word::Int(pinp_str_len(&self.str_at(&args[0]))),
            RuntimeFn::StrEq => Word::Int(i64::from(pinp_str_eq(
                &self.str_at(&args[0]),
                &self.str_at(&args[1]),
            ))),
            RuntimeFn::StrCmp => Word::Int(i64::from(pinp_str_cmp(
                &self.str_at(&args[0]),
                &self.str_at(&args[1]),
            ))),
            RuntimeFn::StrFromInt => match &args[0] {
                Word::Int(value) => {
                    let digits = pinp_str_from_int(*value).as_bytes();
                    self.make_str(digits)
                }
                other => panic!("{other:?} is no integer"),
            },
            RuntimeFn::StrFromFloat => match &args[0] {
                Word::Float(value) => self.make_str(format!("{value:?}").into_bytes()),
                other => panic!("{other:?} is no float"),
            },
            RuntimeFn::StrFree => {
                match self.load(&args[0]) {
                    Word::Str(None) => {}
                    Word::Str(Some(id)) => {
                        assert!(self.strings[id].is_some(), "a string was released twice");
                        self.strings[id] = None;
                    }
                    other => panic!("{other:?} is no string"),
                }
                self.store(&args[0], Word::Str(None));
                Word::Unset
            }
            RuntimeFn::MemInfo => Word::Unset,
        })
    }

    fn compute(&mut self, op: Op, read: &dyn Fn(&Self, Value) -> Word) -> Result<Word, String> {
        let int = |machine: &Self, value: Value| match read(machine, value) {
            Word::Int(value) => value,
            other => panic!("{other:?} is no integer"),
        };
        let float = |machine: &Self, value: Value| match read(machine, value) {
            Word::Float(value) => value,
            other => panic!("{other:?} is no float"),
        };
        Ok(match op {
            Op::Alloca(ir_type) => {
                let words = match ir_type {
                    IrType::StrArray(count) => vec![Word::Unset; count],
                    _ => vec![Word::Unset],
                };
                let region = self.region(words);
                Word::Address(region, 0)
            }
            Op::Load(ir_type, address) => match (ir_type, self.load(&read(self, address))) {
                (_, Word::Unset) => panic!("unset memory was read"),
                (IrType::F64, Word::Int(0)) => Word::Float(0.0),
                (_, word) => word,
            },
            Op::Store(address, value) => {
                let (address, value) = (read(self, address), read(self, value));
                self.store(&address, value);
                Word::Unset
            }
            Op::ElementPtr(_, base, index) => match read(self, base) {
                Word::Address(region, at) => Word::Address(region, at + int(self, index)),
                other => panic!("{other:?} is no address"),
            },
            Op::IntBinary(op, a, b) => {
                let (a, b) = (int(self, a), int(self, b));
                Word::Int(match op {
                    IntOp::Add => a.wrapping_add(b),
                    IntOp::Sub => a.wrapping_sub(b),
                    IntOp::Mul => a.wrapping_mul(b),
                    IntOp::SignedDiv | IntOp::SignedRem if b == 0 => {
                        return Err("trap".to_string());
                    }
                    IntOp::SignedDiv => a.wrapping_div(b),
                    IntOp::SignedRem => a.wrapping_rem(b),
                    IntOp::And => a & b,
                    IntOp::Or => a | b,
                    IntOp::Xor => a ^ b,
                })
            }
            Op::FloatBinary(op, a, b) => {
                let (a, b) = (float(self, a), float(self, b));
                Word::Float(match op {
                    FloatOp::Add => a + b,
                    FloatOp::Sub => a - b,
                    FloatOp::Mul => a * b,
                    FloatOp::Div => a / b,
                })
            }
            Op::IntNeg(value) => Word::Int(int(self, value).wrapping_neg()),
            Op::FloatNeg(value) => Word::Float(-float(self, value)),
            Op::Not(value) => Word::Int(1 - int(self, value)),
            Op::IntCompare(predicate, a, b) => {
                let (a, b) = (int(self, a), int(self, b));
                Word::Int(i64::from(match predicate {
                    IntPredicate::Eq => a == b,
                    IntPredicate::Ne => a != b,
                    IntPredicate::Slt => a < b,
                    IntPredicate::Sgt => a > b,
                    IntPredicate::Sle => a <= b,
                    IntPredicate::Sge => a >= b,
                }))
            }
            Op::FloatCompare(predicate, a, b) => {
                let (a, b) = (float(self, a), float(self, b));
                Word::Int(i64::from(match predicate {
                    FloatPredicate::Oeq => a == b,
                    FloatPredicate::One => a < b || a > b,
                    FloatPredicate::Olt => a < b,
                    FloatPredicate::Ogt => a > b,
                    FloatPredicate::Ole => a <= b,
                    FloatPredicate::Oge => a >= b,
                }))
            }
            Op::Select(condition, yes, no) => {
                if int(self, condition) != 0 {
                    read(self, yes)
                } else {
                    read(self, no)
                }
            }
            Op::Cast(cast, value) => match cast {
                Cast::ZeroExtend => Word::Int(int(self, value)),
                Cast::SignedToFloat | Cast::UnsignedToFloat => {
                    Word::Float(int(self, value) as f64)
                }
                Cast::FloatToSigned => Word::Int(float(self, value) as i64),
            },
            Op::InsertField(aggregate, value, index) => match read(self, aggregate) {
                Word::Fields(mut fields) => {
                    fields[index as usize] = read(self, value);
                    Word::Fields(fields)
                }
                other => panic!("{other:?} has no fields"),
            },
            Op::ExtractField(aggregate, index) => match read(self, aggregate) {
                Word::Fields(fields) => fields[index as usize].clone(),
                other => panic!("{other:?} has no fields"),
            },
            Op::Branch(_) | Op::CondBranch(..) | Op::ReturnVoid | Op::Return(_)
            | Op::Unreachable => unreachable!("the end of a block"),
        })
    }

    fn call(&mut self, function: usize, params: Vec<Word>) -> Result<Word, String> {
        let module = self.module;
        let mut block = module.functions[function].entry.expect("a body");
        let mut from = block;
        let mut yielded: HashMap<usize, Word> = HashMap::new();
        loop {
            let mut next = None;
            for id in &module.blocks[block].insts {
                assert!(next.is_none(), "an instruction behind the end of its block");
                self.steps += 1;
                assert!(self.steps < 1_000_000, "the program does not end");
                let word = match &module.insts[*id] {
                    Inst::Op(Op::Branch(target)) => {
                        next = Some(*target);
                        continue;
                    }
                    Inst::Op(Op::CondBranch(condition, yes, no)) => {
                        next = match self.operand(*condition, &params, &yielded) {
                            Word::Int(0) => Some(*no),
                            Word::Int(_) => Some(*yes),
                            other => panic!("{other:?} is no condition"),
                        };
                        continue;
                    }
                    Inst::Op(Op::ReturnVoid) => return Ok(Word::Unset),
                    Inst::Op(Op::Return(value)) => {
                        return Ok(self.operand(*value, &params, &yielded));
                    }
                    Inst::Op(Op::Unreachable) => panic!("the unreachable was reached"),
                    Inst::Op(op) => self.compute(*op, &|machine: &Self, value: Value| {
                        machine.operand(value, &params, &yielded)
                    })?,
                    Inst::Call { callee, args } => {
                        let args: Vec<Word> = args
                            .iter()
                            .map(|arg| self.operand(*arg, &params, &yielded))
                            .collect();
                        match callee {
                            Callee::Function(index) => self.call(*index, args)?,
                            Callee::Runtime(native) => self.native(*native, &args)?,
                        }
                    }
                    Inst::Phi { incomings, .. } => {
                        let (value, _) = incomings
                            .iter()
                            .find(|(_, predecessor)| *predecessor == from)
                            .expect("an incoming value");
                        self.operand(*value, &params, &yielded)
                    }
                };
                yielded.insert(*id, word);
            }
            from = block;
            block = next.expect("a block with an end");
        }
    }
}

/// Runs a module and reads what its entry function wrote.
fn run(module: &Module, value_type: PinpType) -> Result<Outcome, String> {
    let mut machine = Machine {
        module,
        memory: Vec::new(),
        globals: Vec::new(),
        strings: Vec::new(),
        steps: 0,
    };
    for global in &module.globals {
        let storage = pinp::codegen::ir::basic_type(global.value_type).unwrap();
        let region = machine.region(vec![zero(storage)]);
        machine.globals.push(region);
    }
    let result = machine.region(vec![Word::Unset]);
    let entry = module
        .functions
        .iter()
        .position(|function| function.name == FunctionName::Entry)
        .unwrap();
    machine.call(entry, vec![Word::Address(result, 0)])?;
    let mut outcome = Outcome {
        word: 0,
        words: Vec::new(),
        text: None,
    };
    match machine.memory[result][0].clone() {
        Word::Unset => assert_eq!(value_type, PinpType::Void),
        Word::Address(region, at) => {
            let count = match value_type {
                PinpType::Array(_, n) => n,
                PinpType::Matrix(_, rows, cols) => rows * cols,
                other => panic!("{other:?} is not held by address"),
            };
            let start = at as usize;
            outcome.words = machine.memory[region][start..start + count]
                .iter()
                .map(bits)
                .collect();
        }
        Word::Str(id) => {
            let content = machine.str_bytes(&Word::Str(id));
            outcome.text = Some(String::from_utf8(content).unwrap());
            if let Some(id) = id {
                machine.strings[id] = None;
            }
        }
        word => outcome.word = bits(&word),
    }
    assert!(
        machine.strings.iter().all(|string| string.is_none()),
        "a string was never released"
    );
    Ok(outcome)
}

/// Lowers and runs a typed tree.
fn evaluated(ast: &Ast) -> Result<PinpValue, String> {
    let (module, value_type) = generate(ast).map_err(|error| error.message().to_string())?;
    let outcome = run(&module, value_type)?;
    Ok(decode(value_type, outcome.word, &outcome.words).unwrap())
}

/// Parses, checks, lowers and runs `src`.
fn eval(src: &str) -> Result<PinpValue, String> {
    let mut ast = parse(src).map_err(|error| format!("{error:?}"))?;
    analyze(&mut ast).map_err(|error| format!("{error:?}"))?;
    evaluated(&ast)
}

/// The same for a program whose value is a string.
fn eval_str(src: &str) -> String {
    let mut ast = parse(src).unwrap();
    analyze(&mut ast).unwrap();
    let (module, value_type) = generate(&ast).unwrap();
    assert_eq!(value_type, PinpType::Str);
    run(&module, value_type).unwrap().text.unwrap()
}

fn float(value: f64) -> PinpValue {
    PinpValue::Float(value.to_bits())
}

fn ints(values: &[i64]) -> PinpValue {
    PinpValue::Array(values.iter().map(|value| PinpValue::Int(*value)).collect())
}

fn int_matrix(rows: usize, cols: usize, values: &[i64]) -> PinpValue {
    PinpValue::Matrix {
        rows,
        cols,
        elements: values.iter().map(|value| PinpValue::Int(*value)).collect(),
    }
}

// ---------------------------------------------------------------------------
// Types for what the checker does not know
// ---------------------------------------------------------------------------

fn elem_of(value_type: PinpType) -> ArrayElementType {
    match value_type {
        PinpType::Bool => ArrayElementType::Bool,
        PinpType::Int => ArrayElementType::Int,
        PinpType::Float => ArrayElementType::Float,
        other => panic!("{other:?} is no element"),
    }
}

fn wider(a: PinpType, b: PinpType) -> PinpType {
    if a == PinpType::Float || b == PinpType::Float {
        PinpType::Float
    } else if a == PinpType::Int || b == PinpType::Int {
        PinpType::Int
    } else {
        a
    }
}

/// How many numbers a range of literals has.
fn range_len(ast: &Ast, range: ExprId) -> usize {
    let number = |id: ExprId| match &ast.nodes[id.value()] {
        Node::Int(value) => *value,
        Node::Unary {
            op: UnOp::Neg,
            operand,
        } => match &ast.nodes[operand.value()] {
            Node::Int(value) => -value,
            other => panic!("{other:?} is no literal"),
        },
        other => panic!("{other:?} is no literal"),
    };
    match &ast.nodes[range.value()] {
        Node::Range {
            start,
            stop,
            step,
            kind,
        } => {
            let (start, stop) = (number(*start), number(*stop));
            let step = match step {
                Some(step) => number(*step),
                None if *kind == RangeKind::DownExclusive || start > stop => -1,
                None => 1,
            };
            let distance = (stop - start) * step.signum();
            let last = if *kind == RangeKind::Inclusive { 0 } else { 1 };
            if distance < last {
                0
            } else {
                ((distance - last) / step.abs() + 1) as usize
            }
        }
        other => panic!("{other:?} is no range"),
    }
}

/// How much of a dimension a selector takes; `None` for a single index.
fn selected(ast: &Ast, selector: ExprId, dimension: usize) -> Option<usize> {
    match &ast.nodes[selector.value()] {
        Node::FullExtent => Some(dimension),
        Node::Range { .. } => Some(range_len(ast, selector)),
        _ => None,
    }
}

/// Gives every expression its type, in the order of the arena: an operand comes before what it is an
/// operand of. `names` are the types of the names.
fn type_nodes(ast: &mut Ast, names: &[(&str, PinpType)]) {
    for index in 0..ast.nodes.len() {
        let of = |id: &ExprId| ast.types[id.value()];
        let inferred = match &ast.nodes[index] {
            Node::Int(_) | Node::FullExtent => PinpType::Int,
            Node::Float(_) => PinpType::Float,
            Node::Bool(_) | Node::Membership { .. } => PinpType::Bool,
            Node::Str(_) | Node::FStr { .. } => PinpType::Str,
            Node::Var(name) | Node::Global(name) => {
                let spelled = ast.names[name.value()];
                names
                    .iter()
                    .find(|(known, _)| *known == spelled)
                    .unwrap_or_else(|| panic!("`{spelled}` has no type"))
                    .1
            }
            Node::Unary {
                op: UnOp::Neg,
                operand,
            } => of(operand),
            Node::Unary { .. } => PinpType::Bool,
            Node::Bin { op, lhs, rhs } => match op {
                BinOp::Add | BinOp::Sub | BinOp::Mul => wider(of(lhs), of(rhs)),
                BinOp::Div | BinOp::Pow => PinpType::Float,
                BinOp::IntDiv | BinOp::Mod => PinpType::Int,
                _ => PinpType::Bool,
            },
            Node::Call { callee, args } => match ast.names[callee.value()] {
                "identity" => {
                    let Node::Int(n) = ast.nodes[args[0].value()] else {
                        panic!("the size is a literal")
                    };
                    PinpType::Matrix(ArrayElementType::Int, n as usize, n as usize)
                }
                "str" => PinpType::Str,
                other => panic!("`{other}` has no type"),
            },
            Node::If { .. } => PinpType::Void,
            Node::Range { .. } => PinpType::Range,
            Node::ArrayLiteral { elements } => match elements.as_slice() {
                [range] if matches!(ast.nodes[range.value()], Node::Range { .. }) => {
                    PinpType::Array(ArrayElementType::Int, range_len(ast, *range))
                }
                _ => {
                    let elem = elements.iter().map(of).reduce(wider).unwrap();
                    PinpType::Array(elem_of(elem), elements.len())
                }
            },
            Node::MatrixLiteral { rows } => {
                let elem = rows.iter().flatten().map(of).reduce(wider).unwrap();
                PinpType::Matrix(elem_of(elem), rows.len(), rows[0].len())
            }
            Node::Index { array, index } => match of(array) {
                PinpType::Array(elem, _) => match &ast.nodes[index.value()] {
                    Node::Range { .. } => PinpType::Array(elem, range_len(ast, *index)),
                    _ => PinpType::from(elem),
                },
                other => panic!("{other:?} has no elements"),
            },
            Node::Index2D { matrix, row, col } => match of(matrix) {
                PinpType::Matrix(elem, rows, cols) => {
                    match (selected(ast, *row, rows), selected(ast, *col, cols)) {
                        (None, None) => PinpType::from(elem),
                        (None, Some(n)) | (Some(n), None) => PinpType::Array(elem, n),
                        (Some(rows), Some(cols)) => PinpType::Matrix(elem, rows, cols),
                    }
                }
                other => panic!("{other:?} is no matrix"),
            },
            Node::Member { .. } => PinpType::Int,
            Node::Comprehension {
                element, source, ..
            } => PinpType::Array(elem_of(of(element)), range_len(ast, *source)),
        };
        ast.types[index] = inferred;
    }
}

/// Parses `src`, types it by the types of its names, lowers and runs it.
fn eval_typed(src: &str, names: &[(&str, PinpType)]) -> Result<PinpValue, String> {
    let mut ast = parse(src).map_err(|error| format!("{error:?}"))?;
    type_nodes(&mut ast, names);
    evaluated(&ast)
}

/// The same for a program whose value is a string.
fn eval_str_typed(src: &str, names: &[(&str, PinpType)]) -> String {
    let mut ast = parse(src).unwrap();
    type_nodes(&mut ast, names);
    let (module, value_type) = generate(&ast).unwrap();
    assert_eq!(value_type, PinpType::Str);
    run(&module, value_type).unwrap().text.unwrap()
}

const INT_ARRAY_3: PinpType = PinpType::Array(ArrayElementType::Int, 3);
const INT_ARRAY_5: PinpType = PinpType::Array(ArrayElementType::Int, 5);
const INT_MATRIX_2_3: PinpType = PinpType::Matrix(ArrayElementType::Int, 2, 3);

// ---------------------------------------------------------------------------
// Functions, names and operators
// ---------------------------------------------------------------------------

#[test]
fn codegen_function_call() {
    let result = eval("sq(x: int): int is x*x\nsq(5)\n").unwrap();
    assert_eq!(result, PinpValue::Int(25));
}

#[test]
fn codegen_global_and_compound_assignment() {
    let result = eval(
        "g = 100\nbump(a: int): int is\n    ::g += 1\n    a + ::g\nbump(5)\n",
    )
    .unwrap();
    assert_eq!(result, PinpValue::Int(106));
}

#[test]
fn codegen_local_in_block_body() {
    let result =
        eval("f(a: int, b: int): int is\n    s = a + b*b\n    s\nf(2, 3)\n").unwrap();
    assert_eq!(result, PinpValue::Int(11));
}

#[test]
fn codegen_and_or_short_circuit() {
    // The right operand traps (integer division by zero) if evaluated. Correct short-circuit
    // means a deciding left operand skips it, so these must not crash and must return the
    // left-determined value.
    assert_eq!(
        eval("false and (1 div 0 == 0)").unwrap(),
        PinpValue::Bool(false)
    );
    assert_eq!(
        eval("true or (1 div 0 == 0)").unwrap(),
        PinpValue::Bool(true)
    );
    // And the live path is still taken when the left operand does not decide.
    assert_eq!(eval("true and 2 > 1").unwrap(), PinpValue::Bool(true));
}

#[test]
fn codegen_syntax_error_is_reported_before_codegen() {
    // A malformed parameter list (missing `:`) fails in the parser, so the flow never reaches code
    // generation.
    let src = "f(a int): int is a";
    let expected = format!("{:?}", parse(src).err().unwrap());
    let error = eval(src).unwrap_err();
    assert_eq!(error, expected);
    assert!(error.contains("Expected Colon"));
}

#[test]
fn tests_function_call() {
    let result = eval("sq(x: int): int is x*x\nsq(5)\n").unwrap();
    assert_eq!(result, PinpValue::Int(25));
}

#[test]
fn tests_global_and_compound_assignment() {
    let result = eval(
        "g = 100\nbump(a: int): int is\n    ::g += 1\n    a + ::g\nbump(5)\n",
    )
    .unwrap();
    assert_eq!(result, PinpValue::Int(106));
}

#[test]
fn tests_local_in_block_body() {
    let result =
        eval("f(a: int, b: int): int is\n    s = a + b*b\n    s\nf(2, 3)\n").unwrap();
    assert_eq!(result, PinpValue::Int(11));
}

#[test]
fn tests_and_or_short_circuit() {
    assert_eq!(
        eval("false and (1 div 0 == 0)").unwrap(),
        PinpValue::Bool(false)
    );
    assert_eq!(
        eval("true or (1 div 0 == 0)").unwrap(),
        PinpValue::Bool(true)
    );
    assert_eq!(eval("true and 2 > 1").unwrap(), PinpValue::Bool(true));
}

#[test]
fn tests_syntax_error_is_reported_before_codegen() {
    let src = "f(a int): int is a";
    let expected = format!("{:?}", parse(src).err().unwrap());
    let error = eval(src).unwrap_err();
    assert_eq!(error, expected);
    assert!(error.contains("Expected Colon"));
}

#[test]
fn two_plus_two() {
    assert_eq!(eval("2 + 2").unwrap(), PinpValue::Int(4));
}

#[test]
fn arithmetic_promotes_and_keeps_its_precedence() {
    assert_eq!(eval("1 + 2 * 3 - 4").unwrap(), PinpValue::Int(3));
    assert_eq!(eval("7 div 2").unwrap(), PinpValue::Int(3));
    assert_eq!(eval("-7 mod 3").unwrap(), PinpValue::Int(-1));
    assert_eq!(eval("7 / 2").unwrap(), float(3.5));
    assert_eq!(eval("2 ^ 3 ^ 2").unwrap(), PinpValue::Int(512));
    assert_eq!(eval("2 ^ 0.5 ^ 1").unwrap(), float(2f64.sqrt()));
    assert_eq!(eval("1 + 0.5").unwrap(), float(1.5));
    assert_eq!(eval("-2.5").unwrap(), float(-2.5));
}

#[test]
fn comparisons_and_logic() {
    assert_eq!(eval("1 < 2").unwrap(), PinpValue::Bool(true));
    assert_eq!(eval("1.5 >= 2").unwrap(), PinpValue::Bool(false));
    assert_eq!(eval("true xor true").unwrap(), PinpValue::Bool(false));
    assert_eq!(eval("not (1 == 1)").unwrap(), PinpValue::Bool(false));
}

#[test]
fn a_dividing_operand_that_is_needed_traps() {
    assert_eq!(eval("true and (1 div 0 == 0)").unwrap_err(), "trap");
}

#[test]
fn a_swap_reads_before_it_stores() {
    assert_eq!(
        eval("a, b = 1, 2\na, b = b, a\na * 10 + b\n").unwrap(),
        PinpValue::Int(21)
    );
}

#[test]
fn a_program_that_ends_in_an_assignment_has_its_value() {
    assert_eq!(eval("a = b = 7\n").unwrap(), PinpValue::Int(7));
}

#[test]
fn a_program_of_functions_alone_has_no_value() {
    assert_eq!(eval("f(): int is 1\n").unwrap(), PinpValue::Void);
}

#[test]
fn a_function_calls_one_defined_before_it() {
    let src = "sq(n: int): int is n * n\nfourth(n: int): int is sq(sq(n))\nfourth(3)\n";
    assert_eq!(eval(src).unwrap(), PinpValue::Int(81));
}

#[test]
fn a_function_does_not_call_itself() {
    let src = "fact(n: int): int is 1 if n == 0 else n * fact(n - 1)\nfact(5)\n";
    assert_eq!(
        eval(src).unwrap_err(),
        "UnknownSymbol(\"Call to undefined function `fact`.\")"
    );
}

#[test]
fn arguments_and_results_are_promoted() {
    assert_eq!(
        eval("half(x: float): float is x / 2\nhalf(3)\n").unwrap(),
        float(1.5)
    );
    assert_eq!(eval("f(): float is 2\nf()\n").unwrap(), float(2.0));
}

// ---------------------------------------------------------------------------
// Control flow
// ---------------------------------------------------------------------------

#[test]
fn an_if_takes_the_first_arm_that_holds() {
    let src = "sign(n: int): int is\n    if n < 0\n        -1\n    elif n == 0\n        0\n    else\n        1\n\
               sign(-5) * 100 + sign(0) * 10 + sign(9)\n";
    assert_eq!(eval(src).unwrap(), PinpValue::Int(-99));
}

#[test]
fn loops_repeat_as_long_as_they_should() {
    assert_eq!(
        eval("n = 0\nwhile n < 5\n    n += 2\nn\n").unwrap(),
        PinpValue::Int(6)
    );
    assert_eq!(
        eval("n = 0\nloop\n    n += 1\nuntil n >= 3\nn\n").unwrap(),
        PinpValue::Int(3)
    );
    assert_eq!(
        eval("n = 10\nloop\n    n += 1\nwhile n < 3\nn\n").unwrap(),
        PinpValue::Int(11)
    );
}

// ---------------------------------------------------------------------------
// Strings
// ---------------------------------------------------------------------------

#[test]
fn strings_are_joined_and_rendered() {
    assert_eq!(eval_str("'a' + 'b' + 'c'"), "abc");
    assert_eq!(eval_str("1 + 2 + 'a' + true"), "3atrue");
    assert_eq!(eval_str("a = 'x'\nb = 2\nf'<{a}|{b}>'\n"), "<x|2>");
}

#[test]
fn values_are_rendered() {
    assert_eq!(eval_str_typed("str(1 + 1)", &[]), "2");
    assert_eq!(eval_str_typed("str(true)", &[]), "true");
    assert_eq!(eval_str_typed("str(1.5)", &[]), "1.5");
    // What a conversion yields is its receiver's, also where it was a binding's.
    assert_eq!(eval_str_typed("a = 'x'\nstr(a)\n", &[("a", PinpType::Str)]), "x");
}

#[test]
fn strings_are_compared_and_measured() {
    assert_eq!(eval("'a' < 'b'").unwrap(), PinpValue::Bool(true));
    assert_eq!(eval("'a' == 'b'").unwrap(), PinpValue::Bool(false));
    assert_eq!(eval("'a' != 'b'").unwrap(), PinpValue::Bool(true));
    assert_eq!(eval("'ab' >= 'ab'").unwrap(), PinpValue::Bool(true));
}

#[test]
fn every_string_is_released_once() {
    // A binding written over, a copy of a binding, an argument, a result that is a local's, a
    // discarded value, and the strings of a block that is left.
    assert_eq!(eval_str("a = 'one'\na = a + '!'\nb = a\nb\n"), "one!");
    assert_eq!(eval_str("a = b = 'x' + 'y'\na + b\n"), "xyxy");
    assert_eq!(
        eval_str("f(s: str): str is\n    t = s + '.'\n    t\na = 'hi'\nf(a) + f('yo')\n"),
        "hi.yo."
    );
    assert_eq!(
        eval("'dropped' + 'too'\na = 'kept'\na\n1\n").unwrap(),
        PinpValue::Int(1)
    );
    assert_eq!(
        eval_str("s = ''\nn = 0\nwhile n < 3\n    t = s + 'ab'\n    s = t\n    n += 1\ns\n"),
        "ababab"
    );
    assert_eq!(
        eval_str("pick(b: bool, s: str): str is\n    if b\n        t = s + '1'\n        t\n    else\n        s\npick(true, 'x') + pick(false, 'y')\n"),
        "x1y"
    );
}

#[test]
fn strings_go_through_functions_branches_and_loops() {
    assert_eq!(
        eval_str("greet(n: str): str is\n    'hi ' + n\nwho = 'bo'\ngreet(who) + greet('al')\n"),
        "hi bohi al"
    );
    assert_eq!(
        eval_str("s = ''\nn = 0\nwhile n < 3\n    s = s + str(n)\n    n += 1\ns\n"),
        "012"
    );
    assert_eq!(
        eval_str("c = 1 < 2\nif c\n    'y' + 'es'\nelse\n    'no'\n"),
        "yes"
    );
    assert_eq!(
        eval_str("last = ''\ntwice(s: str): str is\n    ::last = s\n    f'{s}{s}'\ntwice('ab') + last\n"),
        "ababab"
    );
    assert_eq!(
        eval("a = 'x'\nif a + '1' == f'{a}1'\n    1\nelse\n    0\n").unwrap(),
        PinpValue::Int(1)
    );
}

#[test]
fn strings_swap_without_loss() {
    assert_eq!(eval_str("a, b = 'l', 'r'\na, b = b, a\na + b\n"), "rl");
}

// ---------------------------------------------------------------------------
// Ranges
// ---------------------------------------------------------------------------

#[test]
fn a_for_loop_counts_through_its_range() {
    let total = |range: &str| {
        let src = format!("t = 0\nfor i in {range}\n    t = t * 10 + i\nt\n");
        eval_typed(&src, &[("t", PinpType::Int), ("i", PinpType::Int)])
    };
    assert_eq!(total("1..3").unwrap(), PinpValue::Int(123));
    assert_eq!(total("3..1").unwrap(), PinpValue::Int(321));
    assert_eq!(total("1..<4").unwrap(), PinpValue::Int(123));
    assert_eq!(total("3..>0").unwrap(), PinpValue::Int(321));
    assert_eq!(total("1..5:2").unwrap(), PinpValue::Int(135));
    assert_eq!(total("5..<5").unwrap(), PinpValue::Int(0));
}

#[test]
fn a_step_of_zero_is_an_error_at_run_time() {
    let error = eval_typed(
        "z = 0\nfor i in 1..3:z\n    i\n",
        &[("z", PinpType::Int), ("i", PinpType::Int)],
    )
    .unwrap_err();
    assert!(error.contains("step"), "{error}");
}

#[test]
fn membership_is_being_counted_through() {
    for (test, expected) in [
        ("3 in 1..5", true),
        ("0 in 1..5", false),
        ("5 in 1..<5", false),
        ("4 in 1..9:3", true),
        ("5 in 1..9:3", false),
        ("-1 in 1..9", false),
        ("7 in 9..1:-2", true),
        ("8 in 9..1:-2", false),
        ("1 in 9..>1", false),
        ("11 in 9..1:-2", false),
    ] {
        assert_eq!(
            eval_typed(test, &[]).unwrap(),
            PinpValue::Bool(expected),
            "{test}"
        );
    }
}

// ---------------------------------------------------------------------------
// Arrays and matrices
// ---------------------------------------------------------------------------

#[test]
fn array_literals_hold_their_elements() {
    assert_eq!(eval_typed("[1, 2, 3]", &[]).unwrap(), ints(&[1, 2, 3]));
    assert_eq!(
        eval_typed("[1, 2.5]", &[]).unwrap(),
        PinpValue::Array(vec![float(1.0), float(2.5)])
    );
    assert_eq!(
        eval_typed("[true, false]", &[]).unwrap(),
        PinpValue::Array(vec![PinpValue::Bool(true), PinpValue::Bool(false)])
    );
    assert_eq!(eval_typed("[1..7:3]", &[]).unwrap(), ints(&[1, 4, 7]));
    assert_eq!(eval_typed("[3..1]", &[]).unwrap(), ints(&[3, 2, 1]));
}

#[test]
fn comprehensions_have_an_element_for_each_number() {
    assert_eq!(
        eval_typed("[i * i for i in 1..3]", &[("i", PinpType::Int)]).unwrap(),
        ints(&[1, 4, 9])
    );
}

#[test]
fn an_index_counts_from_either_end() {
    let names = [("a", INT_ARRAY_3), ("i", PinpType::Int)];
    let at = |index: &str| eval_typed(&format!("a = [5, 6, 7]\ni = {index}\na[i]\n"), &names);
    assert_eq!(at("0").unwrap(), PinpValue::Int(5));
    assert_eq!(at("2").unwrap(), PinpValue::Int(7));
    assert_eq!(at("-1").unwrap(), PinpValue::Int(7));
    assert_eq!(at("-3").unwrap(), PinpValue::Int(5));
    assert!(at("3").unwrap_err().contains("out of bounds"));
    assert!(at("-4").unwrap_err().contains("out of bounds"));
}

#[test]
fn elements_are_written_in_place() {
    let names = [("a", INT_ARRAY_5)];
    let after = |stmt: &str| eval_typed(&format!("a = [1, 2, 3, 4, 5]\n{stmt}\na\n"), &names);
    assert_eq!(after("a[1] = 9").unwrap(), ints(&[1, 9, 3, 4, 5]));
    assert_eq!(after("a[-1] += 10").unwrap(), ints(&[1, 2, 3, 4, 15]));
    assert_eq!(after("a[1..3] = 0").unwrap(), ints(&[1, 0, 0, 0, 5]));
    assert_eq!(after("a[1..<3] = 0").unwrap(), ints(&[1, 0, 0, 4, 5]));
    assert!(after("a[5] = 0").unwrap_err().contains("out of bounds"));
}

#[test]
fn a_slice_is_an_array_of_its_own() {
    let src = "a = [1, 2, 3, 4, 5]\nb = a[1..3]\na[1] = 9\nb\n";
    assert_eq!(
        eval_typed(src, &[("a", INT_ARRAY_5), ("b", INT_ARRAY_3)]).unwrap(),
        ints(&[2, 3, 4])
    );
}

#[test]
fn matrices_are_read_by_element_row_column_and_part() {
    let names = [("m", INT_MATRIX_2_3)];
    let of = |selection: &str| eval_typed(&format!("m = [1, 2, 3; 4, 5, 6]\n{selection}\n"), &names);
    assert_eq!(of("m").unwrap(), int_matrix(2, 3, &[1, 2, 3, 4, 5, 6]));
    assert_eq!(of("m[1, 2]").unwrap(), PinpValue::Int(6));
    assert_eq!(of("m[-1, -3]").unwrap(), PinpValue::Int(4));
    assert_eq!(of("m[1, :]").unwrap(), ints(&[4, 5, 6]));
    assert_eq!(of("m[0, 1..2]").unwrap(), ints(&[2, 3]));
    assert_eq!(of("m[:, 1]").unwrap(), ints(&[2, 5]));
    assert_eq!(of("m[:, 0..1]").unwrap(), int_matrix(2, 2, &[1, 2, 4, 5]));
    assert!(of("m[2, 0]").unwrap_err().contains("out of bounds"));
    assert!(of("m[0, 3]").unwrap_err().contains("out of bounds"));
}

#[test]
fn matrix_elements_are_written_in_place() {
    let src = "m = [1, 2, 3; 4, 5, 6]\nm[0, 1] = 9\nm[-1, 0] *= 2\nm\n";
    assert_eq!(
        eval_typed(src, &[("m", INT_MATRIX_2_3)]).unwrap(),
        int_matrix(2, 3, &[1, 9, 3, 8, 5, 6])
    );
}

#[test]
fn the_identity_has_ones_on_its_diagonal() {
    assert_eq!(
        eval_typed("identity(2)", &[]).unwrap(),
        int_matrix(2, 2, &[1, 0, 0, 1])
    );
}

#[test]
fn members_are_known_from_the_type() {
    let names = [("a", INT_ARRAY_3), ("m", INT_MATRIX_2_3)];
    let of = |member: &str| {
        eval_typed(
            &format!("a = [1, 2, 3]\nm = [1, 2, 3; 4, 5, 6]\n{member}\n"),
            &names,
        )
        .unwrap()
    };
    assert_eq!(of("a.len"), PinpValue::Int(3));
    assert_eq!(of("a.ndim"), PinpValue::Int(1));
    assert_eq!(of("m.len"), PinpValue::Int(6));
    assert_eq!(of("m.ndim"), PinpValue::Int(2));
    assert_eq!(of("m.rows"), PinpValue::Int(2));
    assert_eq!(of("m.cols"), PinpValue::Int(3));
}

#[test]
fn a_string_is_asked_for_its_length() {
    assert_eq!(
        eval_typed("('ab' + 'cde').len", &[]).unwrap(),
        PinpValue::Int(5)
    );
}

// ---------------------------------------------------------------------------
// What is refused
// ---------------------------------------------------------------------------

#[test]
fn a_value_is_not_had_of_a_call_without_one() {
    let mut ast = parse("f(x: int) is\n    x\n1 + f(2)\n").unwrap();
    for index in 0..ast.types.len() {
        ast.types[index] = PinpType::Int;
    }
    let error = generate(&ast).unwrap_err();
    assert_eq!(error, CodegenError::VoidValue);
    assert_eq!(
        error.message(),
        "Expected a value but the expression is void."
    );
}

#[test]
fn a_tree_that_no_checker_passes_is_refused() {
    let mut ast = parse("missing(1)\n").unwrap();
    for index in 0..ast.types.len() {
        ast.types[index] = PinpType::Int;
    }
    let error = generate(&ast).unwrap_err();
    assert_eq!(error, CodegenError::Malformed);
    assert_eq!(error.message(), "The program has not been type-checked.");
}

#[test]
fn a_loop_over_the_elements_is_refused() {
    let mut ast = parse("a = [1, 2]\nfor i, x in a\n    x\n").unwrap();
    let has_binders = ast
        .top_level
        .iter()
        .any(|item| matches!(item, TopLevel::Stmt(Stmt::ForArray { body: Block { .. }, .. })));
    assert!(has_binders);
    type_nodes(
        &mut ast,
        &[
            ("a", PinpType::Array(ArrayElementType::Int, 2)),
            ("x", PinpType::Int),
        ],
    );
    assert_eq!(generate(&ast).unwrap_err(), CodegenError::Malformed);
}

// ---------------------------------------------------------------------------
// Values read out
// ---------------------------------------------------------------------------

#[test]
fn words_are_read_by_their_type() {
    let none: Vec<u64> = Vec::new();
    assert_eq!(
        decode(PinpType::Int, u64::MAX, &none),
        Some(PinpValue::Int(-1))
    );
    // Only the lowest bit of a truth value is its own.
    assert_eq!(
        decode(PinpType::Bool, 0xfe, &none),
        Some(PinpValue::Bool(false))
    );
    assert_eq!(
        decode(PinpType::Bool, 0xff, &none),
        Some(PinpValue::Bool(true))
    );
    assert_eq!(
        decode(PinpType::Float, 1.5f64.to_bits(), &none),
        Some(float(1.5))
    );
    assert_eq!(decode(PinpType::Void, 9, &none), Some(PinpValue::Void));
    assert_eq!(decode(PinpType::Range, 0, &none), None);
    assert_eq!(decode(PinpType::Str, 0, &none), None);
    assert_eq!(decode(INT_ARRAY_3, 0, &vec![1, 2]), None);
    assert_eq!(decode(INT_ARRAY_3, 0, &vec![1, 2, 3]), Some(ints(&[1, 2, 3])));
    assert_eq!(decode(INT_MATRIX_2_3, 0, &vec![1, 2, 3]), None);
    assert_eq!(
        decode(
            PinpType::Matrix(ArrayElementType::Int, usize::MAX, 2),
            0,
            &none
        ),
        None
    );
}

#[test]
fn what_is_checked_is_lowered() {
    let sources = [
        "1 < 2 <= 2 < 3\n",
        "x = 1\nx += 2\n\"a\" if x == 3 else \"b\"\n",
        "twice(n: int): int is n + n\nhalf(x: float): float is x / 2\nhalf(twice(3))\n",
        "i = 0\nwhile i < 10\n    i += 1\ni\n",
        "n = 3\nif n > 2\n    \"big\"\nelif n > 1\n    \"middling\"\nelse\n    \"small\"\n",
        "name = \"x\"\nf\"{name} and {name}\" + name\n",
    ];
    for source in sources {
        let mut ast: Ast = parse(source).expect(source);
        analyze(&mut ast).expect(source);
        assert!(generate(&ast).is_ok(), "{}", source);
    }
}

#[test]
fn chained_comparisons_share_their_middle_operand() {
    let ast: Ast = parse("1 < 2 < 3\n").unwrap();
    assert_eq!(ast.nodes.len(), 6);
    assert!(matches!(&ast.nodes[2], Node::Bin { lhs, rhs, .. } if lhs.0 == 0 && rhs.0 == 1));
    assert!(matches!(&ast.nodes[4], Node::Bin { lhs, rhs, .. } if lhs.0 == 1 && rhs.0 == 3));
    assert!(matches!(&ast.nodes[5], Node::Bin { lhs, rhs, .. } if lhs.0 == 2 && rhs.0 == 4));
    assert_eq!(eval("1 < 2 < 3\n"), Ok(PinpValue::Bool(true)));
    assert_eq!(eval("1 < 3 < 3\n"), Ok(PinpValue::Bool(false)));
}

#[test]
fn programs_of_whole_numbers_compute_what_they_mean() {
    let gcd = "a = 84\nb = 36\nwhile b != 0\n    a, b = b, a mod b\na\n";
    assert_eq!(eval(gcd), Ok(PinpValue::Int(12)));
    let collatz = "n = 27\nsteps = 0\nwhile n != 1\n    if n mod 2 == 0\n        n = n div 2\n    else\n        n = 3 * n + 1\n    steps += 1\nsteps\n";
    assert_eq!(eval(collatz), Ok(PinpValue::Int(111)));
    let doubling = "n = 1\nloop\n    n = n + n\nuntil n > 1000\nn\n";
    assert_eq!(eval(doubling), Ok(PinpValue::Int(1024)));
    let guarded = "d = 0\nd != 0 and 10 div d > 1\n";
    assert_eq!(eval(guarded), Ok(PinpValue::Bool(false)));
    assert_eq!(eval("-7 div 2\n"), Ok(PinpValue::Int(-3)));
    assert_eq!(eval("-7 mod 2\n"), Ok(PinpValue::Int(-1)));
    assert_eq!(eval("9223372036854775807 + 1\n"), Ok(PinpValue::Int(i64::MIN)));
}

#[test]
fn calls_and_blocks_compute_what_they_mean() {
    // A function changes the globals, and its names are its own.
    let counted = "calls = 0\nnext(n: int): int is\n    ::calls = ::calls + 1\n    m = n + 1\n    m\n\
                   next(next(next(4))) * 10 + calls\n";
    assert_eq!(eval(counted), Ok(PinpValue::Int(73)));
    // A block's name ends with the block.
    let nested = "n = 1\nif n > 0\n    m = 5\n    while m > 3\n        m = m - 1\n        n = n + m\nn\n";
    assert_eq!(eval(nested), Ok(PinpValue::Int(8)));
    // An `if` has the value of the branch taken.
    let chosen = "a = 2\nb = 10 if a == 1 else (20 if a == 2 else 30)\nb + a\n";
    assert_eq!(eval(chosen), Ok(PinpValue::Int(22)));
}

#[test]
fn a_round_goes_on_from_where_the_body_left_its_name() {
    let src = "t = 0\nfor i in 1..10\n    t = t * 100 + i\n    i = i + 3\nt\n";
    assert_eq!(
        eval_typed(src, &[("t", PinpType::Int), ("i", PinpType::Int)]),
        Ok(PinpValue::Int(10509))
    );
}
