//! The AST: a flat arena of expression nodes, and the statements and functions over it.

use crate::lexer::Span;
use crate::symbols::{interned, symbol_get, symbol_insert, symbol_table, SymbolTable};
use vstd::prelude::*;

verus! {

// ---------------------------------------------------------------------------
// Types and interned ids
// ---------------------------------------------------------------------------

/// The scalar element types that an array may hold. A strict subset of [`PinpType`] so that
/// `PinpType::Array` stays `Copy` (it stores an `ArrayElementType`, not a boxed `PinpType`).
#[derive(Debug, Clone, Copy, PartialEq, Eq, Structural)]
pub enum ArrayElementType {
    Bool,
    Int,
    Float,
}

impl From<ArrayElementType> for PinpType {
    fn from(element_type: ArrayElementType) -> (r: PinpType) {
        match element_type {
            ArrayElementType::Bool => PinpType::Bool,
            ArrayElementType::Int => PinpType::Int,
            ArrayElementType::Float => PinpType::Float,
        }
    }
}

impl vstd::std_specs::convert::FromSpecImpl<ArrayElementType> for PinpType {
    open spec fn obeys_from_spec() -> bool {
        true
    }

    open spec fn from_spec(element_type: ArrayElementType) -> PinpType {
        element_as_type(element_type)
    }
}

/// The type of an element on its own.
pub open spec fn element_as_type(element_type: ArrayElementType) -> PinpType {
    match element_type {
        ArrayElementType::Bool => PinpType::Bool,
        ArrayElementType::Int => PinpType::Int,
        ArrayElementType::Float => PinpType::Float,
    }
}

/// The type of every expression and binding. `Void` is the type of a function with no declared
/// return type (and of a call to one); a value-typed expression is never `Void`.
#[derive(Debug, Clone, Copy, PartialEq, Eq, Structural)]
pub enum PinpType {
    Bool,
    Int,
    Float,
    Void,
    Range,
    /// A string of bytes.
    Str,
    /// A 1D array of `n` elements of `ArrayElementType`, heap-allocated.
    Array(ArrayElementType, usize),
    /// A matrix of `rows` times `cols` elements in row-major order, heap-allocated.
    Matrix(ArrayElementType, usize, usize),
}

/// An interned identifier: an index into [`Ast::names`]. `Copy` and cheap to compare; the
/// backing text lives once in the interner, never re-stored per use.
#[derive(Debug, Clone, Copy, PartialEq, Eq, Hash, Structural)]
pub struct SymId(pub u32);

impl SymId {
    /// This id's underlying value — its index into [`Ast::names`].
    pub fn value(self) -> (r: usize)
        ensures
            r == self.0,
    {
        self.0 as usize
    }
}

/// An index into the [`Ast::nodes`] arena. The node's inferred [`PinpType`] sits at the same
/// index in the parallel [`Ast::types`] vec.
#[derive(Debug, Clone, Copy, PartialEq, Eq, Structural)]
pub struct ExprId(pub u32);

impl ExprId {
    /// This id's underlying value — its index into the parallel [`Ast::nodes`]/[`Ast::types`]
    /// arenas.
    pub fn value(self) -> (r: usize)
        ensures
            r == self.0,
    {
        self.0 as usize
    }
}

/// An index into [`Ast::string_literals`].
#[derive(Debug, Clone, Copy, PartialEq, Eq, Structural)]
pub struct StrId(pub u32);

impl StrId {
    /// This id's underlying value — its index into [`Ast::string_literals`].
    pub fn value(self) -> (r: usize)
        ensures
            r == self.0,
    {
        self.0 as usize
    }
}

// ---------------------------------------------------------------------------
// Operators
// ---------------------------------------------------------------------------

/// A binary operator. `IntDiv` and `Mod` are the `div`/`mod` keyword operators (integer-only);
/// `Pow` is `^` (right-associative). `Div` (`/`) always yields `Float`. The comparisons
/// (`Eq`..`Ge`) yield `Bool`; the logicals (`And`/`Or`/`Xor`) take and yield `Bool`.
#[derive(Debug, Clone, Copy, PartialEq, Eq, Structural)]
pub enum BinOp {
    Add,
    Sub,
    Mul,
    Div,
    IntDiv,
    Mod,
    Pow,
    Eq,
    Ne,
    Lt,
    Gt,
    Le,
    Ge,
    And,
    Or,
    Xor,
}

/// A unary (prefix) operator: arithmetic negation (`-`) or logical `not`.
#[derive(Debug, Clone, Copy, PartialEq, Eq, Structural)]
pub enum UnOp {
    Neg,
    Not,
}

/// The operator that introduced a [`Node::Range`]: `..` keeps both bounds, `..<`/`..>` drop the
/// stop bound (ascending / descending).
#[derive(Debug, Clone, Copy, PartialEq, Eq, Structural)]
pub enum RangeKind {
    /// `..`
    Inclusive,
    /// `..<`
    UpExclusive,
    /// `..>`
    DownExclusive,
}

/// A named location that can be read or written: a bare name (current scope) or an
/// explicit `::` global. "Place" is the standard compiler term (Rust's "place expression")
/// for such a location — it appears on either side of `=`, not just as an assignment target.
#[derive(Debug, Clone, Copy, PartialEq, Eq, Structural)]
pub enum Place {
    Local(SymId),
    Global(SymId),
}

/// The symbol behind a place, whether it is a local or a global.
pub open spec fn symbol_of(place: Place) -> SymId {
    match place {
        Place::Local(sym_id) => sym_id,
        Place::Global(sym_id) => sym_id,
    }
}

/// The symbol behind a place, whether it is a local or a global.
pub fn place_sym(place: Place) -> (r: SymId)
    ensures
        r == symbol_of(place),
{
    match place {
        Place::Local(sym_id) => sym_id,
        Place::Global(sym_id) => sym_id,
    }
}

/// One piece of an f-string: fixed text, or the value of a name.
#[derive(Debug, Clone, Copy, PartialEq, Eq, Structural)]
pub enum FStrSegment {
    Literal(StrId),
    Interp(Place),
}

// ---------------------------------------------------------------------------
// Expressions
// ---------------------------------------------------------------------------

/// An expression in the AST arena. Child expressions are referenced by [`ExprId`] index rather
/// than boxed, so a `Node` is a flat, `Clone` value and the whole tree lives in one `Vec`.
#[derive(Debug, PartialEq)]
#[allow(inconsistent_fields)]
pub enum Node {
    Int(i64),
    /// A floating-point literal: its digits as written, without the `_` separators.
    Float(String),
    Bool(bool),
    Str(StrId),
    /// An f-string: its pieces in order.
    FStr { segments: Vec<FStrSegment> },
    /// A bare name: a parameter/local, or a top-level global.
    Var(SymId),
    /// `::name`
    Global(SymId),
    Unary { op: UnOp, operand: ExprId },
    Bin { op: BinOp, lhs: ExprId, rhs: ExprId },
    Call { callee: SymId, args: Vec<ExprId> },
    /// `if`/`elif`/`else` — one node for both the block form and the one-line ternary (which is a
    /// single arm plus a mandatory `else_block`). Each arm's value is its body's trailing
    /// expression; the node yields a value only when `else_block` is present and every branch ends
    /// in one (see sema).
    If { arms: Vec<IfArm>, else_block: Option<Block> },
    /// An integer range `start..stop[:step]`. `kind` records the operator (`..`/`..<`/`..>`); a
    /// `None` step defaults to ±1 at lowering. Its type is [`PinpType::Range`].
    Range { start: ExprId, stop: ExprId, step: Option<ExprId>, kind: RangeKind },
    /// `value in range` — a `Bool` membership test.
    Membership { value: ExprId, range: ExprId },
    /// `[e0, e1, …]` — a 1D array literal; all elements must share a common type.
    ArrayLiteral { elements: Vec<ExprId> },
    /// `[e00, e01; e10, e11]` — a matrix literal, row by row.
    MatrixLiteral { rows: Vec<Vec<ExprId>> },
    /// `array[index]` — read one element of a 1D array.
    Index { array: ExprId, index: ExprId },
    /// `matrix[row, col]` — read an element, a row, a column or a part of a matrix.
    Index2D { matrix: ExprId, row: ExprId, col: ExprId },
    /// `:` as a dimension selector: the whole of that dimension.
    FullExtent,
    /// `object.member` — a built-in member access (e.g. `.len` on an array).
    Member { object: ExprId, member: SymId },
    /// `[element for var[:type] in source]` — array comprehension.
    /// `var_type` defaults to the source range's element type; annotating `:float` promotes it.
    Comprehension { element: ExprId, var: SymId, var_type: PinpType, source: ExprId },
}

/// One `if`/`elif` arm: a condition and the body taken when it holds.
#[derive(Debug, PartialEq)]
pub struct IfArm {
    pub cond: ExprId,
    pub body: Block,
}

// ---------------------------------------------------------------------------
// Statements and items
// ---------------------------------------------------------------------------

/// A statement: an assignment, or an expression evaluated for its value.
///
/// `Assign` follows Python's `(target_list =)+ expr_list`: the `values` are evaluated once (in
/// full, before any store, so `a, b = b, a` swaps), then assigned positionally to every target
/// group in `target_lists`. Single `a = 1` is the degenerate `target_lists: [[a]], values: [rhs]`;
/// a compound assignment (`x += e`) desugars at parse time into that same single-target,
/// single-value shape.
#[derive(Debug, PartialEq)]
pub enum Stmt {
    /// `target_spans` holds, group by group, where each target is written.
    Assign {
        target_lists: Vec<Vec<Place>>,
        target_spans: Vec<Vec<Span>>,
        values: Vec<ExprId>,
    },
    Expr(ExprId),
    /// Pre-test loop: run `body` while `cond` holds.
    While { cond: ExprId, body: Block },
    /// Post-test (do–while) loop: run `body`, then repeat while `cond` holds (`until` ⇒ repeat
    /// while `cond` is *false*).
    Loop { body: Block, cond: ExprId, until: bool },
    /// `for var in source <body>` — iterates `var` (read-only and body-local) over a range or an
    /// array.
    For { var: SymId, source: ExprId, body: Block },
    /// `for i, x in source <body>` — iterates several binders over an array or a matrix.
    ForArray { binders: Vec<SymId>, source: ExprId, body: Block },
    /// `arr[index] = value` — write one element of a 1D array in place; `compound_op` is set for
    /// `arr[index] <op>= value`.
    IndexedAssign { target: Place, index: ExprId, value: ExprId, compound_op: Option<BinOp> },
    /// `mat[row, col] = value` — write into a matrix in place.
    IndexedAssign2D {
        target: Place,
        row: ExprId,
        col: ExprId,
        value: ExprId,
        compound_op: Option<BinOp>,
    },
}

/// A function parameter: its interned name and resolved type.
#[derive(Debug, Clone, Copy, PartialEq, Eq, Structural)]
pub struct Param {
    pub name: SymId,
    pub param_type: PinpType,
}

/// A block of statements with an optional trailing `result` expression — its value when used as
/// one (an `if` arm or a function body). A function body always carries a `result` (the parser
/// requires it); a control-flow body that ends in a statement has `result: None`.
#[derive(Debug, PartialEq)]
pub struct Block {
    pub stmts: Vec<Stmt>,
    pub result: Option<ExprId>,
}

/// A parsed function definition: name, parameters, return type, and body.
#[derive(Debug, PartialEq)]
pub struct FuncDef {
    pub name: SymId,
    pub params: Vec<Param>,
    pub return_type: PinpType,
    pub body: Block,
}

/// One element at the top level of a program: a function definition, or a statement that runs in
/// the global scope.
#[derive(Debug, PartialEq)]
pub enum TopLevel {
    Func(FuncDef),
    Stmt(Stmt),
}

// ---------------------------------------------------------------------------
// The same, with sequences for vectors
// ---------------------------------------------------------------------------

/// What a [`Node`] says.
pub enum NodeView {
    Int(i64),
    Float(Seq<char>),
    Bool(bool),
    Str(StrId),
    FStr(Seq<FStrSegment>),
    Var(SymId),
    Global(SymId),
    Unary(UnOp, ExprId),
    Bin(BinOp, ExprId, ExprId),
    Call(SymId, Seq<ExprId>),
    If(Seq<IfArmView>, Option<BlockView>),
    Range(ExprId, ExprId, Option<ExprId>, RangeKind),
    Membership(ExprId, ExprId),
    ArrayLiteral(Seq<ExprId>),
    MatrixLiteral(Seq<Seq<ExprId>>),
    Index(ExprId, ExprId),
    Index2D(ExprId, ExprId, ExprId),
    FullExtent,
    Member(ExprId, SymId),
    Comprehension(ExprId, SymId, PinpType, ExprId),
}

/// What an [`IfArm`] says.
pub struct IfArmView {
    pub cond: ExprId,
    pub body: BlockView,
}

/// What a [`Stmt`] says.
pub enum StmtView {
    Assign(Seq<Seq<Place>>, Seq<Seq<Span>>, Seq<ExprId>),
    Expr(ExprId),
    While(ExprId, BlockView),
    Loop(BlockView, ExprId, bool),
    For(SymId, ExprId, BlockView),
    ForArray(Seq<SymId>, ExprId, BlockView),
    IndexedAssign(Place, ExprId, ExprId, Option<BinOp>),
    IndexedAssign2D(Place, ExprId, ExprId, ExprId, Option<BinOp>),
}

/// What a [`Block`] says.
pub struct BlockView {
    pub stmts: Seq<StmtView>,
    pub result: Option<ExprId>,
}

/// What a [`FuncDef`] says.
pub struct FuncDefView {
    pub name: SymId,
    pub params: Seq<Param>,
    pub return_type: PinpType,
    pub body: BlockView,
}

/// What a [`TopLevel`] says.
pub enum TopLevelView {
    Func(FuncDefView),
    Stmt(StmtView),
}

/// The contents of a vector of vectors.
pub open spec fn nested<T>(rows: Seq<Vec<T>>) -> Seq<Seq<T>> {
    Seq::new(rows.len(), |i: int| rows[i]@)
}

pub open spec fn stmt_view(stmt: Stmt) -> StmtView
    decreases stmt,
{
    match stmt {
        Stmt::Assign { target_lists, target_spans, values } => StmtView::Assign(
            nested(target_lists@),
            nested(target_spans@),
            values@,
        ),
        Stmt::Expr(expr_id) => StmtView::Expr(expr_id),
        Stmt::While { cond, body } => StmtView::While(cond, block_view(body)),
        Stmt::Loop { body, cond, until } => StmtView::Loop(block_view(body), cond, until),
        Stmt::For { var, source, body } => StmtView::For(var, source, block_view(body)),
        Stmt::ForArray { binders, source, body } => StmtView::ForArray(
            binders@,
            source,
            block_view(body),
        ),
        Stmt::IndexedAssign { target, index, value, compound_op } => StmtView::IndexedAssign(
            target,
            index,
            value,
            compound_op,
        ),
        Stmt::IndexedAssign2D { target, row, col, value, compound_op } => StmtView::IndexedAssign2D(
            target,
            row,
            col,
            value,
            compound_op,
        ),
    }
}

pub open spec fn block_view(block: Block) -> BlockView
    decreases block,
{
    BlockView {
        stmts: Seq::new(
            block.stmts@.len(),
            |i: int|
                if 0 <= i < block.stmts@.len() {
                    stmt_view(block.stmts@[i])
                } else {
                    StmtView::Expr(ExprId(0))
                },
        ),
        result: block.result,
    }
}

impl View for Stmt {
    type V = StmtView;

    open spec fn view(&self) -> StmtView {
        stmt_view(*self)
    }
}

impl View for Block {
    type V = BlockView;

    open spec fn view(&self) -> BlockView {
        block_view(*self)
    }
}

impl View for IfArm {
    type V = IfArmView;

    open spec fn view(&self) -> IfArmView {
        IfArmView { cond: self.cond, body: self.body@ }
    }
}

/// The views of a list of statements.
pub open spec fn stmt_views(stmts: Seq<Stmt>) -> Seq<StmtView> {
    Seq::new(stmts.len(), |i: int| stmts[i]@)
}

/// The views of a list of arms.
pub open spec fn arm_views(arms: Seq<IfArm>) -> Seq<IfArmView> {
    Seq::new(arms.len(), |i: int| arms[i]@)
}

/// The view of an optional block.
pub open spec fn optional_block(block: Option<Block>) -> Option<BlockView> {
    match block {
        Some(block) => Some(block@),
        None => None,
    }
}

impl View for Node {
    type V = NodeView;

    open spec fn view(&self) -> NodeView {
        match *self {
            Node::Int(value) => NodeView::Int(value),
            Node::Float(digits) => NodeView::Float(digits@),
            Node::Bool(value) => NodeView::Bool(value),
            Node::Str(str_id) => NodeView::Str(str_id),
            Node::FStr { segments } => NodeView::FStr(segments@),
            Node::Var(sym_id) => NodeView::Var(sym_id),
            Node::Global(sym_id) => NodeView::Global(sym_id),
            Node::Unary { op, operand } => NodeView::Unary(op, operand),
            Node::Bin { op, lhs, rhs } => NodeView::Bin(op, lhs, rhs),
            Node::Call { callee, args } => NodeView::Call(callee, args@),
            Node::If { arms, else_block } => NodeView::If(
                arm_views(arms@),
                optional_block(else_block),
            ),
            Node::Range { start, stop, step, kind } => NodeView::Range(start, stop, step, kind),
            Node::Membership { value, range } => NodeView::Membership(value, range),
            Node::ArrayLiteral { elements } => NodeView::ArrayLiteral(elements@),
            Node::MatrixLiteral { rows } => NodeView::MatrixLiteral(nested(rows@)),
            Node::Index { array, index } => NodeView::Index(array, index),
            Node::Index2D { matrix, row, col } => NodeView::Index2D(matrix, row, col),
            Node::FullExtent => NodeView::FullExtent,
            Node::Member { object, member } => NodeView::Member(object, member),
            Node::Comprehension { element, var, var_type, source } => NodeView::Comprehension(
                element,
                var,
                var_type,
                source,
            ),
        }
    }
}

impl View for FuncDef {
    type V = FuncDefView;

    open spec fn view(&self) -> FuncDefView {
        FuncDefView {
            name: self.name,
            params: self.params@,
            return_type: self.return_type,
            body: self.body@,
        }
    }
}

impl View for TopLevel {
    type V = TopLevelView;

    open spec fn view(&self) -> TopLevelView {
        match *self {
            TopLevel::Func(func) => TopLevelView::Func(func@),
            TopLevel::Stmt(stmt) => TopLevelView::Stmt(stmt@),
        }
    }
}

// ---------------------------------------------------------------------------
// Well-formed trees
// ---------------------------------------------------------------------------

/// How much the ids in a tree may refer to: the expressions made before it, and the names and
/// string literals there are.
pub struct Bounds {
    pub nodes: int,
    pub names: int,
    pub strings: int,
}

pub open spec fn within(small: Bounds, large: Bounds) -> bool {
    small.nodes <= large.nodes && small.names <= large.names && small.strings <= large.strings
}

pub open spec fn expr_ok(expr_id: ExprId, at: Bounds) -> bool {
    expr_id.0 < at.nodes
}

pub open spec fn symbol_ok(sym_id: SymId, at: Bounds) -> bool {
    sym_id.0 < at.names
}

pub open spec fn exprs_ok(exprs: Seq<ExprId>, at: Bounds) -> bool {
    forall|i: int| 0 <= i < exprs.len() ==> expr_ok(#[trigger] exprs[i], at)
}

pub open spec fn places_ok(places: Seq<Place>, at: Bounds) -> bool {
    forall|i: int| 0 <= i < places.len() ==> symbol_ok(symbol_of(#[trigger] places[i]), at)
}

/// An assignment has as many targets, each with its span, in every group as it has values, and at
/// least one of each. A loop over several binders has two or three.
pub open spec fn stmt_ok(stmt: StmtView, at: Bounds) -> bool
    decreases stmt,
{
    match stmt {
        StmtView::Assign(targets, spans, values) => {
            &&& targets.len() > 0
            &&& values.len() > 0
            &&& spans.len() == targets.len()
            &&& exprs_ok(values, at)
            &&& forall|i: int|
                0 <= i < targets.len() ==> (#[trigger] targets[i]).len() == values.len()
                    && places_ok(targets[i], at)
            &&& forall|i: int| 0 <= i < spans.len() ==> (#[trigger] spans[i]).len() == values.len()
        },
        StmtView::Expr(expr_id) => expr_ok(expr_id, at),
        StmtView::While(cond, body) => expr_ok(cond, at) && block_ok(body, at),
        StmtView::Loop(body, cond, until) => expr_ok(cond, at) && block_ok(body, at),
        StmtView::For(var, source, body) => symbol_ok(var, at) && expr_ok(source, at) && block_ok(
            body,
            at,
        ),
        StmtView::ForArray(binders, source, body) => {
            &&& 2 <= binders.len() <= 3
            &&& forall|i: int| 0 <= i < binders.len() ==> symbol_ok(#[trigger] binders[i], at)
            &&& expr_ok(source, at)
            &&& block_ok(body, at)
        },
        StmtView::IndexedAssign(target, index, value, op) => {
            symbol_ok(symbol_of(target), at) && expr_ok(index, at) && expr_ok(value, at)
        },
        StmtView::IndexedAssign2D(target, row, col, value, op) => {
            symbol_ok(symbol_of(target), at) && expr_ok(row, at) && expr_ok(col, at) && expr_ok(
                value,
                at,
            )
        },
    }
}

pub open spec fn block_ok(block: BlockView, at: Bounds) -> bool
    decreases block,
{
    &&& forall|i: int| 0 <= i < block.stmts.len() ==> stmt_ok(#[trigger] block.stmts[i], at)
    &&& block.result matches Some(result) ==> expr_ok(result, at)
}

pub open spec fn segment_ok(segment: FStrSegment, at: Bounds) -> bool {
    match segment {
        FStrSegment::Literal(str_id) => str_id.0 < at.strings,
        FStrSegment::Interp(place) => symbol_ok(symbol_of(place), at),
    }
}

pub open spec fn node_ok(node: NodeView, at: Bounds) -> bool {
    match node {
        NodeView::Int(_) | NodeView::Float(_) | NodeView::Bool(_) | NodeView::FullExtent => true,
        NodeView::Str(str_id) => str_id.0 < at.strings,
        NodeView::FStr(segments) => forall|i: int|
            0 <= i < segments.len() ==> segment_ok(#[trigger] segments[i], at),
        NodeView::Var(sym_id) => symbol_ok(sym_id, at),
        NodeView::Global(sym_id) => symbol_ok(sym_id, at),
        NodeView::Unary(_, operand) => expr_ok(operand, at),
        NodeView::Bin(_, lhs, rhs) => expr_ok(lhs, at) && expr_ok(rhs, at),
        NodeView::Call(callee, args) => symbol_ok(callee, at) && exprs_ok(args, at),
        NodeView::If(arms, else_block) => {
            &&& arms.len() > 0
            &&& forall|i: int|
                0 <= i < arms.len() ==> expr_ok((#[trigger] arms[i]).cond, at) && block_ok(
                    arms[i].body,
                    at,
                )
            &&& else_block matches Some(block) ==> block_ok(block, at)
        },
        NodeView::Range(start, stop, step, _) => {
            &&& expr_ok(start, at)
            &&& expr_ok(stop, at)
            &&& step matches Some(step) ==> expr_ok(step, at)
        },
        NodeView::Membership(value, range) => expr_ok(value, at) && expr_ok(range, at),
        NodeView::ArrayLiteral(elements) => elements.len() > 0 && exprs_ok(elements, at),
        NodeView::MatrixLiteral(rows) => rows.len() > 1 && forall|i: int|
            0 <= i < rows.len() ==> (#[trigger] rows[i]).len() > 0 && exprs_ok(rows[i], at),
        NodeView::Index(array, index) => expr_ok(array, at) && expr_ok(index, at),
        NodeView::Index2D(matrix, row, col) => expr_ok(matrix, at) && expr_ok(row, at) && expr_ok(
            col,
            at,
        ),
        NodeView::Member(object, member) => expr_ok(object, at) && symbol_ok(member, at),
        NodeView::Comprehension(element, var, _, source) => expr_ok(element, at)
            && symbol_ok(var, at) && expr_ok(source, at),
    }
}

/// A function's body ends in an expression, and no two parameters share a name.
pub open spec fn func_ok(func: FuncDefView, at: Bounds) -> bool {
    &&& symbol_ok(func.name, at)
    &&& func.body.result is Some
    &&& block_ok(func.body, at)
    &&& forall|i: int| 0 <= i < func.params.len() ==> symbol_ok(
        (#[trigger] func.params[i]).name,
        at,
    )
    &&& forall|i: int, j: int|
        0 <= i < j < func.params.len() ==> (#[trigger] func.params[i]).name != (
        #[trigger] func.params[j]).name
}

pub open spec fn top_level_ok(item: TopLevelView, at: Bounds) -> bool {
    match item {
        TopLevelView::Func(func) => func_ok(func, at),
        TopLevelView::Stmt(stmt) => stmt_ok(stmt, at),
    }
}

pub proof fn lemma_stmt_ok_grows(stmt: StmtView, small: Bounds, large: Bounds)
    requires
        stmt_ok(stmt, small),
        within(small, large),
    ensures
        stmt_ok(stmt, large),
    decreases stmt,
{
    match stmt {
        StmtView::While(_, body) => lemma_block_ok_grows(body, small, large),
        StmtView::Loop(body, _, _) => lemma_block_ok_grows(body, small, large),
        StmtView::For(_, _, body) => lemma_block_ok_grows(body, small, large),
        StmtView::ForArray(_, _, body) => lemma_block_ok_grows(body, small, large),
        _ => {},
    }
}

pub proof fn lemma_block_ok_grows(block: BlockView, small: Bounds, large: Bounds)
    requires
        block_ok(block, small),
        within(small, large),
    ensures
        block_ok(block, large),
    decreases block,
{
    assert forall|i: int| 0 <= i < block.stmts.len() implies stmt_ok(
        #[trigger] block.stmts[i],
        large,
    ) by {
        lemma_stmt_ok_grows(block.stmts[i], small, large);
    }
}

pub proof fn lemma_node_ok_grows(node: NodeView, small: Bounds, large: Bounds)
    requires
        node_ok(node, small),
        within(small, large),
    ensures
        node_ok(node, large),
{
    match node {
        NodeView::If(arms, else_block) => {
            assert forall|i: int| 0 <= i < arms.len() implies expr_ok(
                (#[trigger] arms[i]).cond,
                large,
            )
                && block_ok(arms[i].body, large) by {
                lemma_block_ok_grows(arms[i].body, small, large);
            }
            if let Some(block) = else_block {
                lemma_block_ok_grows(block, small, large);
            }
        },
        _ => {},
    }
}

pub proof fn lemma_top_level_ok_grows(item: TopLevelView, small: Bounds, large: Bounds)
    requires
        top_level_ok(item, small),
        within(small, large),
    ensures
        top_level_ok(item, large),
{
    match item {
        TopLevelView::Func(func) => lemma_block_ok_grows(func.body, small, large),
        TopLevelView::Stmt(stmt) => lemma_stmt_ok_grows(stmt, small, large),
    }
}

// ---------------------------------------------------------------------------
// The AST arena
// ---------------------------------------------------------------------------

/// A parsed program. Borrows the source for the lifetime `'src` (identifiers are slices into it).
///
/// Layout: `nodes`, `types` and `spans` are parallel arenas indexed by [`ExprId`]; `top_level` is
/// the program in source order; `names` maps a [`SymId`] back to its text and `string_literals` a
/// [`StrId`]. Returned by [`crate::parser::parse`] with `types` unpopulated;
/// [`crate::sema::analyze`] fills `types` in.
pub struct Ast<'src> {
    pub nodes: Vec<Node>,
    pub types: Vec<PinpType>,
    pub spans: Vec<Span>,
    pub top_level: Vec<TopLevel>,
    pub names: Vec<&'src str>,
    pub string_literals: Vec<String>,
    pub symbols: SymbolTable<'src>,
}

/// A whole parsed program.
pub type ProgramAst<'src> = Ast<'src>;

/// What an [`Ast`] holds, apart from its types.
#[verifier::ext_equal]
pub struct AstView {
    pub nodes: Seq<NodeView>,
    pub spans: Seq<Span>,
    pub names: Seq<Seq<char>>,
    pub strings: Seq<Seq<char>>,
    pub top_level: Seq<TopLevelView>,
}

pub open spec fn node_views(nodes: Seq<Node>) -> Seq<NodeView> {
    Seq::new(nodes.len(), |i: int| nodes[i]@)
}

pub open spec fn name_views(names: Seq<&str>) -> Seq<Seq<char>> {
    Seq::new(names.len(), |i: int| names[i]@)
}

pub open spec fn string_views(strings: Seq<String>) -> Seq<Seq<char>> {
    Seq::new(strings.len(), |i: int| strings[i]@)
}

pub open spec fn top_level_views(items: Seq<TopLevel>) -> Seq<TopLevelView> {
    Seq::new(items.len(), |i: int| items[i]@)
}

impl<'src> View for Ast<'src> {
    type V = AstView;

    open spec fn view(&self) -> AstView {
        AstView {
            nodes: node_views(self.nodes@),
            spans: self.spans@,
            names: name_views(self.names@),
            strings: string_views(self.string_literals@),
            top_level: top_level_views(self.top_level@),
        }
    }
}

impl AstView {
    /// What ids may refer to in the whole program.
    pub open spec fn bounds(self) -> Bounds {
        self.bounds_before(self.nodes.len() as int)
    }

    /// What ids may refer to in a node at index `index`: a node's parts come before it.
    pub open spec fn bounds_before(self, index: int) -> Bounds {
        Bounds { nodes: index, names: self.names.len() as int, strings: self.strings.len() as int }
    }

    /// Every id refers to something, every part of an expression comes before it, every expression
    /// has a span, and no name is interned twice.
    pub open spec fn well_formed(self) -> bool {
        &&& self.spans.len() == self.nodes.len()
        &&& self.nodes.len() <= u32::MAX
        &&& self.names.len() <= u32::MAX
        &&& self.strings.len() <= u32::MAX
        &&& forall|i: int|
            0 <= i < self.nodes.len() ==> node_ok(#[trigger] self.nodes[i], self.bounds_before(i))
        &&& forall|i: int|
            0 <= i < self.top_level.len() ==> top_level_ok(
                #[trigger] self.top_level[i],
                self.bounds(),
            )
        &&& self.names.no_duplicates()
    }
}

/// The names once `name` is among them, and the id it has.
pub open spec fn intern_name(names: Seq<Seq<char>>, name: Seq<char>) -> (Seq<Seq<char>>, SymId) {
    if names.contains(name) {
        (names, SymId(names.index_of(name) as u32))
    } else {
        (names.push(name), SymId(names.len() as u32))
    }
}

impl<'src> Ast<'src> {
    /// A well-formed program with a type for every expression, and an interner that knows exactly
    /// the names there are.
    pub open spec fn well_formed(self) -> bool {
        &&& self@.well_formed()
        &&& self.types@.len() == self.nodes@.len()
        &&& forall|i: int|
            0 <= i < self.names@.len() ==> interned(self.symbols).contains_pair(
                #[trigger] self@.names[i],
                i as u32,
            )
        &&& forall|name: Seq<char>| #[trigger]
            interned(self.symbols).contains_key(name) ==> self@.names.contains(name)
    }

    /// No type has been filled in yet.
    pub open spec fn untyped(self) -> bool {
        forall|i: int| 0 <= i < self.types@.len() ==> #[trigger] self.types@[i] == PinpType::Void
    }

    /// A program with nothing in it.
    pub(crate) fn new() -> (ast: Ast<'src>)
        ensures
            ast.well_formed(),
            ast.untyped(),
            ast@ == (AstView {
                nodes: Seq::empty(),
                spans: Seq::empty(),
                names: Seq::empty(),
                strings: Seq::empty(),
                top_level: Seq::empty(),
            }),
    {
        let ast: Ast<'src> = Ast {
            nodes: Vec::new(),
            types: Vec::new(),
            spans: Vec::new(),
            top_level: Vec::new(),
            names: Vec::new(),
            string_literals: Vec::new(),
            symbols: symbol_table(),
        };
        assert(ast@ =~= AstView {
            nodes: Seq::empty(),
            spans: Seq::empty(),
            names: Seq::empty(),
            strings: Seq::empty(),
            top_level: Seq::empty(),
        });
        ast
    }

    /// Borrows the node at `expr_id`.
    pub fn node(&self, expr_id: ExprId) -> (node: &Node)
        requires
            expr_id.0 < self.nodes@.len(),
        ensures
            *node == self.nodes@[expr_id.0 as int],
    {
        &self.nodes[expr_id.value()]
    }

    /// The type of the node at `expr_id` — valid only after [`crate::sema::analyze`] has run.
    pub fn type_of(&self, expr_id: ExprId) -> (t: PinpType)
        requires
            expr_id.0 < self.types@.len(),
        ensures
            t == self.types@[expr_id.0 as int],
    {
        self.types[expr_id.value()]
    }

    /// Where the expression at `expr_id` is written.
    pub fn span_of(&self, expr_id: ExprId) -> (span: Span)
        requires
            expr_id.0 < self.spans@.len(),
        ensures
            span == self.spans@[expr_id.0 as int],
    {
        self.spans[expr_id.value()]
    }

    /// The content of the string literal at `str_id`.
    pub fn string_literal(&self, str_id: StrId) -> (content: &str)
        requires
            str_id.0 < self.string_literals@.len(),
        ensures
            content@ == self.string_literals@[str_id.0 as int]@,
    {
        self.string_literals[str_id.value()].as_str()
    }

    /// Pushes a node, returning its id. The type is left as a placeholder for sema to fill.
    pub(crate) fn push(&mut self, node: Node, span: Span) -> (expr_id: ExprId)
        requires
            old(self).well_formed(),
            old(self)@.nodes.len() < u32::MAX,
            node_ok(node@, old(self)@.bounds()),
        ensures
            final(self).well_formed(),
            expr_id.0 == old(self)@.nodes.len(),
            final(self)@ == (AstView {
                nodes: old(self)@.nodes.push(node@),
                spans: old(self)@.spans.push(span),
                ..old(self)@
            }),
            final(self).types@ == old(self).types@.push(PinpType::Void),
    {
        let expr_id: ExprId = ExprId(self.nodes.len() as u32);
        let ghost before = self@;
        self.nodes.push(node);
        self.types.push(PinpType::Void);
        self.spans.push(span);
        proof {
            let after = self@;
            assert(after =~= AstView {
                nodes: before.nodes.push(node@),
                spans: before.spans.push(span),
                ..before
            });
            assert forall|i: int| 0 <= i < after.nodes.len() implies node_ok(
                #[trigger] after.nodes[i],
                after.bounds_before(i),
            ) by {
                if i < before.nodes.len() {
                    assert(node_ok(before.nodes[i], before.bounds_before(i)));
                }
            }
            assert forall|i: int| 0 <= i < after.top_level.len() implies top_level_ok(
                #[trigger] after.top_level[i],
                after.bounds(),
            ) by {
                lemma_top_level_ok_grows(before.top_level[i], before.bounds(), after.bounds());
            }
        }
        expr_id
    }

    /// The id of `name`, interned on first use.
    pub(crate) fn intern(&mut self, name: &'src str) -> (sym_id: SymId)
        requires
            old(self).well_formed(),
            old(self)@.names.len() < u32::MAX,
        ensures
            final(self).well_formed(),
            (final(self)@.names, sym_id) == intern_name(old(self)@.names, name@),
            symbol_ok(sym_id, final(self)@.bounds()),
            final(self)@ == (AstView { names: final(self)@.names, ..old(self)@ }),
            final(self).types == old(self).types,
            old(self)@.names.len() <= final(self)@.names.len() <= old(self)@.names.len() + 1,
    {
        let ghost before = self@;
        if let Some(id) = symbol_get(&self.symbols, name) {
            proof {
                let i = before.names.index_of(name@);
                assert(before.names.contains(name@));
                assert(before.names[i] == name@);
                assert(interned(self.symbols).contains_pair(before.names[i], i as u32));
            }
            return SymId(id);
        }
        let id: u32 = self.names.len() as u32;
        proof {
            if before.names.contains(name@) {
                let i = before.names.index_of(name@);
                assert(interned(self.symbols).contains_pair(before.names[i], i as u32));
            }
        }
        self.names.push(name);
        symbol_insert(&mut self.symbols, name, id);
        proof {
            let after = self@;
            assert(after =~= AstView { names: before.names.push(name@), ..before });
            assert forall|i: int| 0 <= i < after.nodes.len() implies node_ok(
                #[trigger] after.nodes[i],
                after.bounds_before(i),
            ) by {
                assert(node_ok(before.nodes[i], before.bounds_before(i)));
                lemma_node_ok_grows(
                    before.nodes[i],
                    before.bounds_before(i),
                    after.bounds_before(i),
                );
            }
            assert forall|i: int| 0 <= i < after.top_level.len() implies top_level_ok(
                #[trigger] after.top_level[i],
                after.bounds(),
            ) by {
                lemma_top_level_ok_grows(before.top_level[i], before.bounds(), after.bounds());
            }
            assert forall|i: int| 0 <= i < self.names@.len() implies interned(
                self.symbols,
            ).contains_pair(#[trigger] after.names[i], i as u32) by {
                if i < before.names.len() {
                    assert(before.names[i] == after.names[i]);
                    assert(before.names.contains(before.names[i]));
                }
            }
            assert forall|other: Seq<char>| #[trigger]
                interned(self.symbols).contains_key(other) implies after.names.contains(other) by {
                if other == name@ {
                    assert(after.names[before.names.len() as int] == other);
                } else {
                    let i = before.names.index_of(other);
                    assert(before.names.contains(other));
                    assert(after.names[i] == other);
                }
            }
        }
        SymId(id)
    }

    /// Stores the content of a string literal, returning its id.
    pub(crate) fn push_string_literal(&mut self, content: String) -> (str_id: StrId)
        requires
            old(self).well_formed(),
            old(self)@.strings.len() < u32::MAX,
        ensures
            final(self).well_formed(),
            str_id.0 == old(self)@.strings.len(),
            final(self)@ == (AstView { strings: old(self)@.strings.push(content@), ..old(self)@ }),
            final(self).types == old(self).types,
    {
        let ghost before = self@;
        let str_id: StrId = StrId(self.string_literals.len() as u32);
        self.string_literals.push(content);
        proof {
            let after = self@;
            assert(after =~= AstView { strings: before.strings.push(content@), ..before });
            assert forall|i: int| 0 <= i < after.nodes.len() implies node_ok(
                #[trigger] after.nodes[i],
                after.bounds_before(i),
            ) by {
                assert(node_ok(before.nodes[i], before.bounds_before(i)));
                lemma_node_ok_grows(
                    before.nodes[i],
                    before.bounds_before(i),
                    after.bounds_before(i),
                );
            }
            assert forall|i: int| 0 <= i < after.top_level.len() implies top_level_ok(
                #[trigger] after.top_level[i],
                after.bounds(),
            ) by {
                lemma_top_level_ok_grows(before.top_level[i], before.bounds(), after.bounds());
            }
        }
        str_id
    }

    /// Appends an item to the program.
    pub(crate) fn push_top_level(&mut self, item: TopLevel)
        requires
            old(self).well_formed(),
            top_level_ok(item@, old(self)@.bounds()),
        ensures
            final(self).well_formed(),
            final(self)@ == (AstView { top_level: old(self)@.top_level.push(item@), ..old(self)@ }),
            final(self).types == old(self).types,
    {
        let ghost before = self@;
        self.top_level.push(item);
        assert(self@ =~= AstView { top_level: before.top_level.push(item@), ..before });
    }
}

/// The expression that *reads* a [`Place`]: `x` -> `Var`, `::g` -> `Global`. Used to build the
/// `place` operand when desugaring `place <op>= e` into `place = place <op> e`.
pub open spec fn place_read(place: Place) -> NodeView {
    match place {
        Place::Local(sym_id) => NodeView::Var(sym_id),
        Place::Global(sym_id) => NodeView::Global(sym_id),
    }
}

/// The expression that reads a place.
pub(crate) fn read_of(place: Place) -> (node: Node)
    ensures
        node@ == place_read(place),
{
    match place {
        Place::Local(sym_id) => Node::Var(sym_id),
        Place::Global(sym_id) => Node::Global(sym_id),
    }
}

} // verus!
