//! Lowering of whole programs.

use vstd::prelude::*;

use super::builder::{CodeGen, CodegenError, Program, Slot};
use super::flow::lowered_modules_are_valid;
use super::ir::{FunctionName, IrType, Module, Op, Value};
use super::lowering::{
    entry_code, function_code, functions_code, functions_declared, globals_declared, group_declared,
    groups_declared, items_code, lowered, module_of, param_types, params_code, program_owns_str,
    program_type, return_code, value_written,
};
use super::validity::valid_module;
use crate::parser::ast::{
    Ast, ExprId, FuncDef, Param, PinpType, Place, Stmt, SymId, TopLevel, expr_ok, exprs_ok,
    func_ok, nested, place_sym, top_level_ok,
};

verus! {

impl<'ast, 'src> CodeGen<'ast, 'src> {
    /// Declares a global for each target of one group of an assignment, unless it has one.
    fn declare_group(&mut self, group: &Vec<Place>, values: &Vec<ExprId>)
        requires
            old(self).ready(0),
            exprs_ok(values@, old(self).program().ast.bounds()),
        ensures
            final(self).program() == old(self).program(),
            final(self).state() == group_declared(
                old(self).state(),
                old(self).program(),
                group@,
                values@,
                0,
            ),
    {
        let mut index: usize = 0;
        while index < group.len() && index < values.len()
            invariant
                self.ready(0),
                self.program() == old(self).program(),
                exprs_ok(values@, self.program().ast.bounds()),
                index <= group@.len(),
                group_declared(old(self).state(), self.program(), group@, values@, 0)
                    == group_declared(
                    self.state(),
                    self.program(),
                    group@,
                    values@,
                    index as int,
                ),
            decreases group@.len() - index,
        {
            let sym_id: SymId = place_sym(group[index]);
            assert(expr_ok(values@[index as int], self.program().ast.bounds()));
            if self.find_global(sym_id).is_none() {
                let value_type: PinpType = self.type_of(values[index]);
                let _ = self.storable(value_type);
                self.add_global(sym_id, value_type);
            }
            index = index + 1;
        }
    }

    fn declare_groups(&mut self, groups: &Vec<Vec<Place>>, values: &Vec<ExprId>)
        requires
            old(self).ready(0),
            exprs_ok(values@, old(self).program().ast.bounds()),
        ensures
            final(self).program() == old(self).program(),
            final(self).state() == groups_declared(
                old(self).state(),
                old(self).program(),
                nested(groups@),
                values@,
                0,
            ),
    {
        let mut index: usize = 0;
        while index < groups.len()
            invariant
                self.ready(0),
                self.program() == old(self).program(),
                exprs_ok(values@, self.program().ast.bounds()),
                index <= groups@.len(),
                groups_declared(old(self).state(), self.program(), nested(groups@), values@, 0)
                    == groups_declared(
                    self.state(),
                    self.program(),
                    nested(groups@),
                    values@,
                    index as int,
                ),
            decreases groups@.len() - index,
        {
            assert(nested(groups@)[index as int] == groups@[index as int]@);
            self.declare_group(&groups[index], values);
            index = index + 1;
        }
    }

    /// Declares a global for every symbol assigned at the top level.
    fn declare_globals(&mut self)
        requires
            old(self).ready(0),
        ensures
            final(self).program() == old(self).program(),
            final(self).state() == globals_declared(old(self).state(), old(self).program(), 0),
    {
        let ast: &'ast Ast<'src> = self.tree();
        let mut index: usize = 0;
        while index < ast.top_level.len()
            invariant
                self.ready(0),
                self.program() == old(self).program(),
                ast@ == self.program().ast,
                index <= ast.top_level@.len(),
                globals_declared(old(self).state(), self.program(), 0) == globals_declared(
                    self.state(),
                    self.program(),
                    index as int,
                ),
            decreases ast.top_level@.len() - index,
        {
            proof {
                assert(ast@.top_level[index as int] == ast.top_level@[index as int]@);
                assert(top_level_ok(ast@.top_level[index as int], ast@.bounds()));
            }
            if let TopLevel::Stmt(Stmt::Assign { target_lists, values, .. }) =
                &ast.top_level[index] {
                self.declare_groups(target_lists, values);
            }
            index = index + 1;
        }
    }

    /// Declares the signature of every function, so that calls resolve wherever they stand.
    fn declare_functions(&mut self)
        requires
            old(self).ready(0),
        ensures
            final(self).program() == old(self).program(),
            final(self).state() == functions_declared(old(self).state(), old(self).program(), 0),
    {
        let ast: &'ast Ast<'src> = self.tree();
        let mut index: usize = 0;
        while index < ast.top_level.len()
            invariant
                self.ready(0),
                self.program() == old(self).program(),
                ast@ == self.program().ast,
                index <= ast.top_level@.len(),
                functions_declared(old(self).state(), self.program(), 0) == functions_declared(
                    self.state(),
                    self.program(),
                    index as int,
                ),
            decreases ast.top_level@.len() - index,
        {
            assert(ast@.top_level[index as int] == ast.top_level@[index as int]@);
            if let TopLevel::Func(func) = &ast.top_level[index] {
                let types: Vec<PinpType> = types_of_params(&func.params);
                let _ = self.add_function(FunctionName::Named(func.name), types, func.return_type);
            }
            index = index + 1;
        }
    }

    /// Gives each parameter a slot, so that it reads and writes like any local.
    fn gen_params(&mut self, params: &Vec<Param>)
        ensures
            final(self).program() == old(self).program(),
            final(self).state() == params_code(old(self).state(), params@, 0),
    {
        let mut index: usize = 0;
        while index < params.len()
            invariant
                self.program() == old(self).program(),
                index <= params@.len(),
                params_code(old(self).state(), params@, 0) == params_code(
                    self.state(),
                    params@,
                    index as int,
                ),
            decreases params@.len() - index,
        {
            let param: Param = params[index];
            let ir_type: IrType = self.storable(param.param_type);
            let slot: Value = self.emit(Op::Alloca(ir_type));
            let _ = self.emit(Op::Store(slot, Value::Param(index)));
            self.bind(param.name, Slot { place: slot, value_type: param.param_type });
            index = index + 1;
        }
    }

    /// Ends a function's body: moves its result out, releases the frame's strings, and returns.
    fn gen_return(&mut self, return_type: PinpType, result: ExprId, Ghost(limit): Ghost<int>)
        requires
            old(self).ready(limit),
            result.0 < limit,
        ensures
            final(self).program() == old(self).program(),
            final(self).state() == return_code(
                old(self).state(),
                old(self).program(),
                return_type,
                result,
                limit,
            ),
    {
        if return_type == PinpType::Void {
            let yielded: Option<Value> = self.gen_expr(result, Ghost(limit));
            self.free_unused_str(result, yielded);
            self.free_scope_strings();
            let _ = self.emit(Op::ReturnVoid);
        } else {
            let raw: Value = if return_type == PinpType::Str {
                self.gen_owned_str(result, Ghost(limit))
            } else {
                self.expect_value(result, Ghost(limit))
            };
            let result_type: PinpType = self.type_of(result);
            let value: Value = self.promote(raw, result_type, return_type);
            self.free_scope_strings();
            let _ = self.emit(Op::Return(value));
        }
    }

    /// Lowers one function into its body.
    fn gen_function(&mut self, func: &FuncDef)
        requires
            old(self).ready(0),
            func_ok(func@, old(self).program().ast.bounds()),
        ensures
            final(self).program() == old(self).program(),
            final(self).state() == function_code(
                old(self).state(),
                old(self).program(),
                func@,
            ),
    {
        let ghost limit = self.program().ast.nodes.len() as int;
        match self.find_function(func.name) {
            Some(function) => {
                self.begin_body(function, true);
                self.gen_params(&func.params);
                self.gen_stmts(&func.body, Ghost(limit));
                match func.body.result {
                    Some(result) => self.gen_return(func.return_type, result, Ghost(limit)),
                    None => self.fail(CodegenError::Malformed),
                }
            },
            None => self.fail(CodegenError::Malformed),
        }
    }

    /// Lowers every function.
    fn gen_functions(&mut self)
        requires
            old(self).ready(0),
        ensures
            final(self).program() == old(self).program(),
            final(self).state() == functions_code(old(self).state(), old(self).program(), 0),
    {
        let ast: &'ast Ast<'src> = self.tree();
        let mut index: usize = 0;
        while index < ast.top_level.len()
            invariant
                self.ready(0),
                self.program() == old(self).program(),
                ast@ == self.program().ast,
                index <= ast.top_level@.len(),
                functions_code(old(self).state(), self.program(), 0) == functions_code(
                    self.state(),
                    self.program(),
                    index as int,
                ),
            decreases ast.top_level@.len() - index,
        {
            proof {
                assert(ast@.top_level[index as int] == ast.top_level@[index as int]@);
                assert(top_level_ok(ast@.top_level[index as int], ast@.bounds()));
            }
            if let TopLevel::Func(func) = &ast.top_level[index] {
                self.gen_function(func);
            }
            index = index + 1;
        }
    }

    /// The type of the program's value.
    fn result_type(&self) -> (r: PinpType)
        requires
            self.ready(0),
        ensures
            r == program_type(self.program()),
    {
        let ast: &'ast Ast<'src> = self.tree();
        let count: usize = ast.top_level.len();
        if count == 0 {
            return PinpType::Void;
        }
        proof {
            assert(ast@.top_level.last() == ast.top_level@[count - 1]@);
            assert(top_level_ok(ast@.top_level[count - 1], ast@.bounds()));
        }
        match &ast.top_level[count - 1] {
            TopLevel::Stmt(Stmt::Expr(expr_id)) => self.type_of(*expr_id),
            TopLevel::Stmt(Stmt::Assign { values, .. }) => {
                assert(expr_ok(values@[values@.len() - 1], ast@.bounds()));
                self.type_of(values[values.len() - 1])
            },
            _ => PinpType::Void,
        }
    }

    /// Whether the last top-level item yields a string that its receiver owns.
    fn result_owns_str(&self) -> (r: bool)
        requires
            self.ready(0),
        ensures
            r == program_owns_str(self.program()),
    {
        let ast: &'ast Ast<'src> = self.tree();
        let count: usize = ast.top_level.len();
        if count == 0 {
            return false;
        }
        proof {
            assert(ast@.top_level.last() == ast.top_level@[count - 1]@);
            assert(top_level_ok(ast@.top_level[count - 1], ast@.bounds()));
        }
        match &ast.top_level[count - 1] {
            TopLevel::Stmt(Stmt::Expr(expr_id)) => self.owns_str_result(*expr_id),
            _ => false,
        }
    }

    /// Lowers the top-level statements, with the value of the last item.
    fn gen_items(&mut self) -> (r: Option<Value>)
        requires
            old(self).ready(0),
        ensures
            final(self).program() == old(self).program(),
            (final(self).state(), r) == items_code(old(self).state(), old(self).program(), 0),
    {
        let ast: &'ast Ast<'src> = self.tree();
        let ghost limit = self.program().ast.nodes.len() as int;
        let count: usize = ast.top_level.len();
        let mut index: usize = 0;
        while index < count
            invariant
                self.ready(limit),
                self.program() == old(self).program(),
                ast@ == self.program().ast,
                limit == self.program().ast.nodes.len(),
                count == ast.top_level@.len(),
                index <= count,
                items_code(old(self).state(), self.program(), 0) == items_code(
                    self.state(),
                    self.program(),
                    index as int,
                ),
            decreases count - index,
        {
            proof {
                assert(ast@.top_level[index as int] == ast.top_level@[index as int]@);
                assert(top_level_ok(ast@.top_level[index as int], ast@.bounds()));
            }
            if let TopLevel::Stmt(stmt) = &ast.top_level[index] {
                let yielded: Option<Value> = self.gen_stmt(stmt, Ghost(limit));
                if index == count - 1 {
                    return yielded;
                }
                self.free_discarded_str(stmt, yielded);
            }
            index = index + 1;
        }
        None
    }

    /// Writes the program's value to the address the entry function is given.
    fn write_value(&mut self, yielded: Option<Value>)
        requires
            old(self).ready(0),
        ensures
            final(self).program() == old(self).program(),
            final(self).state() == value_written(
                old(self).state(),
                old(self).program(),
                yielded,
            ),
    {
        let value_type: PinpType = self.result_type();
        if value_type == PinpType::Void {
            return ;
        }
        match yielded {
            Some(value) => {
                let result: Value = if value_type == PinpType::Str {
                    let owned: bool = self.result_owns_str();
                    self.own_str(value, owned)
                } else {
                    value
                };
                let _ = self.emit(Op::Store(Value::Param(0), result));
            },
            None => self.fail(CodegenError::Malformed),
        }
    }

    /// Emits the entry function from the top-level statements.
    fn gen_entry(&mut self)
        requires
            old(self).ready(0),
        ensures
            final(self).program() == old(self).program(),
            final(self).state() == entry_code(old(self).state(), old(self).program()),
    {
        if self.result_type() == PinpType::Range {
            self.fail(CodegenError::RangeResult);
        }
        let params: Vec<PinpType> = Vec::new();
        let function: usize = self.add_function(FunctionName::Entry, params, PinpType::Void);
        self.begin_body(function, false);
        let yielded: Option<Value> = self.gen_items();
        self.write_value(yielded);
        self.free_scope_strings();
        self.free_global_strings();
        let _ = self.emit(Op::ReturnVoid);
    }
}

/// The types of a function's parameters.
fn types_of_params(params: &Vec<Param>) -> (types: Vec<PinpType>)
    ensures
        types@ == param_types(params@),
{
    let mut types: Vec<PinpType> = Vec::new();
    let mut index: usize = 0;
    while index < params.len()
        invariant
            index <= params@.len(),
            types@ == param_types(params@).take(index as int),
        decreases params@.len() - index,
    {
        types.push(params[index].param_type);
        index = index + 1;
        assert(types@ =~= param_types(params@).take(index as int));
    }
    assert(types@ =~= param_types(params@));
    types
}

/// A program with its types.
pub open spec fn program_of(ast: Ast) -> Program {
    Program { ast: ast@, types: ast.types@ }
}

/// Lowers a checked program to a valid module, with the type of its value. The tree has to be
/// well-formed; one whose types do not fit its shape is [`CodegenError::Malformed`].
pub fn generate(ast: &Ast) -> (r: Result<(Module, PinpType), CodegenError>)
    requires
        ast@.well_formed(),
        ast.types@.len() == ast@.nodes.len(),
    ensures
        match r {
            Ok((module, value_type)) => {
                &&& lowered(program_of(*ast)).failure is None
                &&& module@ == module_of(lowered(program_of(*ast)))
                &&& valid_module(module@)
                &&& value_type == program_type(program_of(*ast))
            },
            Err(error) => lowered(program_of(*ast)).failure == Some(error),
        },
{
    let mut codegen: CodeGen = CodeGen::new(ast);
    codegen.declare_globals();
    codegen.declare_functions();
    codegen.gen_functions();
    codegen.gen_entry();
    let value_type: PinpType = codegen.result_type();
    match codegen.into_module() {
        Ok(module) => {
            proof {
                lowered_modules_are_valid(program_of(*ast));
            }
            Ok((module, value_type))
        },
        Err(error) => Err(error),
    }
}

} // verus!
