//! Code that goes to one block.
//!
//! An expression without `and` and `or` is lowered to instructions in the
//! current block, which goes on after them.
use vstd::prelude::*;

use crate::ast::{Expression, Field, FunctionCall, InfixOp};
use crate::ir;
use crate::ir::{Block, FuncRef, Inst, Origin, Request};
use crate::lowering;
use crate::lowering::Lowering;

verus! {

/// Whether there is neither `and` nor `or` in an expression, but for the bodies
/// of functions.
pub open spec fn is_flat(e: Expression) -> bool
    decreases e, 0nat,
{
    match e {
        Expression::Unary(_, arg) => is_flat(*arg),
        Expression::Infix(op, exprs) => op !is Or && op !is And && are_flat(exprs@),
        Expression::FunctCall(c) => is_flat_call(*c),
        Expression::Index(table, index) => is_flat(*table) && is_flat(*index),
        Expression::Table(fields) => are_flat_fields(fields@),
        _ => true,
    }
}

pub open spec fn are_flat(exprs: Seq<Expression>) -> bool
    decreases exprs, 0nat,
{
    exprs.len() != 0 ==> is_flat(exprs[0]) && are_flat(exprs.skip(1))
}

pub open spec fn are_flat_fields(fields: Seq<Field>) -> bool
    decreases fields, 0nat,
{
    fields.len() != 0 ==> (fields[0] matches Field::Named(_, e) ==> is_flat(e)) && are_flat_fields(
        fields.skip(1),
    )
}

pub open spec fn is_flat_call(c: FunctionCall) -> bool
    decreases c, 1nat,
{
    are_flat(c.args@) && match c.prefix {
        Expression::Field(table, _) => is_flat(*table),
        _ => is_flat(c.prefix),
    }
}

/// Whether the current block is the same, and no block has ended.
pub open spec fn is_calm(h: Seq<Request>, h1: Seq<Request>) -> bool {
    &&& ir::position(h1) == ir::position(h)
    &&& forall|b: Block| #[trigger] ir::terminated(h1, b) == ir::terminated(h, b)
}

proof fn lemma_calm(h: Seq<Request>, r: Request)
    requires
        r !is Begin,
        r !is Switch,
        r matches Request::Emit { inst, .. } ==> !inst.is_terminator(),
        r matches Request::Emit { block, .. } ==> !ir::terminated(h, block),
    ensures
        is_calm(h, h.push(r)),
{
    ir::lemma_push(h, r);
}

proof fn lemma_emit(h: Seq<Request>, inst: Inst)
    requires
        !inst.is_terminator(),
    ensures
        ir::emit(h, inst) matches Some(h1) ==> is_calm(h, h1),
{
    if ir::emit(h, inst) is Some {
        lemma_calm(h, Request::Emit { block: ir::position(h)->0, inst });
    }
}

proof fn lemma_global_pointer(l: Lowering, name: Seq<char>, initializer: Option<Seq<u8>>)
    ensures
        lowering::global_pointer(l, name, initializer) matches Some((l1, _)) ==> is_calm(
            l.code,
            l1.code,
        ),
{
    reveal(lowering::global_pointer);
    match lowering::declare_global(l, name, initializer) {
        Some((l1, id)) => {
            let r = Request::ImportData { data: id };
            lemma_calm(l1.code, r);
            let data = ir::DataRef(ir::data_imports(l1.code) as u32);
            lemma_emit(l1.code.push(r), Inst::SymbolValue { ty: l1.word, data });
        },
        None => {},
    }
}

proof fn lemma_string_pointer(l: Lowering, bytes: Seq<u8>)
    ensures
        lowering::string_pointer(l, bytes) matches Some((l1, _)) ==> is_calm(l.code, l1.code),
{
    reveal(lowering::string_pointer);
    match lowering::made_up(l) {
        Some(l1) => {
            lemma_global_pointer(l1, "str_"@ + lowering::decimal(l.strings), Some(bytes));
        },
        None => {},
    }
}

proof fn lemma_import_helper(l: Lowering, name: Seq<char>, params: usize)
    ensures
        lowering::import_helper(l, name, params) matches Some((l1, _)) ==> is_calm(
            l.code,
            l1.code,
        ),
{
    match lowering::import_helper(l, name, params) {
        Some((l1, _)) => {
            lemma_calm(l.code, l1.code.last());
        },
        None => {},
    }
}

proof fn lemma_call_helper(l: Lowering, name: Seq<char>, args: Seq<Origin>)
    ensures
        lowering::call_helper(l, name, args) matches Some((l1, _)) ==> is_calm(l.code, l1.code),
{
    reveal(lowering::call_helper);
    lemma_import_helper(l, name, args.len() as usize);
    match lowering::import_helper(l, name, args.len() as usize) {
        Some((l1, callee)) => {
            lemma_emit(l1.code, Inst::Call { callee, args });
        },
        None => {},
    }
}

proof fn lemma_call_chain(l: Lowering, callee: FuncRef, first: Origin, others: Seq<Origin>)
    ensures
        lowering::call_chain(l, callee, first, others) matches Some((l1, _)) ==> is_calm(
            l.code,
            l1.code,
        ),
    decreases others.len(),
{
    if others.len() != 0 {
        let inst = Inst::Call { callee, args: seq![first, others[0]] };
        lemma_emit(l.code, inst);
        match lowering::emit(Some(l), inst) {
            Some(l1) => {
                lemma_call_chain(l1, callee, l1.code, others.skip(1));
            },
            None => {},
        }
    }
}

proof fn lemma_widened(l: Lowering)
    ensures
        lowering::widened(Some(l)) matches Some((l1, _)) ==> is_calm(l.code, l1.code),
{
    lemma_emit(l.code, Inst::Uextend { ty: l.word, arg: l.code });
}

proof fn lemma_apply_all(l: Lowering, op: InfixOp, first: Origin, others: Seq<Origin>)
    ensures
        lowering::apply_all(l, op, first, others) matches Some((l1, _)) ==> is_calm(
            l.code,
            l1.code,
        ),
    decreases others.len(),
{
    if others.len() != 0 {
        match lowering::apply(l, op, first, others[0]) {
            Some((l1, v)) => {
                match lowering::arithmetic(op) {
                    Some(inst) => {
                        lemma_emit(l.code, Inst::Binary { op: inst, x: first, y: others[0] });
                    },
                    None => {
                        let cc = lowering::comparison(op)->0;
                        let inst = Inst::Icmp { cc, x: first, y: others[0] };
                        lemma_emit(l.code, inst);
                        lemma_widened(lowering::emit(Some(l), inst)->0);
                    },
                }
                lemma_apply_all(l1, op, v, others.skip(1));
            },
            None => {},
        }
    }
}

proof fn lemma_combine(l: Lowering, op: InfixOp, values: Seq<Origin>)
    ensures
        lowering::combine(l, op, values) matches Some((l1, _)) ==> is_calm(l.code, l1.code),
{
    reveal(lowering::combine);
    if values.len() != 0 {
        lemma_apply_all(l, op, values[0], values.skip(1));
        lemma_import_helper(l, "lua_concat"@, 2);
        match lowering::import_helper(l, "lua_concat"@, 2) {
            Some((l1, callee)) => {
                lemma_call_chain(l1, callee, values[0], values.skip(1));
            },
            None => {},
        }
    }
}

/// An expression that is flat goes to the current block.
pub proof fn lemma_expression(l: Lowering, e: Expression)
    requires
        is_flat(e),
    ensures
        lowering::expression(l, e) matches Some((l1, _)) ==> is_calm(l.code, l1.code),
    decreases e, 0nat,
{
    match e {
        Expression::Nil => {
            lemma_emit(l.code, Inst::Null { ty: l.word });
        },
        Expression::Boolean(b) => {
            lemma_emit(l.code, Inst::Iconst { ty: l.word, imm: 1 });
            lemma_emit(l.code, Inst::Iconst { ty: l.word, imm: 0 });
        },
        Expression::Number(n) => {
            match n {
                crate::ast::Number::Integer(i) => {
                    lemma_emit(l.code, Inst::Iconst { ty: l.word, imm: i });
                },
                crate::ast::Number::Float(i) => {
                    lemma_emit(l.code, Inst::Iconst { ty: l.word, imm: i });
                },
            }
        },
        Expression::Var(name) => {
            lemma_variable(l, name@);
        },
        Expression::Unary(op, arg) => {
            lemma_expression(l, *arg);
            match lowering::expression(l, *arg) {
                Some((l1, v)) => {
                    lemma_apply_unary(l1, op, v);
                },
                None => {},
            }
        },
        Expression::Infix(op, exprs) => {
            lemma_expressions(l, Seq::empty(), exprs@);
            match lowering::expressions(l, Seq::empty(), exprs@) {
                Some((l1, values)) => {
                    lemma_combine(l1, op, values);
                },
                None => {},
            }
        },
        Expression::String(bytes) => {
            lemma_string_pointer(l, bytes@);
        },
        Expression::FunctCall(c) => {
            lemma_call(l, *c);
        },
        Expression::Field(table, field) => {
            lemma_load_global(l, field@);
            lemma_emit(l.code, Inst::Iconst { ty: l.word, imm: 0 });
        },
        Expression::Index(table, index) => {
            lemma_expression(l, *table);
            match lowering::expression(l, *table) {
                Some((l1, t)) => {
                    lemma_expression(l1, *index);
                    match lowering::expression(l1, *index) {
                        Some((l2, i)) => {
                            lemma_call_helper(l2, "lua_gettable"@, seq![t, i]);
                        },
                        None => {},
                    }
                },
                None => {},
            }
        },
        Expression::Table(fields) => {
            lemma_call_helper(l, "lua_newtable"@, seq![]);
            match lowering::call_helper(l, "lua_newtable"@, seq![]) {
                Some((l1, t)) => {
                    lemma_table_fields(l1, t, fields@);
                },
                None => {},
            }
        },
        Expression::FunctDef(params, body) => {
            lemma_definition(l, e);
        },
        Expression::Ellipsis => {},
    }
}

proof fn lemma_definition(l: Lowering, e: Expression)
    requires
        e is FunctDef,
    ensures
        lowering::expression(l, e) matches Some((l1, _)) ==> is_calm(l.code, l1.code),
{
    match lowering::expression(l, e) {
        Some((l4, _)) => {
            match e {
                Expression::FunctDef(params, body) => {
                    reveal(lowering::install);
                    reveal(lowering::function_address);
                    let l1 = lowering::made_up(l)->0;
                    let f = lowering::function(l1, params.names@, body@)->0;
                    let name = "lambda_"@ + lowering::decimal(l.strings);
                    let (l2, id) = lowering::install(l1, f, name, params.names.len())->0;
                    lemma_emit(l2.code, Inst::FunctionAddress { ty: l2.word, func: id });
                },
                _ => {},
            }
        },
        None => {},
    }
}

proof fn lemma_variable(l: Lowering, name: Seq<char>)
    ensures
        lowering::variable(l, name) matches Some((l1, _)) ==> is_calm(l.code, l1.code),
{
    reveal(lowering::variable);
    lemma_emit(l.code, Inst::Iconst { ty: l.word, imm: 0 });
    match lowering::variable(l, name) {
        Some((l1, _)) => {
            if lowering::stack_of(l.locals, name).len() != 0 {
                lemma_calm(l.code, l1.code.last());
            }
        },
        None => {},
    }
}

proof fn lemma_load_global(l: Lowering, name: Seq<char>)
    ensures
        lowering::load_global(l, name) matches Some((l1, _)) ==> is_calm(l.code, l1.code),
{
    reveal(lowering::load_global);
    lemma_global_pointer(l, name, None);
    match lowering::global_pointer(l, name, None) {
        Some((l1, ptr)) => {
            lemma_emit(l1.code, Inst::Load { ty: l1.word, ptr, offset: 0 });
        },
        None => {},
    }
}

proof fn lemma_apply_unary(l: Lowering, op: crate::ast::UnaryOp, arg: Origin)
    ensures
        lowering::apply_unary(l, op, arg) matches Some((l1, _)) ==> is_calm(l.code, l1.code),
{
    reveal(lowering::apply_unary);
    lemma_emit(l.code, Inst::Unary { op: ir::UnaryInst::Ineg, arg });
    lemma_emit(l.code, Inst::Unary { op: ir::UnaryInst::Bnot, arg });
    lemma_call_helper(l, "lua_len"@, seq![arg]);
    let inst = Inst::IcmpImm { cc: ir::IntCC::Equal, x: arg, imm: 0 };
    lemma_emit(l.code, inst);
    match lowering::emit(Some(l), inst) {
        Some(l1) => {
            lemma_widened(l1);
        },
        None => {},
    }
}

pub proof fn lemma_expressions(l: Lowering, done: Seq<Origin>, exprs: Seq<Expression>)
    requires
        are_flat(exprs),
    ensures
        lowering::expressions(l, done, exprs) matches Some((l1, _)) ==> is_calm(l.code, l1.code),
    decreases exprs, 0nat,
{
    if exprs.len() != 0 {
        lemma_expression(l, exprs[0]);
        match lowering::expression(l, exprs[0]) {
            Some((l1, v)) => {
                lemma_expressions(l1, done.push(v), exprs.skip(1));
            },
            None => {},
        }
    }
}

proof fn lemma_table_fields(l: Lowering, table: Origin, fields: Seq<Field>)
    requires
        are_flat_fields(fields),
    ensures
        lowering::table_fields(l, table, fields) matches Some(l1) ==> is_calm(l.code, l1.code),
    decreases fields, 0nat,
{
    if fields.len() != 0 {
        match fields[0] {
            Field::Named(name, e) => {
                lemma_expression(l, e);
                match lowering::expression(l, e) {
                    Some((l1, v)) => {
                        lemma_store_field(l1, table, name@, v);
                        match lowering::store_field(l1, table, name@, v) {
                            Some(l2) => {
                                lemma_table_fields(l2, table, fields.skip(1));
                            },
                            None => {},
                        }
                    },
                    None => {},
                }
            },
            _ => {},
        }
    }
}

proof fn lemma_store_field(l: Lowering, table: Origin, field: Seq<char>, v: Origin)
    ensures
        lowering::store_field(l, table, field, v) matches Some(l1) ==> is_calm(l.code, l1.code),
{
    reveal(lowering::store_field);
    reveal(lowering::store_entry);
    lemma_string_pointer(l, vstd::utf8::encode_utf8(field));
    match lowering::string_pointer(l, vstd::utf8::encode_utf8(field)) {
        Some((l1, key)) => {
            lemma_call_helper(l1, "lua_settable"@, seq![table, key, v]);
        },
        None => {},
    }
}

pub proof fn lemma_call(l: Lowering, c: FunctionCall)
    requires
        is_flat_call(c),
    ensures
        lowering::call(l, c) matches Some((l1, _)) ==> is_calm(l.code, l1.code),
    decreases c, 1nat,
{
    lemma_callee(l, c.prefix);
    match lowering::callee(l, c.prefix) {
        Some((l1, func)) => {
            lemma_expressions(l1, Seq::empty(), c.args@);
            match lowering::expressions(l1, Seq::empty(), c.args@) {
                Some((l2, args)) => {
                    lemma_call_value(l2, func, args);
                },
                None => {},
            }
        },
        None => {},
    }
}

proof fn lemma_call_value(l: Lowering, func: Origin, args: Seq<Origin>)
    ensures
        lowering::call_value(l, func, args) matches Some((l1, _)) ==> is_calm(l.code, l1.code),
{
    reveal(lowering::call_value);
    let signature = ir::Signature { int: l.word, params: args.len() as usize, returns: 1 };
    let r = Request::ImportSignature { signature };
    let sig = ir::SigRef(ir::signature_imports(l.code) as u32);
    lemma_calm(l.code, r);
    lemma_emit(l.code.push(r), Inst::CallIndirect { signature: sig, callee: func, args });
}

proof fn lemma_callee(l: Lowering, prefix: Expression)
    requires
        match prefix {
            Expression::Field(table, _) => is_flat(*table),
            _ => is_flat(prefix),
        },
    ensures
        lowering::callee(l, prefix) matches Some((l1, _)) ==> is_calm(l.code, l1.code),
    decreases prefix, 1nat,
{
    match prefix {
        Expression::Field(table, field) => {
            lemma_expression(l, *table);
            match lowering::expression(l, *table) {
                Some((l1, t)) => {
                    reveal(lowering::load_field);
                    let bytes = vstd::utf8::encode_utf8(field@);
                    lemma_string_pointer(l1, bytes);
                    match lowering::string_pointer(l1, bytes) {
                        Some((l2, key)) => {
                            lemma_call_helper(l2, "lua_gettable"@, seq![t, key]);
                        },
                        None => {},
                    }
                },
                None => {},
            }
        },
        _ => {
            lemma_expression(l, prefix);
        },
    }
}

/// Whether the tables and keys of a target are flat.
pub open spec fn is_flat_target(target: Expression) -> bool {
    match target {
        Expression::Field(table, _) => is_flat(*table),
        Expression::Index(table, index) => is_flat(*table) && is_flat(*index),
        _ => true,
    }
}

/// An assignment to a target that is flat goes to the current block.
pub proof fn lemma_assign(l: Lowering, target: Expression, v: Origin)
    requires
        is_flat_target(target),
    ensures
        lowering::assign(l, target, v) matches Some(l1) ==> is_calm(l.code, l1.code),
{
    match target {
        Expression::Var(name) => {
            reveal(lowering::store_variable);
            lemma_store_global(l, name@, v);
            match lowering::assign(l, target, v) {
                Some(l1) => {
                    if l.locals.contains_key(name@) {
                        lemma_calm(l.code, l1.code.last());
                    }
                },
                None => {},
            }
        },
        Expression::Field(table, field) => {
            lemma_store_global(l, field@, v);
            lemma_expression(l, *table);
            match lowering::expression(l, *table) {
                Some((l1, t)) => {
                    lemma_store_field(l1, t, field@, v);
                },
                None => {},
            }
        },
        Expression::Index(table, index) => {
            lemma_expression(l, *table);
            match lowering::expression(l, *table) {
                Some((l1, t)) => {
                    lemma_expression(l1, *index);
                    match lowering::expression(l1, *index) {
                        Some((l2, i)) => {
                            reveal(lowering::store_entry);
                            lemma_call_helper(l2, "lua_settable"@, seq![t, i, v]);
                        },
                        None => {},
                    }
                },
                None => {},
            }
        },
        _ => {},
    }
}

pub proof fn lemma_store_global(l: Lowering, name: Seq<char>, v: Origin)
    ensures
        lowering::store_global(l, name, v) matches Some(l1) ==> is_calm(l.code, l1.code),
{
    reveal(lowering::store_global);
    lemma_global_pointer(l, name, None);
    match lowering::global_pointer(l, name, None) {
        Some((l1, ptr)) => {
            lemma_emit(l1.code, Inst::Store { value: v, ptr, offset: 0 });
        },
        None => {},
    }
}

/// A new variable leaves the current block open.
pub proof fn lemma_bind_local(l: Lowering, name: Seq<char>, v: Origin)
    ensures
        lowering::bind_local(l, name, v) matches Some(l1) ==> is_calm(l.code, l1.code),
{
    reveal(lowering::bind_local);
    match lowering::bind_local(l, name, v) {
        Some(l1) => {
            let var = ir::Variable(l.next_var as u32);
            let r = Request::DeclareVar { var, ty: l.word };
            lemma_calm(l.code, r);
            lemma_calm(l.code.push(r), Request::DefVar { var, value: v });
        },
        None => {},
    }
}

/// The address of a function is written in the current block.
pub proof fn lemma_publish(l: Lowering, id: ir::FuncId, name: Seq<char>)
    ensures
        lowering::publish(l, id, name) matches Some(l1) ==> is_calm(l.code, l1.code),
{
    reveal(lowering::publish);
    reveal(lowering::function_address);
    lemma_global_pointer(l, "__fn_ptr_"@ + name, None);
    match lowering::global_pointer(l, "__fn_ptr_"@ + name, None) {
        Some((l1, ptr)) => {
            let inst = Inst::FunctionAddress { ty: l1.word, func: id };
            lemma_emit(l1.code, inst);
            match lowering::emit(Some(l1), inst) {
                Some(l2) => {
                    lemma_emit(l2.code, Inst::Store { value: l2.code, ptr, offset: 0 });
                },
                None => {},
            }
        },
        None => {},
    }
}

} // verus!
