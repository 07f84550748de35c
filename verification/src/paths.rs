//! Where code is put.
//!
//! What is lowered at some point goes to the block that is the current one at
//! that point, or to blocks that are created later, and branches only to the
//! latter.
use vstd::prelude::*;

use crate::ast::{Expression, Field, FunctionCall, InfixOp, Statement, UnaryOp};
use crate::blocks;
use crate::blocks::Cursor;
use crate::ir;
use crate::ir::{Block, FuncId, FuncRef, Inst, IntCC, Origin, Request, Type};
use crate::lowering;
use crate::lowering::{Fork, Lowering};
use crate::sequel::follows;

verus! {

// ---------------------------------------------------------------------------
// Blocks

broadcast use crate::sequel::group_follows;

proof fn lemma_zeroes(
    h: Seq<Request>,
    n: nat,
    h1: Seq<Request>,
    done: Seq<Origin>,
    types: Seq<Type>,
)
    requires
        follows(h, n, h1),
    ensures
        blocks::zeroes(h1, done, types) matches Some((h2, _)) ==> follows(h, n, h2)
            && ir::block_count(h1) <= ir::block_count(h2),
    decreases types.len(),
{
    if types.len() != 0 {
        let next = match types[0] {
            Type::Int(ty) => ir::emit(h1, Inst::Iconst { ty, imm: 0 }),
            Type::Float { .. } => ir::emit(h1, Inst::FloatZero),
            Type::Other => None,
        };
        if next is Some {
            lemma_zeroes(h, n, next->0, done.push(next->0), types.skip(1));
        }
    }
}

pub proof fn lemma_jump_to(h: Seq<Request>, n: nat, c: Cursor, target: Block)
    requires
        follows(h, n, c.code),
        target.0 >= n,
    ensures
        c.jump_to(target) matches Some(c1) ==> follows(h, n, c1.code) && ir::block_count(c.code)
            <= ir::block_count(c1.code),
{
    lemma_zeroes(h, n, c.code, Seq::empty(), blocks::types_of(c.code, target));
}

pub proof fn lemma_switch_to(h: Seq<Request>, n: nat, c: Cursor, block: Block)
    requires
        follows(h, n, c.code),
        block.0 >= n,
    ensures
        c.switch_to(block) matches Some(c1) ==> follows(h, n, c1.code) && ir::block_count(c.code)
            <= ir::block_count(c1.code),
{
    lemma_jump_to(h, n, c, block);
}

// ---------------------------------------------------------------------------
// Steps

proof fn lemma_global_pointer(
    h: Seq<Request>,
    n: nat,
    l: Lowering,
    name: Seq<char>,
    initializer: Option<Seq<u8>>,
)
    requires
        follows(h, n, l.code),
    ensures
        lowering::global_pointer(l, name, initializer) matches Some((l1, _)) ==> follows(
            h,
            n,
            l1.code,
        ),
{
    reveal(lowering::global_pointer);
}

proof fn lemma_string_pointer(h: Seq<Request>, n: nat, l: Lowering, bytes: Seq<u8>)
    requires
        follows(h, n, l.code),
    ensures
        lowering::string_pointer(l, bytes) matches Some((l1, _)) ==> follows(h, n, l1.code),
{
    reveal(lowering::string_pointer);
    match lowering::made_up(l) {
        Some(l1) => {
            lemma_global_pointer(
                h,
                n,
                l1,
                "str_"@ + lowering::decimal(l.strings),
                Some(bytes),
            );
        },
        None => {},
    }
}

proof fn lemma_call_helper(
    h: Seq<Request>,
    n: nat,
    l: Lowering,
    name: Seq<char>,
    args: Seq<Origin>,
)
    requires
        follows(h, n, l.code),
    ensures
        lowering::call_helper(l, name, args) matches Some((l1, _)) ==> follows(h, n, l1.code),
{
    reveal(lowering::call_helper);
}

proof fn lemma_call_chain(
    h: Seq<Request>,
    n: nat,
    l: Lowering,
    callee: FuncRef,
    first: Origin,
    others: Seq<Origin>,
)
    requires
        follows(h, n, l.code),
    ensures
        lowering::call_chain(l, callee, first, others) matches Some((l1, _)) ==> follows(
            h,
            n,
            l1.code,
        ),
    decreases others.len(),
{
    if others.len() != 0 {
        match lowering::emit(Some(l), Inst::Call { callee, args: seq![first, others[0]] }) {
            Some(l1) => {
                lemma_call_chain(h, n, l1, callee, l1.code, others.skip(1));
            },
            None => {},
        }
    }
}

proof fn lemma_apply_all(
    h: Seq<Request>,
    n: nat,
    l: Lowering,
    op: InfixOp,
    first: Origin,
    others: Seq<Origin>,
)
    requires
        follows(h, n, l.code),
    ensures
        lowering::apply_all(l, op, first, others) matches Some((l1, _)) ==> follows(h, n, l1.code),
    decreases others.len(),
{
    if others.len() != 0 {
        match lowering::apply(l, op, first, others[0]) {
            Some((l1, v)) => {
                lemma_apply_all(h, n, l1, op, v, others.skip(1));
            },
            None => {},
        }
    }
}

proof fn lemma_combine(
    h: Seq<Request>,
    n: nat,
    l: Lowering,
    op: InfixOp,
    values: Seq<Origin>,
)
    requires
        follows(h, n, l.code),
    ensures
        lowering::combine(l, op, values) matches Some((l1, _)) ==> follows(h, n, l1.code),
{
    reveal(lowering::combine);
    if values.len() != 0 {
        lemma_apply_all(h, n, l, op, values[0], values.skip(1));
        match lowering::import_helper(l, "lua_concat"@, 2) {
            Some((l1, callee)) => {
                lemma_call_chain(h, n, l1, callee, values[0], values.skip(1));
            },
            None => {},
        }
    }
}

proof fn lemma_apply_unary(h: Seq<Request>, n: nat, l: Lowering, op: UnaryOp, arg: Origin)
    requires
        follows(h, n, l.code),
    ensures
        lowering::apply_unary(l, op, arg) matches Some((l1, _)) ==> follows(h, n, l1.code),
{
    reveal(lowering::apply_unary);
    lemma_call_helper(h, n, l, "lua_len"@, seq![arg]);
}

proof fn lemma_values(
    h: Seq<Request>,
    n: nat,
    l: Lowering,
    name: Seq<char>,
    v: Origin,
    args: Seq<Origin>,
    id: FuncId,
)
    requires
        follows(h, n, l.code),
    ensures
        lowering::call_value(l, v, args) matches Some((l1, _)) ==> follows(h, n, l1.code),
        lowering::variable(l, name) matches Some((l1, _)) ==> follows(h, n, l1.code),
        lowering::load_global(l, name) matches Some((l1, _)) ==> follows(h, n, l1.code),
        lowering::store_global(l, name, v) matches Some(l1) ==> follows(h, n, l1.code),
        lowering::store_variable(l, name, v) matches Some(l1) ==> follows(h, n, l1.code),
        lowering::bind_local(l, name, v) matches Some(l1) ==> follows(h, n, l1.code),
        lowering::function_address(l, id) matches Some((l1, _)) ==> follows(h, n, l1.code),
{
    reveal(lowering::call_value);
    reveal(lowering::variable);
    reveal(lowering::load_global);
    reveal(lowering::store_global);
    reveal(lowering::store_variable);
    reveal(lowering::bind_local);
    reveal(lowering::function_address);
    lemma_global_pointer(h, n, l, name, None);
}

proof fn lemma_entries(
    h: Seq<Request>,
    n: nat,
    l: Lowering,
    table: Origin,
    field: Seq<char>,
    key: Origin,
    v: Origin,
)
    requires
        follows(h, n, l.code),
    ensures
        lowering::load_field(l, table, field) matches Some((l1, _)) ==> follows(h, n, l1.code),
        lowering::store_entry(l, table, key, v) matches Some(l1) ==> follows(h, n, l1.code),
        lowering::store_field(l, table, field, v) matches Some(l1) ==> follows(h, n, l1.code),
{
    reveal(lowering::load_field);
    reveal(lowering::store_entry);
    reveal(lowering::store_field);
    lemma_string_pointer(h, n, l, vstd::utf8::encode_utf8(field));
    lemma_call_helper(h, n, l, "lua_settable"@, seq![table, key, v]);
    match lowering::string_pointer(l, vstd::utf8::encode_utf8(field)) {
        Some((l1, k)) => {
            lemma_call_helper(h, n, l1, "lua_gettable"@, seq![table, k]);
            lemma_call_helper(h, n, l1, "lua_settable"@, seq![table, k, v]);
        },
        None => {},
    }
}

pub proof fn lemma_hand_over(
    h: Seq<Request>,
    n: nat,
    l: Lowering,
    cc: IntCC,
    merge: Block,
    current: Origin,
)
    requires
        follows(h, n, l.code),
        merge.0 >= n,
    ensures
        lowering::hand_over(l, cc, merge, current) matches Some(l1) ==> follows(h, n, l1.code),
{
    reveal(lowering::hand_over);
}

pub proof fn lemma_merged(h: Seq<Request>, n: nat, l: Lowering, current: Origin, merge: Block)
    requires
        follows(h, n, l.code),
        merge.0 >= n,
    ensures
        lowering::merged(l, current, merge) matches Some((l1, _)) ==> follows(h, n, l1.code),
{
    reveal(lowering::merged);
}

// ---------------------------------------------------------------------------
// Expressions

pub proof fn lemma_expression(h: Seq<Request>, n: nat, l: Lowering, e: Expression)
    requires
        follows(h, n, l.code),
    ensures
        lowering::expression(l, e) matches Some((l1, _)) ==> follows(h, n, l1.code),
    decreases e, 0nat,
{
    match e {
        Expression::Var(name) => {
            lemma_values(h, n, l, name@, l.code, seq![], FuncId(0));
        },
        Expression::Unary(op, arg) => {
            lemma_expression(h, n, l, *arg);
            match lowering::expression(l, *arg) {
                Some((l1, v)) => {
                    lemma_apply_unary(h, n, l1, op, v);
                },
                None => {},
            }
        },
        Expression::Infix(op, exprs) => {
            lemma_short_circuit(h, n, l, IntCC::NotEqual, exprs@);
            lemma_short_circuit(h, n, l, IntCC::Equal, exprs@);
            lemma_expressions(h, n, l, Seq::empty(), exprs@);
            match lowering::expressions(l, Seq::empty(), exprs@) {
                Some((l1, values)) => {
                    lemma_combine(h, n, l1, op, values);
                },
                None => {},
            }
        },
        Expression::String(bytes) => {
            lemma_string_pointer(h, n, l, bytes@);
        },
        Expression::FunctCall(c) => {
            lemma_call(h, n, l, *c);
        },
        Expression::Field(table, field) => {
            lemma_values(h, n, l, field@, l.code, seq![], FuncId(0));
        },
        Expression::Index(table, index) => {
            lemma_expression(h, n, l, *table);
            match lowering::expression(l, *table) {
                Some((l1, t)) => {
                    lemma_expression(h, n, l1, *index);
                    match lowering::expression(l1, *index) {
                        Some((l2, i)) => {
                            lemma_call_helper(h, n, l2, "lua_gettable"@, seq![t, i]);
                        },
                        None => {},
                    }
                },
                None => {},
            }
        },
        Expression::Table(fields) => {
            lemma_call_helper(h, n, l, "lua_newtable"@, seq![]);
            match lowering::call_helper(l, "lua_newtable"@, seq![]) {
                Some((l1, t)) => {
                    lemma_table_fields(h, n, l1, t, fields@);
                },
                None => {},
            }
        },
        Expression::FunctDef(params, body) => {
            reveal(lowering::install);
            reveal(lowering::function_address);
        },
        _ => {},
    }
}

pub proof fn lemma_expressions(
    h: Seq<Request>,
    n: nat,
    l: Lowering,
    done: Seq<Origin>,
    exprs: Seq<Expression>,
)
    requires
        follows(h, n, l.code),
    ensures
        lowering::expressions(l, done, exprs) matches Some((l1, _)) ==> follows(h, n, l1.code),
    decreases exprs, 0nat,
{
    if exprs.len() != 0 {
        lemma_expression(h, n, l, exprs[0]);
        match lowering::expression(l, exprs[0]) {
            Some((l1, v)) => {
                lemma_expressions(h, n, l1, done.push(v), exprs.skip(1));
            },
            None => {},
        }
    }
}

pub proof fn lemma_short_circuit(
    h: Seq<Request>,
    n: nat,
    l: Lowering,
    cc: IntCC,
    exprs: Seq<Expression>,
)
    requires
        follows(h, n, l.code),
    ensures
        lowering::short_circuit(l, cc, exprs) matches Some((l1, _)) ==> follows(h, n, l1.code),
    decreases exprs, 1nat,
{
    if exprs.len() != 0 {
        lemma_expression(h, n, l, exprs[0]);
        match lowering::expression(l, exprs[0]) {
            Some((l1, v)) => {
                let merge = lowering::new_block(Some(l1));
                match lowering::append_param(lowering::create_block(Some(l1)), merge) {
                    Some(l2) => {
                        assert(merge.0 >= n);
                        lemma_alternatives(h, n, l2, cc, merge, v, exprs.skip(1));
                        match lowering::alternatives(l2, cc, merge, v, exprs.skip(1)) {
                            Some((l3, v3)) => {
                                lemma_merged(h, n, l3, v3, merge);
                            },
                            None => {},
                        }
                    },
                    None => {},
                }
            },
            None => {},
        }
    }
}

pub proof fn lemma_alternatives(
    h: Seq<Request>,
    n: nat,
    l: Lowering,
    cc: IntCC,
    merge: Block,
    current: Origin,
    exprs: Seq<Expression>,
)
    requires
        follows(h, n, l.code),
        merge.0 >= n,
    ensures
        lowering::alternatives(l, cc, merge, current, exprs) matches Some((l1, _)) ==> follows(
            h,
            n,
            l1.code,
        ),
    decreases exprs, 0nat,
{
    if exprs.len() != 0 {
        lemma_hand_over(h, n, l, cc, merge, current);
        match lowering::hand_over(l, cc, merge, current) {
            Some(l1) => {
                lemma_expression(h, n, l1, exprs[0]);
                match lowering::expression(l1, exprs[0]) {
                    Some((l2, v)) => {
                        lemma_alternatives(h, n, l2, cc, merge, v, exprs.skip(1));
                    },
                    None => {},
                }
            },
            None => {},
        }
    }
}

pub proof fn lemma_table_fields(
    h: Seq<Request>,
    n: nat,
    l: Lowering,
    table: Origin,
    fields: Seq<Field>,
)
    requires
        follows(h, n, l.code),
    ensures
        lowering::table_fields(l, table, fields) matches Some(l1) ==> follows(h, n, l1.code),
    decreases fields, 0nat,
{
    if fields.len() != 0 {
        match fields[0] {
            Field::Named(name, e) => {
                lemma_expression(h, n, l, e);
                match lowering::expression(l, e) {
                    Some((l1, v)) => {
                        lemma_entries(h, n, l1, table, name@, v, v);
                        match lowering::store_field(l1, table, name@, v) {
                            Some(l2) => {
                                lemma_table_fields(h, n, l2, table, fields.skip(1));
                            },
                            None => {},
                        }
                    },
                    None => {},
                }
            },
            _ => {},
        }
    }
}

pub proof fn lemma_call(h: Seq<Request>, n: nat, l: Lowering, c: FunctionCall)
    requires
        follows(h, n, l.code),
    ensures
        lowering::call(l, c) matches Some((l1, _)) ==> follows(h, n, l1.code),
    decreases c, 1nat,
{
    lemma_callee(h, n, l, c.prefix);
    match lowering::callee(l, c.prefix) {
        Some((l1, func)) => {
            lemma_expressions(h, n, l1, Seq::empty(), c.args@);
            match lowering::expressions(l1, Seq::empty(), c.args@) {
                Some((l2, args)) => {
                    lemma_values(h, n, l2, seq![], func, args, FuncId(0));
                },
                None => {},
            }
        },
        None => {},
    }
}

pub proof fn lemma_callee(h: Seq<Request>, n: nat, l: Lowering, prefix: Expression)
    requires
        follows(h, n, l.code),
    ensures
        lowering::callee(l, prefix) matches Some((l1, _)) ==> follows(h, n, l1.code),
    decreases prefix, 1nat,
{
    match prefix {
        Expression::Field(table, field) => {
            lemma_expression(h, n, l, *table);
            match lowering::expression(l, *table) {
                Some((l1, t)) => {
                    lemma_entries(h, n, l1, t, field@, t, t);
                },
                None => {},
            }
        },
        _ => {
            lemma_expression(h, n, l, prefix);
        },
    }
}

// ---------------------------------------------------------------------------
// Statements

pub proof fn lemma_fresh_block(h: Seq<Request>, n: nat, l: Lowering)
    requires
        follows(h, n, l.code),
    ensures
        lowering::fresh_block(l) matches Some(l1) ==> follows(h, n, l1.code),
{
    reveal(lowering::fresh_block);
    let block = lowering::new_block(Some(l));
    match lowering::append_function_params(lowering::create_known(Some(l)), block) {
        Some(l1) => {
            lemma_switch_to(h, n, l1.cursor(), block);
        },
        None => {},
    }
}

proof fn lemma_while(
    h: Seq<Request>,
    n: nat,
    l: Lowering,
    v: Origin,
    header: Block,
    body: Block,
    exit: Block,
)
    requires
        follows(h, n, l.code),
        header.0 >= n,
        body.0 >= n,
        exit.0 >= n,
    ensures
        lowering::test_while(l, v, header, body, exit) matches Some(l1) ==> follows(h, n, l1.code),
        lowering::end_while(l, header, body, exit) matches Some(l1) ==> follows(h, n, l1.code),
        lowering::end_repeat(l, v, body, exit) matches Some(l1) ==> follows(h, n, l1.code),
{
    reveal(lowering::test_while);
    reveal(lowering::end_while);
    reveal(lowering::end_repeat);
}

proof fn lemma_begin_while(h: Seq<Request>, n: nat, l: Lowering)
    requires
        follows(h, n, l.code),
    ensures
        lowering::begin_while(l) matches Some(l1) ==> follows(h, n, l1.code)
            && lowering::new_block(Some(l)).0 >= n && lowering::new_block(
            lowering::create_block(Some(l)),
        ).0 >= n && lowering::new_block(
            lowering::create_block(lowering::create_block(Some(l))),
        ).0 >= n,
        lowering::begin_repeat(l) matches Some(l1) ==> follows(h, n, l1.code)
            && lowering::new_block(Some(l)).0 >= n && lowering::new_block(
            lowering::create_block(Some(l)),
        ).0 >= n,
{
    reveal(lowering::begin_while);
    reveal(lowering::begin_repeat);
    let s = Some(l);
    let header = lowering::new_block(s);
    let s1 = lowering::create_block(lowering::create_block(lowering::create_block(s)));
    if s1 is Some {
        lemma_jump_to(h, n, s1->0.cursor(), header);
    }
}

proof fn lemma_give_back(h: Seq<Request>, n: nat, l: Lowering, v: Origin)
    requires
        follows(h, n, l.code),
    ensures
        lowering::give_back(l, v) matches Some(l1) ==> follows(h, n, l1.code),
{
    reveal(lowering::give_back);
}

pub proof fn lemma_publish(h: Seq<Request>, n: nat, l: Lowering, id: FuncId, name: Seq<char>)
    requires
        follows(h, n, l.code),
    ensures
        lowering::publish(l, id, name) matches Some(l1) ==> follows(h, n, l1.code),
{
    reveal(lowering::publish);
    lemma_global_pointer(h, n, l, "__fn_ptr_"@ + name, None);
    match lowering::global_pointer(l, "__fn_ptr_"@ + name, None) {
        Some((l1, _)) => {
            lemma_values(h, n, l1, name, l.code, seq![], id);
        },
        None => {},
    }
}

pub proof fn lemma_begin_case(h: Seq<Request>, n: nat, l: Lowering, v: Origin, test: Block)
    requires
        follows(h, n, l.code),
    ensures
        lowering::begin_case(l, v, test) matches Some(l1) ==> follows(h, n, l1.code)
            && lowering::new_block(Some(l)).0 >= n && lowering::new_block(
            lowering::create_block(Some(l)),
        ).0 >= n,
{
    reveal(lowering::begin_case);
    let then_block = lowering::new_block(Some(l));
    let else_block = lowering::new_block(lowering::create_block(Some(l)));
    let s = lowering::emit(
        lowering::create_known(lowering::create_known(Some(l))),
        Inst::Brif {
            cond: v,
            then_block,
            then_args: seq![],
            else_block,
            else_args: seq![],
        },
    );
    match lowering::seal(s, test) {
        Some(l1) => {
            lemma_switch_to(h, n, l1.cursor(), then_block);
        },
        None => {},
    }
}

pub proof fn lemma_join(h: Seq<Request>, n: nat, l: Lowering, fork: Fork, merge: Block)
    requires
        follows(h, n, l.code),
        merge.0 >= n,
    ensures
        lowering::join(l, fork, merge) matches Some((l1, _)) ==> follows(h, n, l1.code),
{
    match lowering::exit_scope(Some(l)) {
        Some(l1) => {
            lemma_jump_to(h, n, l1.cursor(), merge);
        },
        None => {},
    }
}

pub proof fn lemma_end_case(
    h: Seq<Request>,
    n: nat,
    l: Lowering,
    fork: Fork,
    then_block: Block,
    else_block: Block,
    merge: Block,
)
    requires
        follows(h, n, l.code),
        merge.0 >= n,
        else_block.0 >= n,
    ensures
        lowering::end_case(l, fork, then_block, else_block, merge) matches Some((l1, _))
            ==> follows(h, n, l1.code),
{
    reveal(lowering::end_case);
    lemma_join(h, n, l, fork, merge);
    match lowering::join(l, fork, merge) {
        Some((l1, _)) => {
            match lowering::seal(Some(l1), then_block) {
                Some(l2) => {
                    lemma_switch_to(h, n, l2.cursor(), else_block);
                },
                None => {},
            }
        },
        None => {},
    }
}

pub proof fn lemma_end_if(h: Seq<Request>, n: nat, l: Lowering, fork: Fork, merge: Block)
    requires
        follows(h, n, l.code),
        merge.0 >= n,
    ensures
        lowering::end_if(l, fork, merge) matches Some(l1) ==> follows(h, n, l1.code),
{
    reveal(lowering::end_if);
    lemma_join(h, n, l, fork, merge);
    match lowering::join(l, fork, merge) {
        Some((l1, fork1)) => {
            match lowering::seal(Some(l1), fork1.test) {
                Some(l2) => {
                    lemma_switch_to(h, n, l2.cursor(), merge);
                },
                None => {},
            }
        },
        None => {},
    }
}

pub proof fn lemma_statement(h: Seq<Request>, n: nat, l: Lowering, stmt: Statement)
    requires
        follows(h, n, l.code),
    ensures
        lowering::statement(l, stmt) matches Some(l1) ==> follows(h, n, l1.code),
    decreases stmt, 1nat,
{
    if !l.terminated {
        lemma_fresh_block(h, n, l);
        match lowering::fresh_block(l) {
            Some(l1) => {
                lemma_live_statement(h, n, l1, stmt);
            },
            None => {},
        }
    }
}

pub proof fn lemma_live_statement(h: Seq<Request>, n: nat, l: Lowering, stmt: Statement)
    requires
        follows(h, n, l.code),
    ensures
        lowering::live_statement(l, stmt) matches Some(l1) ==> follows(h, n, l1.code),
    decreases stmt, 0nat,
{
    match stmt {
        Statement::If { ifcases, elsecase } => {
            match lowering::begin_if(l) {
                Some((l1, fork)) => {
                    let merge = lowering::new_block(Some(l));
                    assert(merge.0 >= n);
                    lemma_cases(h, n, l1, fork, merge, ifcases@);
                    match lowering::cases(l1, fork, merge, ifcases@) {
                        Some((l2, fork2)) => {
                            let l3 = lowering::begin_else(l2);
                            lemma_block(h, n, l3, elsecase@);
                            match lowering::block(l3, elsecase@) {
                                Some(l4) => {
                                    lemma_end_if(h, n, l4, fork2, merge);
                                },
                                None => {},
                            }
                        },
                        None => {},
                    }
                },
                None => {},
            }
        },
        Statement::While { cond, block: body } => {
            let header_block = lowering::new_block(Some(l));
            let body_block = lowering::new_block(lowering::create_block(Some(l)));
            let exit_block = lowering::new_block(
                lowering::create_block(lowering::create_block(Some(l))),
            );
            lemma_begin_while(h, n, l);
            match lowering::begin_while(l) {
                Some(l1) => {
                    lemma_expression(h, n, l1, cond);
                    match lowering::expression(l1, cond) {
                        Some((l2, v)) => {
                            lemma_while(h, n, l2, v, header_block, body_block, exit_block);
                            match lowering::test_while(
                                l2,
                                v,
                                header_block,
                                body_block,
                                exit_block,
                            ) {
                                Some(l3) => {
                                    lemma_block(h, n, l3, body@);
                                    match lowering::block(l3, body@) {
                                        Some(l4) => {
                                            lemma_while(
                                                h,
                                                n,
                                                l4,
                                                v,
                                                header_block,
                                                body_block,
                                                exit_block,
                                            );
                                        },
                                        None => {},
                                    }
                                },
                                None => {},
                            }
                        },
                        None => {},
                    }
                },
                None => {},
            }
        },
        Statement::Repeat { block: body, cond } => {
            let body_block = lowering::new_block(Some(l));
            let exit_block = lowering::new_block(lowering::create_block(Some(l)));
            lemma_begin_while(h, n, l);
            match lowering::begin_repeat(l) {
                Some(l1) => {
                    lemma_block(h, n, l1, body@);
                    match lowering::block(l1, body@) {
                        Some(l2) => {
                            lemma_expression(h, n, l2, cond);
                            match lowering::expression(l2, cond) {
                                Some((l3, v)) => {
                                    lemma_while(h, n, l3, v, body_block, body_block, exit_block);
                                },
                                None => {},
                            }
                        },
                        None => {},
                    }
                },
                None => {},
            }
        },
        Statement::Local { vars, exprs } => {
            lemma_expressions(h, n, l, Seq::empty(), exprs@);
            match lowering::expressions(l, Seq::empty(), exprs@) {
                Some((l1, values)) => {
                    lemma_bind_locals(h, n, l1, vars@, values);
                },
                None => {},
            }
        },
        Statement::Assign { vars, exprs } => {
            lemma_expressions(h, n, l, Seq::empty(), exprs@);
            match lowering::expressions(l, Seq::empty(), exprs@) {
                Some((l1, values)) => {
                    lemma_assign_all(h, n, l1, vars@, values);
                },
                None => {},
            }
        },
        Statement::Return(exprs) => {
            if exprs@.len() != 0 {
                lemma_expression(h, n, l, exprs@[0]);
            }
            match if exprs@.len() == 0 {
                lowering::constant(l, 0)
            } else {
                lowering::expression(l, exprs@[0])
            } {
                Some((l1, v)) => {
                    lemma_give_back(h, n, l1, v);
                },
                None => {},
            }
        },
        Statement::FunctCall(c) => {
            lemma_call(h, n, l, c);
        },
        Statement::Do(body) => {
            lemma_block(h, n, lowering::enter_scope(l), body@);
        },
        Statement::Function { name, params, body } => {
            let full_name = lowering::joined(name.qname@);
            match lowering::function(l, params.names@, body@) {
                Some(f) => {
                    reveal(lowering::install);
                    match lowering::install(l, f, full_name, params.names.len()) {
                        Some((l1, id)) => {
                            lemma_publish(h, n, l1, id, full_name);
                        },
                        None => {},
                    }
                },
                None => {},
            }
        },
        _ => {},
    }
}

pub proof fn lemma_block(h: Seq<Request>, n: nat, l: Lowering, stmts: Seq<Statement>)
    requires
        follows(h, n, l.code),
    ensures
        lowering::block(l, stmts) matches Some(l1) ==> follows(h, n, l1.code),
    decreases stmts, 0nat,
{
    if stmts.len() != 0 {
        lemma_statement(h, n, l, stmts[0]);
        match lowering::statement(l, stmts[0]) {
            Some(l1) => {
                lemma_block(h, n, l1, stmts.skip(1));
            },
            None => {},
        }
    }
}

pub proof fn lemma_cases(
    h: Seq<Request>,
    n: nat,
    l: Lowering,
    fork: Fork,
    merge: Block,
    ifcases: Seq<(Expression, Vec<Statement>)>,
)
    requires
        follows(h, n, l.code),
        merge.0 >= n,
    ensures
        lowering::cases(l, fork, merge, ifcases) matches Some((l1, _)) ==> follows(h, n, l1.code),
    decreases ifcases, 0nat,
{
    if ifcases.len() != 0 {
        lemma_expression(h, n, l, ifcases[0].0);
        match lowering::expression(l, ifcases[0].0) {
            Some((l1, v)) => {
                let then_block = lowering::new_block(Some(l1));
                let else_block = lowering::new_block(lowering::create_block(Some(l1)));
                lemma_begin_case(h, n, l1, v, fork.test);
                match lowering::begin_case(l1, v, fork.test) {
                    Some(l2) => {
                        lemma_block(h, n, l2, ifcases[0].1@);
                        match lowering::block(l2, ifcases[0].1@) {
                            Some(l3) => {
                                lemma_end_case(h, n, l3, fork, then_block, else_block, merge);
                                match lowering::end_case(l3, fork, then_block, else_block, merge) {
                                    Some((l4, fork4)) => {
                                        lemma_cases(h, n, l4, fork4, merge, ifcases.skip(1));
                                    },
                                    None => {},
                                }
                            },
                            None => {},
                        }
                    },
                    None => {},
                }
            },
            None => {},
        }
    }
}

pub proof fn lemma_bind_locals(
    h: Seq<Request>,
    n: nat,
    l: Lowering,
    vars: Seq<(String, Option<String>)>,
    values: Seq<Origin>,
)
    requires
        follows(h, n, l.code),
    ensures
        lowering::bind_locals(l, vars, values) matches Some(l1) ==> follows(h, n, l1.code),
    decreases vars.len(),
{
    if vars.len() != 0 && values.len() != 0 {
        lemma_values(h, n, l, vars[0].0@, values[0], seq![], FuncId(0));
        match lowering::bind_local(l, vars[0].0@, values[0]) {
            Some(l1) => {
                lemma_bind_locals(h, n, l1, vars.skip(1), values.skip(1));
            },
            None => {},
        }
    }
}

pub proof fn lemma_assign_all(
    h: Seq<Request>,
    n: nat,
    l: Lowering,
    targets: Seq<Expression>,
    values: Seq<Origin>,
)
    requires
        follows(h, n, l.code),
    ensures
        lowering::assign_all(l, targets, values) matches Some(l1) ==> follows(h, n, l1.code),
    decreases targets, 0nat,
{
    if targets.len() != 0 && values.len() != 0 {
        lemma_assign(h, n, l, targets[0], values[0]);
        match lowering::assign(l, targets[0], values[0]) {
            Some(l1) => {
                lemma_assign_all(h, n, l1, targets.skip(1), values.skip(1));
            },
            None => {},
        }
    }
}

pub proof fn lemma_assign(h: Seq<Request>, n: nat, l: Lowering, target: Expression, v: Origin)
    requires
        follows(h, n, l.code),
    ensures
        lowering::assign(l, target, v) matches Some(l1) ==> follows(h, n, l1.code),
    decreases target, 1nat,
{
    match target {
        Expression::Var(name) => {
            lemma_values(h, n, l, name@, v, seq![], FuncId(0));
        },
        Expression::Field(table, field) => {
            lemma_values(h, n, l, field@, v, seq![], FuncId(0));
            lemma_expression(h, n, l, *table);
            match lowering::expression(l, *table) {
                Some((l1, t)) => {
                    lemma_entries(h, n, l1, t, field@, t, v);
                },
                None => {},
            }
        },
        Expression::Index(table, index) => {
            lemma_expression(h, n, l, *table);
            match lowering::expression(l, *table) {
                Some((l1, t)) => {
                    lemma_expression(h, n, l1, *index);
                    match lowering::expression(l1, *index) {
                        Some((l2, i)) => {
                            lemma_entries(h, n, l2, t, seq![], i, v);
                        },
                        None => {},
                    }
                },
                None => {},
            }
        },
        _ => {},
    }
}

} // verus!
