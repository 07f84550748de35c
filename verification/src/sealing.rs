//! Which blocks are sealed.
//!
//! What is lowered at some point seals the block that is open at that point, and
//! blocks that are created later, but no others.
use vstd::prelude::*;

use crate::ast::{Expression, FunctionCall, Statement};
use crate::blocks;
use crate::blocks::Cursor;
use crate::growth;
use crate::ir;
use crate::ir::{Block, FuncId, Inst, Origin, Request};
use crate::lowering;
use crate::lowering::{Fork, Lowering};
use crate::paths;
use crate::sequel::follows;

verus! {

broadcast use crate::sequel::group_follows;

/// Whether of the blocks before the `n`th only those in `k` are sealed or open.
pub open spec fn spares(n: nat, k: Set<u32>, c: Cursor) -> bool {
    &&& forall|x: u32| #[trigger] c.manager.sealed.contains(x) ==> x >= n || k.contains(x)
    &&& c.manager.current matches Some(b) ==> b.0 >= n || k.contains(b.0)
    &&& forall|x: u32| #[trigger] c.manager.sealed.contains(x) ==> x < ir::block_count(c.code)
}

/// Whether that holds of what follows `h`.
pub open spec fn places(h: Seq<Request>, n: nat, k: Set<u32>, l: Lowering) -> bool {
    follows(h, n, l.code) && spares(n, k, l.cursor())
}

proof fn lemma_jump_to(h: Seq<Request>, n: nat, k: Set<u32>, c: Cursor, target: Block)
    requires
        follows(h, n, c.code),
        spares(n, k, c),
        target.0 >= n,
    ensures
        c.jump_to(target) matches Some(c1) ==> follows(h, n, c1.code) && spares(n, k, c1),
{
    paths::lemma_jump_to(h, n, c, target);
    match c.jump_to(target) {
        Some(c1) => {
            match c.manager.current {
                Some(block) => {
                    if !c.manager.sealed.contains(block.0) {
                        let h1 = if ir::terminated(c.code, block) {
                            c.code
                        } else {
                            blocks::jump_with_zeroes(c.code, target)->0
                        };
                        ir::lemma_push(h1, Request::Seal { block });
                    }
                },
                None => {},
            }
        },
        None => {},
    }
}

proof fn lemma_seal(h: Seq<Request>, n: nat, k: Set<u32>, c: Cursor, block: Block)
    requires
        follows(h, n, c.code),
        spares(n, k, c),
        block.0 >= n || k.contains(block.0),
    ensures
        c.seal(block) matches Some(c1) ==> follows(h, n, c1.code) && spares(n, k, c1),
{
}

proof fn lemma_switch_to(h: Seq<Request>, n: nat, k: Set<u32>, c: Cursor, block: Block)
    requires
        follows(h, n, c.code),
        spares(n, k, c),
        block.0 >= n,
    ensures
        c.switch_to(block) matches Some(c1) ==> follows(h, n, c1.code) && spares(n, k, c1),
{
    paths::lemma_switch_to(h, n, c, block);
    lemma_jump_to(h, n, k, c, block);
}

proof fn lemma_expression(h: Seq<Request>, n: nat, k: Set<u32>, l: Lowering, e: Expression)
    requires
        places(h, n, k, l),
    ensures
        lowering::expression(l, e) matches Some((l1, _)) ==> places(h, n, k, l1),
{
    growth::lemma_expression(l, e);
    match lowering::expression(l, e) {
        Some((l1, _)) => {
            ir::lemma_created(l.code, l1.code);
        },
        None => {},
    }
    paths::lemma_expression(h, n, l, e);
}

proof fn lemma_expressions(
    h: Seq<Request>,
    n: nat,
    k: Set<u32>,
    l: Lowering,
    done: Seq<Origin>,
    exprs: Seq<Expression>,
)
    requires
        places(h, n, k, l),
    ensures
        lowering::expressions(l, done, exprs) matches Some((l1, _)) ==> places(h, n, k, l1),
{
    growth::lemma_expressions(l, done, exprs);
    match lowering::expressions(l, done, exprs) {
        Some((l1, _)) => {
            ir::lemma_created(l.code, l1.code);
        },
        None => {},
    }
    paths::lemma_expressions(h, n, l, done, exprs);
}

proof fn lemma_call(h: Seq<Request>, n: nat, k: Set<u32>, l: Lowering, c: FunctionCall)
    requires
        places(h, n, k, l),
    ensures
        lowering::call(l, c) matches Some((l1, _)) ==> places(h, n, k, l1),
{
    growth::lemma_call(l, c);
    match lowering::call(l, c) {
        Some((l1, _)) => {
            ir::lemma_created(l.code, l1.code);
        },
        None => {},
    }
    paths::lemma_call(h, n, l, c);
}

proof fn lemma_bind_locals(
    h: Seq<Request>,
    n: nat,
    k: Set<u32>,
    l: Lowering,
    vars: Seq<(String, Option<String>)>,
    values: Seq<Origin>,
)
    requires
        places(h, n, k, l),
    ensures
        lowering::bind_locals(l, vars, values) matches Some(l1) ==> places(h, n, k, l1),
{
    paths::lemma_bind_locals(h, n, l, vars, values);
    lemma_bound(l, vars, values);
}

proof fn lemma_bound(l: Lowering, vars: Seq<(String, Option<String>)>, values: Seq<Origin>)
    ensures
        lowering::bind_locals(l, vars, values) matches Some(l1) ==> l1.manager == l.manager
            && ir::block_count(l.code) <= ir::block_count(l1.code),
    decreases vars.len(),
{
    if vars.len() != 0 && values.len() != 0 {
        reveal(lowering::bind_local);
        growth::lemma_bind_local(l, vars[0].0@, values[0]);
        match lowering::bind_local(l, vars[0].0@, values[0]) {
            Some(l1) => {
                ir::lemma_created(l.code, l1.code);
                lemma_bound(l1, vars.skip(1), values.skip(1));
            },
            None => {},
        }
    }
}

proof fn lemma_assign_all(
    h: Seq<Request>,
    n: nat,
    k: Set<u32>,
    l: Lowering,
    targets: Seq<Expression>,
    values: Seq<Origin>,
)
    requires
        places(h, n, k, l),
    ensures
        lowering::assign_all(l, targets, values) matches Some(l1) ==> places(h, n, k, l1),
{
    growth::lemma_assign_all(l, targets, values);
    match lowering::assign_all(l, targets, values) {
        Some(l1) => {
            ir::lemma_created(l.code, l1.code);
        },
        None => {},
    }
    paths::lemma_assign_all(h, n, l, targets, values);
}

proof fn lemma_publish(
    h: Seq<Request>,
    n: nat,
    k: Set<u32>,
    l: Lowering,
    id: FuncId,
    name: Seq<char>,
)
    requires
        places(h, n, k, l),
    ensures
        lowering::publish(l, id, name) matches Some(l1) ==> places(h, n, k, l1),
{
    growth::lemma_publish(l, id, name);
    match lowering::publish(l, id, name) {
        Some(l1) => {
            ir::lemma_created(l.code, l1.code);
        },
        None => {},
    }
    paths::lemma_publish(h, n, l, id, name);
}

// ---------------------------------------------------------------------------
// Statements

pub proof fn lemma_fresh_block(h: Seq<Request>, n: nat, k: Set<u32>, l: Lowering)
    requires
        places(h, n, k, l),
    ensures
        lowering::fresh_block(l) matches Some(l1) ==> places(h, n, k, l1),
{
    reveal(lowering::fresh_block);
    let block = lowering::new_block(Some(l));
    match lowering::append_function_params(lowering::create_known(Some(l)), block) {
        Some(l1) => {
            lemma_switch_to(h, n, k, l1.cursor(), block);
        },
        None => {},
    }
}

proof fn lemma_leave_loop(
    h: Seq<Request>,
    n: nat,
    k: Set<u32>,
    l: Lowering,
    body: Block,
    exit: Block,
)
    requires
        places(h, n, k, l),
        body.0 >= n,
        exit.0 >= n,
    ensures
        lowering::leave_loop(Some(l), body, exit) matches Some(l1) ==> places(h, n, k, l1),
{
    let s = lowering::go_to(lowering::exit_scope(Some(l)), exit);
    match s {
        Some(l1) => {
            lemma_seal(h, n, k, l1.cursor(), body);
            match lowering::seal(s, body) {
                Some(l2) => {
                    lemma_seal(h, n, k, l2.cursor(), exit);
                },
                None => {},
            }
        },
        None => {},
    }
}

proof fn lemma_test_while(
    h: Seq<Request>,
    n: nat,
    k: Set<u32>,
    l: Lowering,
    v: Origin,
    header: Block,
    body: Block,
    exit: Block,
)
    requires
        places(h, n, k, l),
        header.0 >= n,
        body.0 >= n,
        exit.0 >= n,
    ensures
        lowering::test_while(l, v, header, body, exit) matches Some(l1) ==> places(h, n, k, l1),
{
    reveal(lowering::test_while);
    let s = lowering::emit(
        Some(l),
        Inst::Brif {
            cond: v,
            then_block: body,
            then_args: seq![],
            else_block: exit,
            else_args: seq![],
        },
    );
    match s {
        Some(l1) => {
            lemma_seal(h, n, k, l1.cursor(), header);
        },
        None => {},
    }
}

proof fn lemma_end_while(
    h: Seq<Request>,
    n: nat,
    k: Set<u32>,
    l: Lowering,
    header: Block,
    body: Block,
    exit: Block,
)
    requires
        places(h, n, k, l),
        header.0 >= n,
        body.0 >= n,
        exit.0 >= n,
    ensures
        lowering::end_while(l, header, body, exit) matches Some(l1) ==> places(h, n, k, l1),
{
    reveal(lowering::end_while);
    let s = lowering::emit_if_reachable(Some(l), Inst::Jump { target: header, args: seq![] });
    match s {
        Some(l1) => {
            lemma_leave_loop(h, n, k, l1, body, exit);
        },
        None => {},
    }
}

proof fn lemma_end_repeat(
    h: Seq<Request>,
    n: nat,
    k: Set<u32>,
    l: Lowering,
    v: Origin,
    body: Block,
    exit: Block,
)
    requires
        places(h, n, k, l),
        body.0 >= n,
        exit.0 >= n,
    ensures
        lowering::end_repeat(l, v, body, exit) matches Some(l1) ==> places(h, n, k, l1),
{
    reveal(lowering::end_repeat);
    let s = lowering::emit_if_reachable(
        Some(l),
        Inst::Brif {
            cond: v,
            then_block: exit,
            then_args: seq![],
            else_block: body,
            else_args: seq![],
        },
    );
    match s {
        Some(l1) => {
            lemma_leave_loop(h, n, k, l1, body, exit);
        },
        None => {},
    }
}

proof fn lemma_begin_while(h: Seq<Request>, n: nat, k: Set<u32>, l: Lowering)
    requires
        places(h, n, k, l),
    ensures
        lowering::begin_while(l) matches Some(l1) ==> places(h, n, k, l1)
            && lowering::new_block(Some(l)).0 >= n && lowering::new_block(
            lowering::create_block(Some(l)),
        ).0 >= n && lowering::new_block(
            lowering::create_block(lowering::create_block(Some(l))),
        ).0 >= n,
        lowering::begin_repeat(l) matches Some(l1) ==> places(h, n, k, l1)
            && lowering::new_block(Some(l)).0 >= n && lowering::new_block(
            lowering::create_block(Some(l)),
        ).0 >= n,
{
    reveal(lowering::begin_while);
    reveal(lowering::begin_repeat);
    let s = Some(l);
    let header = lowering::new_block(s);
    let s1 = lowering::create_block(lowering::create_block(lowering::create_block(s)));
    if s1 is Some {
        lemma_jump_to(h, n, k, s1->0.cursor(), header);
    }
}

proof fn lemma_give_back(h: Seq<Request>, n: nat, k: Set<u32>, l: Lowering, v: Origin)
    requires
        places(h, n, k, l),
    ensures
        lowering::give_back(l, v) matches Some(l1) ==> places(h, n, k, l1),
{
    reveal(lowering::give_back);
}

pub proof fn lemma_begin_case(
    h: Seq<Request>,
    n: nat,
    k: Set<u32>,
    l: Lowering,
    v: Origin,
    test: Block,
)
    requires
        places(h, n, k, l),
        test.0 >= n || k.contains(test.0),
    ensures
        lowering::begin_case(l, v, test) matches Some(l1) ==> places(h, n, k, l1)
            && lowering::new_block(Some(l)).0 >= n && lowering::new_block(
            lowering::create_block(Some(l)),
        ).0 >= n,
{
    reveal(lowering::begin_case);
    let then_block = lowering::new_block(Some(l));
    let else_block = lowering::new_block(lowering::create_block(Some(l)));
    let s = lowering::emit(
        lowering::create_known(lowering::create_known(Some(l))),
        Inst::Brif {
            cond: v,
            then_block,
            then_args: seq![],
            else_block,
            else_args: seq![],
        },
    );
    match lowering::seal(s, test) {
        Some(l1) => {
            lemma_switch_to(h, n, k, l1.cursor(), then_block);
        },
        None => {},
    }
}

pub proof fn lemma_join(h: Seq<Request>, n: nat, k: Set<u32>, l: Lowering, fork: Fork, merge: Block)
    requires
        places(h, n, k, l),
        merge.0 >= n,
    ensures
        lowering::join(l, fork, merge) matches Some((l1, _)) ==> places(h, n, k, l1),
{
    match lowering::exit_scope(Some(l)) {
        Some(l1) => {
            lemma_jump_to(h, n, k, l1.cursor(), merge);
        },
        None => {},
    }
}

pub proof fn lemma_end_case(
    h: Seq<Request>,
    n: nat,
    k: Set<u32>,
    l: Lowering,
    fork: Fork,
    then_block: Block,
    else_block: Block,
    merge: Block,
)
    requires
        places(h, n, k, l),
        merge.0 >= n,
        then_block.0 >= n,
        else_block.0 >= n,
    ensures
        lowering::end_case(l, fork, then_block, else_block, merge) matches Some((l1, fork1))
            ==> places(h, n, k, l1) && fork1.test == else_block,
{
    reveal(lowering::end_case);
    lemma_join(h, n, k, l, fork, merge);
    match lowering::join(l, fork, merge) {
        Some((l1, _)) => {
            match lowering::seal(Some(l1), then_block) {
                Some(l2) => {
                    lemma_switch_to(h, n, k, l2.cursor(), else_block);
                },
                None => {},
            }
        },
        None => {},
    }
}

pub proof fn lemma_end_if(
    h: Seq<Request>,
    n: nat,
    k: Set<u32>,
    l: Lowering,
    fork: Fork,
    merge: Block,
)
    requires
        places(h, n, k, l),
        fork.test.0 >= n || k.contains(fork.test.0),
        merge.0 >= n,
    ensures
        lowering::end_if(l, fork, merge) matches Some(l1) ==> places(h, n, k, l1),
{
    reveal(lowering::end_if);
    lemma_join(h, n, k, l, fork, merge);
    match lowering::join(l, fork, merge) {
        Some((l1, fork1)) => {
            match lowering::seal(Some(l1), fork1.test) {
                Some(l2) => {
                    lemma_switch_to(h, n, k, l2.cursor(), merge);
                },
                None => {},
            }
        },
        None => {},
    }
}

pub proof fn lemma_statement(h: Seq<Request>, n: nat, k: Set<u32>, l: Lowering, stmt: Statement)
    requires
        places(h, n, k, l),
    ensures
        lowering::statement(l, stmt) matches Some(l1) ==> places(h, n, k, l1),
    decreases stmt, 1nat,
{
    if !l.terminated {
        lemma_fresh_block(h, n, k, l);
        match lowering::fresh_block(l) {
            Some(l1) => {
                lemma_live_statement(h, n, k, l1, stmt);
            },
            None => {},
        }
    }
}

pub proof fn lemma_live_statement(
    h: Seq<Request>,
    n: nat,
    k: Set<u32>,
    l: Lowering,
    stmt: Statement,
)
    requires
        places(h, n, k, l),
    ensures
        lowering::live_statement(l, stmt) matches Some(l1) ==> places(h, n, k, l1),
    decreases stmt, 0nat,
{
    match stmt {
        Statement::If { ifcases, elsecase } => {
            match lowering::begin_if(l) {
                Some((l1, fork)) => {
                    let merge = lowering::new_block(Some(l));
                    assert(merge.0 >= n);
                    assert(places(h, n, k, l1));
                    lemma_cases(h, n, k, l1, fork, merge, ifcases@);
                    match lowering::cases(l1, fork, merge, ifcases@) {
                        Some((l2, fork2)) => {
                            let l3 = lowering::begin_else(l2);
                            lemma_block(h, n, k, l3, elsecase@);
                            match lowering::block(l3, elsecase@) {
                                Some(l4) => {
                                    lemma_end_if(h, n, k, l4, fork2, merge);
                                },
                                None => {},
                            }
                        },
                        None => {},
                    }
                },
                None => {},
            }
        },
        Statement::While { cond, block: body } => {
            let header_block = lowering::new_block(Some(l));
            let body_block = lowering::new_block(lowering::create_block(Some(l)));
            let exit_block = lowering::new_block(
                lowering::create_block(lowering::create_block(Some(l))),
            );
            lemma_begin_while(h, n, k, l);
            match lowering::begin_while(l) {
                Some(l1) => {
                    lemma_expression(h, n, k, l1, cond);
                    match lowering::expression(l1, cond) {
                        Some((l2, v)) => {
                            lemma_test_while(h, n, k, l2, v, header_block, body_block, exit_block);
                            match lowering::test_while(
                                l2,
                                v,
                                header_block,
                                body_block,
                                exit_block,
                            ) {
                                Some(l3) => {
                                    lemma_block(h, n, k, l3, body@);
                                    match lowering::block(l3, body@) {
                                        Some(l4) => {
                                            lemma_end_while(
                                                h,
                                                n,
                                                k,
                                                l4,
                                                header_block,
                                                body_block,
                                                exit_block,
                                            );
                                        },
                                        None => {},
                                    }
                                },
                                None => {},
                            }
                        },
                        None => {},
                    }
                },
                None => {},
            }
        },
        Statement::Repeat { block: body, cond } => {
            let body_block = lowering::new_block(Some(l));
            let exit_block = lowering::new_block(lowering::create_block(Some(l)));
            lemma_begin_while(h, n, k, l);
            match lowering::begin_repeat(l) {
                Some(l1) => {
                    lemma_block(h, n, k, l1, body@);
                    match lowering::block(l1, body@) {
                        Some(l2) => {
                            lemma_expression(h, n, k, l2, cond);
                            match lowering::expression(l2, cond) {
                                Some((l3, v)) => {
                                    lemma_end_repeat(h, n, k, l3, v, body_block, exit_block);
                                },
                                None => {},
                            }
                        },
                        None => {},
                    }
                },
                None => {},
            }
        },
        Statement::Local { vars, exprs } => {
            lemma_expressions(h, n, k, l, Seq::empty(), exprs@);
            match lowering::expressions(l, Seq::empty(), exprs@) {
                Some((l1, values)) => {
                    lemma_bind_locals(h, n, k, l1, vars@, values);
                },
                None => {},
            }
        },
        Statement::Assign { vars, exprs } => {
            lemma_expressions(h, n, k, l, Seq::empty(), exprs@);
            match lowering::expressions(l, Seq::empty(), exprs@) {
                Some((l1, values)) => {
                    lemma_assign_all(h, n, k, l1, vars@, values);
                },
                None => {},
            }
        },
        Statement::Return(exprs) => {
            if exprs@.len() != 0 {
                lemma_expression(h, n, k, l, exprs@[0]);
            }
            match if exprs@.len() == 0 {
                lowering::constant(l, 0)
            } else {
                lowering::expression(l, exprs@[0])
            } {
                Some((l1, v)) => {
                    lemma_give_back(h, n, k, l1, v);
                },
                None => {},
            }
        },
        Statement::FunctCall(c) => {
            lemma_call(h, n, k, l, c);
        },
        Statement::Do(body) => {
            lemma_block(h, n, k, lowering::enter_scope(l), body@);
        },
        Statement::Function { name, params, body } => {
            let full_name = lowering::joined(name.qname@);
            match lowering::function(l, params.names@, body@) {
                Some(f) => {
                    reveal(lowering::install);
                    match lowering::install(l, f, full_name, params.names.len()) {
                        Some((l1, id)) => {
                            lemma_publish(h, n, k, l1, id, full_name);
                        },
                        None => {},
                    }
                },
                None => {},
            }
        },
        _ => {},
    }
}

pub proof fn lemma_block(h: Seq<Request>, n: nat, k: Set<u32>, l: Lowering, stmts: Seq<Statement>)
    requires
        places(h, n, k, l),
    ensures
        lowering::block(l, stmts) matches Some(l1) ==> places(h, n, k, l1),
    decreases stmts, 0nat,
{
    if stmts.len() != 0 {
        lemma_statement(h, n, k, l, stmts[0]);
        match lowering::statement(l, stmts[0]) {
            Some(l1) => {
                lemma_block(h, n, k, l1, stmts.skip(1));
            },
            None => {},
        }
    }
}

pub proof fn lemma_cases(
    h: Seq<Request>,
    n: nat,
    k: Set<u32>,
    l: Lowering,
    fork: Fork,
    merge: Block,
    ifcases: Seq<(Expression, Vec<Statement>)>,
)
    requires
        places(h, n, k, l),
        fork.test.0 >= n || k.contains(fork.test.0),
        merge.0 >= n,
    ensures
        lowering::cases(l, fork, merge, ifcases) matches Some((l1, fork1)) ==> places(h, n, k, l1)
            && (fork1.test.0 >= n || k.contains(fork1.test.0)),
    decreases ifcases, 0nat,
{
    if ifcases.len() != 0 {
        lemma_expression(h, n, k, l, ifcases[0].0);
        match lowering::expression(l, ifcases[0].0) {
            Some((l1, v)) => {
                let then_block = lowering::new_block(Some(l1));
                let else_block = lowering::new_block(lowering::create_block(Some(l1)));
                lemma_begin_case(h, n, k, l1, v, fork.test);
                match lowering::begin_case(l1, v, fork.test) {
                    Some(l2) => {
                        lemma_block(h, n, k, l2, ifcases[0].1@);
                        match lowering::block(l2, ifcases[0].1@) {
                            Some(l3) => {
                                lemma_end_case(h, n, k, l3, fork, then_block, else_block, merge);
                                match lowering::end_case(l3, fork, then_block, else_block, merge) {
                                    Some((l4, fork4)) => {
                                        lemma_cases(h, n, k, l4, fork4, merge, ifcases.skip(1));
                                    },
                                    None => {},
                                }
                            },
                            None => {},
                        }
                    },
                    None => {},
                }
            },
            None => {},
        }
    }
}

} // verus!
