//! What the code of statements does.
use vstd::prelude::*;

use crate::ast::{Expression, Statement};
use crate::calm;
use crate::calm::{are_flat, is_calm, is_flat_call, is_flat_target};
use crate::execution::{fits_in, is_on, is_ready, lemma_emitted, lemma_fits_in, seen};
use crate::flow;
use crate::flow::{is_settled, lemma_waits, sealable, waits};
use crate::growth;
use crate::ir;
use crate::ir::{Block, FuncId, Inst, Origin, Variable};
use crate::lowering;
use crate::lowering::Lowering;
use crate::machine::{numbers, run};
use crate::meaning;
use crate::meaning::{executes, Setting, Store};
use crate::paths;
use crate::results::{law_call, law_expression, law_expressions};
use crate::sealing;
use crate::sealing::{places, spares};
use crate::sequel::{follows, lemma_start};
use crate::storing::{law_assign_all, law_bind_locals};
use crate::values;
use crate::values::lemma_ready;

verus! {

/// Whether the targets of an assignment are flat.
pub open spec fn are_flat_targets(targets: Seq<Expression>) -> bool
    decreases targets.len(),
{
    targets.len() != 0 ==> is_flat_target(targets[0]) && are_flat_targets(targets.skip(1))
}

/// Whether control goes through a statement from one block to the next. It does
/// not through loops, and it does not go on after `and` and `or`, but for
/// conditions and returns, unless nothing comes after the statement.
pub open spec fn is_plain(stmt: Statement, last: bool) -> bool
    decreases stmt, 0nat,
{
    match stmt {
        Statement::Local { exprs, .. } => last || are_flat(exprs@),
        Statement::Assign { vars, exprs } => last || (are_flat(exprs@) && are_flat_targets(vars@)),
        Statement::FunctCall(call) => last || is_flat_call(call),
        Statement::Return(_) => true,
        Statement::Function { .. } => true,
        Statement::Do(body) => are_plain(body@, last),
        Statement::If { ifcases, elsecase } => are_plain_cases(ifcases@) && are_plain(
            elsecase@,
            false,
        ),
        _ => false,
    }
}

pub open spec fn are_plain(stmts: Seq<Statement>, last: bool) -> bool
    decreases stmts, 0nat,
{
    stmts.len() != 0 ==> is_plain(stmts[0], last && stmts.len() == 1) && are_plain(
        stmts.skip(1),
        last,
    )
}

pub open spec fn are_plain_cases(ifcases: Seq<(Expression, Vec<Statement>)>) -> bool
    decreases ifcases, 0nat,
{
    ifcases.len() != 0 ==> are_plain(ifcases[0].1@, false) && are_plain_cases(ifcases.skip(1))
}

/// How far control has got, and what a program sees then.
pub struct Passage {
    pub variables: Seq<(Seq<char>, Variable)>,
    pub store: Store,
    /// What was returned, if anything was.
    pub end: Option<int>,
}

/// Whether `v` has been returned.
pub open spec fn is_gone(c: Setting, l: Lowering, s: Store, v: int) -> bool {
    let m = run(c.world, l.code);
    &&& m.at is None
    &&& m.result == Some(v)
    &&& m.memory == s.memory
    &&& ir::is_orderly(l.code)
    &&& ir::created(l.code, c.world.entry)
}

/// Whether control is at the point where lowering is, or something was returned.
pub open spec fn comes_to(
    c: Setting,
    l: Lowering,
    bs: Seq<(Seq<char>, Variable)>,
    r: Passage,
    settled: bool,
) -> bool {
    match r.end {
        Some(v) => is_gone(c, l, r.store, v),
        None => {
            &&& is_ready(c, l, r.variables)
            &&& bs.is_prefix_of(r.variables)
            &&& r.store == seen(run(c.world, l.code), r.variables)
            &&& settled ==> is_settled(l.cursor()) && !l.terminated
        },
    }
}

// ---------------------------------------------------------------------------
// Statements without others in them

/// What goes to the current block leaves it settled.
pub proof fn lemma_settled(l: Lowering, l1: Lowering)
    requires
        is_settled(l.cursor()),
        is_calm(l.code, l1.code),
        l1.manager == l.manager,
        l.code.is_prefix_of(l1.code),
    ensures
        is_settled(l1.cursor()),
{
    reveal(is_settled);
    ir::lemma_created(l.code, l1.code);
}

pub proof fn lemma_bind_calm(
    l: Lowering,
    vars: Seq<(String, Option<String>)>,
    values: Seq<Origin>,
)
    ensures
        lowering::bind_locals(l, vars, values) matches Some(l1) ==> is_calm(l.code, l1.code)
            && l1.manager == l.manager && l1.terminated == l.terminated,
    decreases vars.len(),
{
    if vars.len() != 0 && values.len() != 0 {
        calm::lemma_bind_local(l, vars[0].0@, values[0]);
        match lowering::bind_local(l, vars[0].0@, values[0]) {
            Some(l1) => {
                assert(l1.manager == l.manager && l1.terminated == l.terminated) by {
                    reveal(lowering::bind_local);
                }
                lemma_bind_calm(l1, vars.skip(1), values.skip(1));
            },
            None => {},
        }
    }
}

pub proof fn lemma_assign_calm(l: Lowering, targets: Seq<Expression>, values: Seq<Origin>)
    requires
        are_flat_targets(targets),
    ensures
        lowering::assign_all(l, targets, values) matches Some(l1) ==> is_calm(l.code, l1.code),
    decreases targets.len(),
{
    if targets.len() != 0 && values.len() != 0 {
        calm::lemma_assign(l, targets[0], values[0]);
        match lowering::assign(l, targets[0], values[0]) {
            Some(l1) => {
                lemma_assign_calm(l1, targets.skip(1), values.skip(1));
            },
            None => {},
        }
    }
}

pub proof fn lemma_local(
    c: Setting,
    l: Lowering,
    stmt: Statement,
    bs: Seq<(Seq<char>, Variable)>,
    last: bool,
) -> (r: Passage)
    requires
        is_ready(c, l, bs),
        is_settled(l.cursor()),
        !l.terminated,
        stmt is Local,
        is_plain(stmt, last),
        lowering::live_statement(l, stmt) matches Some(l1) ==> fits_in(l1, c),
    ensures
        lowering::live_statement(l, stmt) matches Some(l1) ==> comes_to(c, l1, bs, r, !last)
            && executes(c, stmt, seen(run(c.world, l.code), bs), r.store, r.end),
{
    let nothing = Passage { variables: bs, store: seen(run(c.world, l.code), bs), end: None };
    match lowering::live_statement(l, stmt) {
        Some(l2) => {
            match stmt {
                Statement::Local { vars, exprs } => {
                    let (l1, values) = lowering::expressions(l, Seq::empty(), exprs@)->0;
                    assert(lowering::bind_locals(l1, vars@, values) == Some(l2));
                    growth::lemma_expressions(l, Seq::empty(), exprs@);
                    growth::lemma_bind_locals(l1, vars@, values);
                    lemma_fits_in(l1, l2, c);
                    law_expressions(c, l, Seq::empty(), exprs@, bs);
                    lemma_ready(c, l, l1, l1.code, bs);
                    let bs1 = law_bind_locals(c, l1, vars@, values, bs);
                    let m = run(c.world, l.code);
                    let m1 = run(c.world, l1.code);
                    let m2 = run(c.world, l2.code);
                    assert(values.skip(0) =~= values);
                    meaning::lemma_local(
                        c,
                        stmt,
                        seen(m, bs),
                        seen(m1, bs),
                        numbers(m1.values, values),
                    );
                    if !last {
                        calm::lemma_expressions(l, Seq::empty(), exprs@);
                        lemma_bind_calm(l1, vars@, values);
                        growth::lemma_advances(l, l1, l2);
                        lemma_settled(l, l2);
                    }
                    Passage { variables: bs1, store: seen(m2, bs1), end: None }
                },
                _ => nothing,
            }
        },
        None => nothing,
    }
}

pub proof fn lemma_assign(
    c: Setting,
    l: Lowering,
    stmt: Statement,
    bs: Seq<(Seq<char>, Variable)>,
    last: bool,
) -> (r: Passage)
    requires
        is_ready(c, l, bs),
        is_settled(l.cursor()),
        !l.terminated,
        stmt is Assign,
        is_plain(stmt, last),
        lowering::live_statement(l, stmt) matches Some(l1) ==> fits_in(l1, c),
    ensures
        lowering::live_statement(l, stmt) matches Some(l1) ==> comes_to(c, l1, bs, r, !last)
            && executes(c, stmt, seen(run(c.world, l.code), bs), r.store, r.end),
{
    let nothing = Passage { variables: bs, store: seen(run(c.world, l.code), bs), end: None };
    match lowering::live_statement(l, stmt) {
        Some(l2) => {
            match stmt {
                Statement::Assign { vars, exprs } => {
                    let (l1, values) = lowering::expressions(l, Seq::empty(), exprs@)->0;
                    assert(lowering::assign_all(l1, vars@, values) == Some(l2));
                    growth::lemma_expressions(l, Seq::empty(), exprs@);
                    growth::lemma_assign_all(l1, vars@, values);
                    lemma_fits_in(l1, l2, c);
                    law_expressions(c, l, Seq::empty(), exprs@, bs);
                    lemma_ready(c, l, l1, l1.code, bs);
                    law_assign_all(c, l1, vars@, values, bs);
                    let m = run(c.world, l.code);
                    let m1 = run(c.world, l1.code);
                    let m2 = run(c.world, l2.code);
                    assert(values.skip(0) =~= values);
                    meaning::lemma_assign(
                        c,
                        stmt,
                        seen(m, bs),
                        seen(m1, bs),
                        numbers(m1.values, values),
                        seen(m2, bs),
                    );
                    if !last {
                        calm::lemma_expressions(l, Seq::empty(), exprs@);
                        lemma_assign_calm(l1, vars@, values);
                        growth::lemma_advances(l, l1, l2);
                        lemma_settled(l, l2);
                    }
                    assert(bs =~= bs.subrange(0, bs.len() as int));
                    Passage { variables: bs, store: seen(m2, bs), end: None }
                },
                _ => nothing,
            }
        },
        None => nothing,
    }
}

pub proof fn lemma_call(
    c: Setting,
    l: Lowering,
    stmt: Statement,
    bs: Seq<(Seq<char>, Variable)>,
    last: bool,
) -> (r: Passage)
    requires
        is_ready(c, l, bs),
        is_settled(l.cursor()),
        !l.terminated,
        stmt is FunctCall,
        is_plain(stmt, last),
        lowering::live_statement(l, stmt) matches Some(l1) ==> fits_in(l1, c),
    ensures
        lowering::live_statement(l, stmt) matches Some(l1) ==> comes_to(c, l1, bs, r, !last)
            && executes(c, stmt, seen(run(c.world, l.code), bs), r.store, r.end),
{
    let nothing = Passage { variables: bs, store: seen(run(c.world, l.code), bs), end: None };
    match lowering::live_statement(l, stmt) {
        Some(l1) => {
            match stmt {
                Statement::FunctCall(call) => {
                    let v = (lowering::call(l, call)->0).1;
                    assert(lowering::call(l, call) == Some((l1, v)));
                    growth::lemma_call(l, call);
                    law_call(c, l, call, bs);
                    lemma_ready(c, l, l1, v, bs);
                    let m = run(c.world, l.code);
                    let m1 = run(c.world, l1.code);
                    meaning::lemma_call_statement(
                        c,
                        stmt,
                        seen(m, bs),
                        seen(m1, bs),
                        m1.values[v],
                    );
                    if !last {
                        calm::lemma_call(l, call);
                        lemma_settled(l, l1);
                    }
                    assert(bs =~= bs.subrange(0, bs.len() as int));
                    Passage { variables: bs, store: seen(m1, bs), end: None }
                },
                _ => nothing,
            }
        },
        None => nothing,
    }
}

/// A value is returned.
pub proof fn lemma_give_back(c: Setting, l: Lowering, v: Origin, bs: Seq<(Seq<char>, Variable)>)
    requires
        is_ready(c, l, bs),
    ensures
        lowering::give_back(l, v) matches Some(l1) ==> is_gone(
            c,
            l1,
            seen(run(c.world, l.code), bs),
            run(c.world, l.code).values[v],
        ),
{
    match lowering::give_back(l, v) {
        Some(l2) => {
            growth::lemma_give_back(l, v);
            ir::lemma_created(l.code, l2.code);
            reveal(lowering::give_back);
            let w = c.world;
            let inst = Inst::Return { args: seq![v] };
            let s = lowering::emit_if_reachable(Some(l), inst);
            let l1 = s->0;
            assert(s == lowering::emit(Some(l), inst)) by {
                reveal(is_on);
            }
            lemma_emitted(w, l.code, inst);
            match l1.manager.current {
                Some(current) => {
                    flow::lemma_seal(w, l1.cursor(), current);
                    assert(run(w, l1.code).at is None);
                    assert(ir::position(l1.code) is Some) by {
                        reveal(is_on);
                    }
                },
                None => {},
            }
        },
        None => {},
    }
}

pub proof fn lemma_return(
    c: Setting,
    l: Lowering,
    stmt: Statement,
    bs: Seq<(Seq<char>, Variable)>,
) -> (r: Passage)
    requires
        is_ready(c, l, bs),
        stmt is Return,
        lowering::live_statement(l, stmt) matches Some(l1) ==> fits_in(l1, c),
    ensures
        lowering::live_statement(l, stmt) matches Some(l1) ==> comes_to(c, l1, bs, r, true)
            && executes(c, stmt, seen(run(c.world, l.code), bs), r.store, r.end),
{
    let m = run(c.world, l.code);
    let nothing = Passage { variables: bs, store: seen(m, bs), end: None };
    match lowering::live_statement(l, stmt) {
        Some(l2) => {
            match stmt {
                Statement::Return(exprs) => {
                    let (l1, v) = if exprs@.len() == 0 {
                        lowering::constant(l, 0)->0
                    } else {
                        lowering::expression(l, exprs@[0])->0
                    };
                    assert(lowering::give_back(l1, v) == Some(l2));
                    growth::lemma_give_back(l1, v);
                    lemma_fits_in(l1, l2, c);
                    if exprs@.len() == 0 {
                        let inst = Inst::Iconst { ty: l.word, imm: 0 };
                        lemma_emitted(c.world, l.code, inst);
                        assert(growth::computes(l, l1)) by {
                            broadcast use ir::group_orderly;

                            growth::lemma_same(l.module);
                        }
                        values::lemma_with_value(m, v, 0, bs);
                    } else {
                        growth::lemma_expression(l, exprs@[0]);
                        law_expression(c, l, exprs@[0], bs);
                    }
                    lemma_ready(c, l, l1, v, bs);
                    lemma_give_back(c, l1, v, bs);
                    let m1 = run(c.world, l1.code);
                    meaning::lemma_return(c, stmt, seen(m, bs), seen(m1, bs), m1.values[v]);
                    Passage { variables: bs, store: seen(m1, bs), end: Some(m1.values[v]) }
                },
                _ => nothing,
            }
        },
        None => nothing,
    }
}

/// The address of a function is written to its global.
pub proof fn lemma_publish(
    c: Setting,
    l: Lowering,
    id: FuncId,
    name: Seq<char>,
    bs: Seq<(Seq<char>, Variable)>,
)
    requires
        is_ready(c, l, bs),
        lowering::publish(l, id, name) matches Some(l1) ==> fits_in(l1, c),
    ensures
        lowering::publish(l, id, name) matches Some(l1) ==> is_ready(c, l1, bs) && seen(
            run(c.world, l1.code),
            bs,
        ) == seen(run(c.world, l.code), bs).write(c.cell("__fn_ptr_"@ + name), (c.world.code)(id)),
{
    match lowering::publish(l, id, name) {
        Some(l3) => {
            growth::lemma_publish(l, id, name);
            reveal(lowering::publish);
            reveal(lowering::function_address);
            let w = c.world;
            let pointer = "__fn_ptr_"@ + name;
            let (l1, ptr) = lowering::global_pointer(l, pointer, None)->0;
            let (l2, address) = lowering::function_address(l1, id)->0;
            values::lemma_global_pointer(w, l, pointer, None);
            growth::lemma_global_pointer(l, pointer, None);
            lemma_emitted(w, l1.code, Inst::FunctionAddress { ty: l1.word, func: id });
            lemma_emitted(w, l2.code, Inst::Store { value: address, ptr, offset: 0 });
            values::lemma_cell(l3, pointer, c);
            lemma_ready(c, l, l3, address, bs);
            let m = run(w, l.code);
            let m3 = run(w, l3.code);
            assert(seen(m3, bs).locals =~= seen(m, bs).locals);
        },
        None => {},
    }
}

pub proof fn lemma_function(
    c: Setting,
    l: Lowering,
    stmt: Statement,
    bs: Seq<(Seq<char>, Variable)>,
) -> (r: Passage)
    requires
        is_ready(c, l, bs),
        is_settled(l.cursor()),
        !l.terminated,
        stmt is Function,
        lowering::live_statement(l, stmt) matches Some(l1) ==> fits_in(l1, c),
    ensures
        lowering::live_statement(l, stmt) matches Some(l1) ==> comes_to(c, l1, bs, r, true)
            && executes(c, stmt, seen(run(c.world, l.code), bs), r.store, r.end),
{
    let m = run(c.world, l.code);
    let nothing = Passage { variables: bs, store: seen(m, bs), end: None };
    match lowering::live_statement(l, stmt) {
        Some(l2) => {
            match stmt {
                Statement::Function { name, params, body } => {
                    let full_name = lowering::joined(name.qname@);
                    let f = lowering::function(l, params.names@, body@)->0;
                    let (l1, id) = lowering::install(l, f, full_name, params.names.len())->0;
                    assert(lowering::publish(l1, id, full_name) == Some(l2));
                    growth::lemma_function(l, params.names@, body@);
                    growth::lemma_install(l, f, full_name, params.names.len());
                    growth::lemma_publish(l1, id, full_name);
                    values::lemma_installed(
                        c,
                        l,
                        params.names@,
                        body@,
                        full_name,
                        params.names.len(),
                        l2,
                    );
                    assert(l1.code == l.code) by {
                        reveal(lowering::install);
                    }
                    lemma_fits_in(l1, l2, c);
                    lemma_ready(c, l, l1, l.code, bs);
                    lemma_publish(c, l1, id, full_name, bs);
                    calm::lemma_publish(l1, id, full_name);
                    growth::lemma_advances(l, l1, l2);
                    lemma_settled(l, l2);
                    meaning::lemma_function(c, stmt, seen(m, bs), (c.world.code)(id));
                    assert(bs =~= bs.subrange(0, bs.len() as int));
                    Passage { variables: bs, store: seen(run(c.world, l2.code), bs), end: None }
                },
                _ => nothing,
            }
        },
        None => nothing,
    }
}

// ---------------------------------------------------------------------------
// Blocks that wait

/// A block that waits goes on waiting while an expression is lowered.
pub proof fn lemma_expression_waits(l: Lowering, e: Expression, b: Block)
    requires
        waits(l.cursor(), b),
        forall|x: u32| #[trigger] l.manager.sealed.contains(x) ==> x < ir::block_count(l.code),
    ensures
        lowering::expression(l, e) matches Some((l1, _)) ==> waits(l1.cursor(), b),
{
    let n = ir::block_count(l.code);
    lemma_start(l.code, n);
    paths::lemma_expression(l.code, n, l, e);
    growth::lemma_expression(l, e);
    match lowering::expression(l, e) {
        Some((l1, _)) => {
            ir::lemma_created(l.code, l1.code);
            assert(ir::is_orderly(l.code)) by {
                reveal(waits);
            }
            assert(spares(n, sealable(l), l1.cursor()));
            lemma_waits(l, l1, b);
        },
        None => {},
    }
}

/// What is known of a block that statements were lowered from `l` on.
pub open spec fn is_block(l: Lowering, l1: Lowering) -> bool {
    &&& follows(l.code, ir::block_count(l.code), l1.code)
    &&& forall|b: Block| waits(l.cursor(), b) ==> #[trigger] waits(l1.cursor(), b)
    &&& forall|x: u32| #[trigger] l1.manager.sealed.contains(x) ==> x < ir::block_count(l1.code)
    &&& l1.manager.current matches Some(b) ==> ir::created(l1.code, b)
    &&& ir::is_orderly(l1.code)
    &&& ir::block_count(l.code) <= ir::block_count(l1.code)
}

pub proof fn lemma_block_waits(l: Lowering, stmts: Seq<Statement>)
    requires
        ir::is_orderly(l.code),
        forall|x: u32| #[trigger] l.manager.sealed.contains(x) ==> x < ir::block_count(l.code),
        l.manager.current matches Some(b) ==> ir::created(l.code, b),
    ensures
        lowering::block(l, stmts) matches Some(l1) ==> is_block(l, l1),
{
    let n = ir::block_count(l.code);
    lemma_start(l.code, n);
    assert(places(l.code, n, sealable(l), l));
    sealing::lemma_block(l.code, n, sealable(l), l, stmts);
    growth::lemma_block(l, stmts);
    match lowering::block(l, stmts) {
        Some(l1) => {
            ir::lemma_created(l.code, l1.code);
            assert forall|b: Block| waits(l.cursor(), b) implies #[trigger] waits(
                l1.cursor(),
                b,
            ) by {
                lemma_waits(l, l1, b);
            }
        },
        None => {},
    }
}

} // verus!
