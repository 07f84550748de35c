//! Which variables names stand for.
use vstd::prelude::*;

use crate::ast::{Expression, Statement};
use crate::growth;
use crate::ir;
use crate::ir::{Block, Origin, Request, Variable};
use crate::lowering;
use crate::lowering::{stack_of, times, without, Fork, Lowering};

verus! {

/// Whether all names that stand for something stand for a variable.
pub open spec fn is_tidy(l: Lowering) -> bool {
    forall|n: Seq<char>| #[trigger] l.locals.contains_key(n) ==> l.locals[n].len() != 0
}

/// Whether names stand for the same variables.
pub open spec fn same_scope(l: Lowering, l1: Lowering) -> bool {
    l1.locals == l.locals && l1.scopes == l.scopes
}

/// Whether a scope was opened.
pub open spec fn enters(l: Lowering, l1: Lowering) -> bool {
    l1.locals == l.locals && l1.scopes == l.scopes.push(Seq::empty())
}

/// Whether the innermost scope was closed.
pub open spec fn exits(l: Lowering, l1: Lowering) -> bool {
    l.scopes.len() != 0 ==> l1.scopes == l.scopes.drop_last() && l1.locals == without(
        l.locals,
        l.scopes.last(),
    )
}

/// The variables in `m1` are those in `m`, and one more for each time that a
/// name is among `names`.
pub open spec fn extends(
    m: Map<Seq<char>, Seq<Variable>>,
    m1: Map<Seq<char>, Seq<Variable>>,
    names: Seq<Seq<char>>,
) -> bool {
    forall|n: Seq<char>| #[trigger]
        stack_of(m1, n).len() == stack_of(m, n).len() + times(names, n) && stack_of(m, n)
            == stack_of(m1, n).take(stack_of(m, n).len() as int)
}

/// Whether names were declared in the innermost scope, and nothing else.
pub open spec fn declares(l: Lowering, l1: Lowering, names: Seq<Seq<char>>) -> bool {
    &&& is_tidy(l1)
    &&& l1.scopes.len() == l.scopes.len()
    &&& l1.scopes.drop_last() == l.scopes.drop_last()
    &&& l1.scopes.last() == l.scopes.last() + names
    &&& extends(l.locals, l1.locals, names)
}

/// Whether some names were declared in the innermost scope, and nothing else.
pub open spec fn extends_scope(l: Lowering, l1: Lowering) -> bool {
    exists|names: Seq<Seq<char>>| declares(l, l1, names)
}

proof fn lemma_times_add(a: Seq<Seq<char>>, b: Seq<Seq<char>>, n: Seq<char>)
    ensures
        times(a + b, n) == times(a, n) + times(b, n),
    decreases b.len(),
{
    if b.len() == 0 {
        assert(a + b =~= a);
    } else {
        assert((a + b).drop_last() =~= a + b.drop_last());
        lemma_times_add(a, b.drop_last(), n);
    }
}

proof fn lemma_times_positive(names: Seq<Seq<char>>, n: Seq<char>)
    ensures
        times(names, n) >= 0,
    decreases names.len(),
{
    if names.len() != 0 {
        lemma_times_positive(names.drop_last(), n);
    }
}

proof fn lemma_same(l: Lowering, l1: Lowering)
    requires
        is_tidy(l),
        l.scopes.len() != 0,
        same_scope(l, l1),
    ensures
        extends_scope(l, l1),
{
    let names = Seq::<Seq<char>>::empty();
    assert(l1.scopes.last() =~= l.scopes.last() + names);
    assert forall|n: Seq<char>| #[trigger]
        stack_of(l1.locals, n).len() == stack_of(l.locals, n).len() + times(names, n) && stack_of(
            l.locals,
            n,
        ) == stack_of(l1.locals, n).take(stack_of(l.locals, n).len() as int) by {
        assert(stack_of(l.locals, n) =~= stack_of(l1.locals, n).take(
            stack_of(l.locals, n).len() as int,
        ));
    }
    assert(declares(l, l1, names));
}

proof fn lemma_then(a: Lowering, b: Lowering, c: Lowering)
    requires
        a.scopes.len() != 0,
        extends_scope(a, b),
        extends_scope(b, c),
    ensures
        extends_scope(a, c),
{
    let x = choose|names: Seq<Seq<char>>| declares(a, b, names);
    let y = choose|names: Seq<Seq<char>>| declares(b, c, names);
    let names = x + y;
    assert(c.scopes.last() =~= a.scopes.last() + names);
    assert forall|n: Seq<char>| #[trigger]
        stack_of(c.locals, n).len() == stack_of(a.locals, n).len() + times(names, n) && stack_of(
            a.locals,
            n,
        ) == stack_of(c.locals, n).take(stack_of(a.locals, n).len() as int) by {
        lemma_times_add(x, y, n);
        lemma_times_positive(x, n);
        lemma_times_positive(y, n);
        assert(stack_of(c.locals, n).len() == stack_of(b.locals, n).len() + times(y, n));
        assert(stack_of(b.locals, n).len() == stack_of(a.locals, n).len() + times(x, n));
        assert(stack_of(a.locals, n) =~= stack_of(c.locals, n).take(
            stack_of(a.locals, n).len() as int,
        ));
    }
    assert(declares(a, c, names));
}

/// When a scope is closed, all is as it was when it was opened.
pub proof fn lemma_restores(l: Lowering, l1: Lowering, l2: Lowering, l3: Lowering)
    requires
        is_tidy(l),
        enters(l, l1),
        extends_scope(l1, l2),
        exits(l2, l3),
    ensures
        same_scope(l, l3),
{
    let names = choose|names: Seq<Seq<char>>| declares(l1, l2, names);
    assert(l2.scopes.last() =~= names);
    assert(l1.scopes.drop_last() =~= l.scopes);
    assert forall|n: Seq<char>|
        l3.locals.contains_key(n) == #[trigger] l.locals.contains_key(n) by {
        lemma_times_positive(names, n);
        assert(stack_of(l2.locals, n).len() == stack_of(l1.locals, n).len() + times(names, n));
    }
    assert forall|n: Seq<char>| #[trigger] l.locals.contains_key(n) implies l3.locals[n]
        == l.locals[n] by {
        lemma_times_positive(names, n);
        assert(stack_of(l2.locals, n).len() == stack_of(l1.locals, n).len() + times(names, n));
    }
    assert(l3.locals =~= l.locals);
}

proof fn lemma_bind_local(l: Lowering, name: Seq<char>, v: Origin)
    requires
        is_tidy(l),
    ensures
        lowering::bind_local(l, name, v) matches Some(l1) ==> is_tidy(l1) && (l.scopes.len() != 0
            ==> extends_scope(l, l1)) && l1.scopes.len() != 0,
{
    reveal(lowering::bind_local);
    match lowering::bind_local(l, name, v) {
        Some(l1) => {
            if l.scopes.len() != 0 {
                let names = seq![name];
                assert(l1.scopes.drop_last() =~= l.scopes.drop_last());
                assert(l1.scopes.last() =~= l.scopes.last() + names);
                assert(names.drop_last() =~= Seq::empty());
                assert forall|n: Seq<char>| #[trigger]
                    stack_of(l1.locals, n).len() == stack_of(l.locals, n).len() + times(names, n)
                        && stack_of(l.locals, n) == stack_of(l1.locals, n).take(
                        stack_of(l.locals, n).len() as int,
                    ) by {
                    reveal_with_fuel(times, 2);
                    assert(stack_of(l.locals, n) =~= stack_of(l1.locals, n).take(
                        stack_of(l.locals, n).len() as int,
                    ));
                }
                assert(declares(l, l1, names));
            }
        },
        None => {},
    }
}

proof fn lemma_bind_locals(
    l: Lowering,
    vars: Seq<(String, Option<String>)>,
    values: Seq<Origin>,
)
    requires
        is_tidy(l),
    ensures
        lowering::bind_locals(l, vars, values) matches Some(l1) ==> is_tidy(l1) && (l.scopes.len()
            != 0 ==> extends_scope(l, l1)),
    decreases vars.len(),
{
    if vars.len() == 0 || values.len() == 0 {
        if l.scopes.len() != 0 {
            lemma_same(l, l);
        }
    } else {
        lemma_bind_local(l, vars[0].0@, values[0]);
        match lowering::bind_local(l, vars[0].0@, values[0]) {
            Some(l1) => {
                lemma_bind_locals(l1, vars.skip(1), values.skip(1));
                match lowering::bind_locals(l1, vars.skip(1), values.skip(1)) {
                    Some(l2) => {
                        if l.scopes.len() != 0 {
                            lemma_then(l, l1, l2);
                        }
                    },
                    None => {},
                }
            },
            None => {},
        }
    }
}

/// A name that is declared stands for a new variable, from which reads take
/// what was written last; other names stand for what they stood for.
pub proof fn law_local_variables(l: Lowering, name: Seq<char>, v: Origin, w: Origin)
    ensures
        lowering::bind_local(l, name, v) matches Some(l1) ==> {
            let var = Variable(l.next_var as u32);
            &&& ir::variable_type(l.code, var) is None
            &&& l1.code.last() == (Request::DefVar { var, value: v })
            &&& lowering::variable(l1, name) matches Some((l2, _)) ==> l2.code.last() == (
            Request::UseVar { block: ir::position(l1.code)->0, var })
            &&& lowering::store_variable(l1, name, w) matches Some(l2) ==> l2.code.last() == (
            Request::DefVar { var, value: w })
            &&& forall|n: Seq<char>|
                n != name ==> #[trigger] stack_of(l1.locals, n) == stack_of(l.locals, n)
        },
{
    reveal(lowering::bind_local);
    reveal(lowering::variable);
    reveal(lowering::store_variable);
}

// ---------------------------------------------------------------------------
// Steps

proof fn lemma_fresh_block(l: Lowering)
    ensures
        lowering::fresh_block(l) matches Some(l1) ==> same_scope(l, l1),
{
    reveal(lowering::fresh_block);
}

proof fn lemma_while(l: Lowering, v: Origin, header: Block, body: Block, exit: Block)
    ensures
        lowering::begin_while(l) matches Some(l1) ==> same_scope(l, l1),
        lowering::test_while(l, v, header, body, exit) matches Some(l1) ==> enters(l, l1),
        lowering::end_while(l, header, body, exit) matches Some(l1) ==> exits(l, l1),
{
    reveal(lowering::begin_while);
    reveal(lowering::test_while);
    reveal(lowering::end_while);
}

proof fn lemma_repeat(l: Lowering, v: Origin, body: Block, exit: Block)
    ensures
        lowering::begin_repeat(l) matches Some(l1) ==> enters(l, l1),
        lowering::end_repeat(l, v, body, exit) matches Some(l1) ==> exits(l, l1),
{
    reveal(lowering::begin_repeat);
    reveal(lowering::end_repeat);
}

proof fn lemma_give_back(l: Lowering, v: Origin)
    ensures
        lowering::give_back(l, v) matches Some(l1) ==> same_scope(l, l1),
{
    reveal(lowering::give_back);
}

pub proof fn lemma_if(
    l: Lowering,
    v: Origin,
    fork: Fork,
    then_block: Block,
    else_block: Block,
    merge: Block,
)
    ensures
        lowering::begin_if(l) matches Some((l1, _)) ==> same_scope(l, l1),
        lowering::begin_case(l, v, fork.test) matches Some(l1) ==> enters(l, l1),
        lowering::end_case(l, fork, then_block, else_block, merge) matches Some((l1, _)) ==> exits(
            l,
            l1,
        ),
        lowering::end_if(l, fork, merge) matches Some(l1) ==> exits(l, l1),
{
    reveal(lowering::begin_case);
    reveal(lowering::end_case);
    reveal(lowering::end_if);
}

// ---------------------------------------------------------------------------
// Statements

/// Only a `local` statement changes what names stand for: what is declared
/// inside of another statement is given up at the end of it.
pub proof fn law_lexical_scope(l: Lowering, stmt: Statement)
    requires
        is_tidy(l),
    ensures
        lowering::statement(l, stmt) matches Some(l1) ==> {
            &&& is_tidy(l1)
            &&& !(stmt is Local) ==> same_scope(l, l1)
            &&& l.scopes.len() != 0 ==> extends_scope(l, l1)
        },
    decreases stmt, 1nat,
{
    lemma_fresh_block(l);
    match lowering::fresh_block(l) {
        Some(l1) => {
            lemma_live_statement(l1, stmt);
            match lowering::live_statement(l1, stmt) {
                Some(l2) => {
                    if l.scopes.len() != 0 {
                        lemma_same(l, l1);
                        lemma_then(l, l1, l2);
                    }
                },
                None => {},
            }
        },
        None => {},
    }
    if l.scopes.len() != 0 && l.terminated {
        lemma_same(l, l);
    }
}

/// Statements in a scope declare names in it, and nothing else.
pub proof fn law_block_scope(l: Lowering, stmts: Seq<Statement>)
    requires
        is_tidy(l),
        l.scopes.len() != 0,
    ensures
        lowering::block(l, stmts) matches Some(l1) ==> extends_scope(l, l1),
    decreases stmts, 0nat,
{
    lemma_same(l, l);
    if stmts.len() != 0 {
        law_lexical_scope(l, stmts[0]);
        match lowering::statement(l, stmts[0]) {
            Some(l1) => {
                law_block_scope(l1, stmts.skip(1));
                match lowering::block(l1, stmts.skip(1)) {
                    Some(l2) => {
                        lemma_then(l, l1, l2);
                    },
                    None => {},
                }
            },
            None => {},
        }
    }
}

proof fn lemma_cases(
    l: Lowering,
    fork: Fork,
    merge: Block,
    ifcases: Seq<(Expression, Vec<Statement>)>,
)
    requires
        is_tidy(l),
    ensures
        lowering::cases(l, fork, merge, ifcases) matches Some((l1, _)) ==> same_scope(l, l1),
    decreases ifcases, 0nat,
{
    if ifcases.len() != 0 {
        growth::lemma_expression(l, ifcases[0].0);
        match lowering::expression(l, ifcases[0].0) {
            Some((l1, v)) => {
                let then_block = lowering::new_block(Some(l1));
                let else_block = lowering::new_block(lowering::create_block(Some(l1)));
                lemma_if(l1, v, fork, then_block, else_block, merge);
                match lowering::begin_case(l1, v, fork.test) {
                    Some(l2) => {
                        law_block_scope(l2, ifcases[0].1@);
                        match lowering::block(l2, ifcases[0].1@) {
                            Some(l3) => {
                                lemma_if(l3, v, fork, then_block, else_block, merge);
                                match lowering::end_case(l3, fork, then_block, else_block, merge) {
                                    Some((l4, fork4)) => {
                                        lemma_restores(l1, l2, l3, l4);
                                        lemma_cases(l4, fork4, merge, ifcases.skip(1));
                                    },
                                    None => {},
                                }
                            },
                            None => {},
                        }
                    },
                    None => {},
                }
            },
            None => {},
        }
    }
}

pub proof fn lemma_live_statement(l: Lowering, stmt: Statement)
    requires
        is_tidy(l),
    ensures
        lowering::live_statement(l, stmt) matches Some(l1) ==> {
            &&& is_tidy(l1)
            &&& !(stmt is Local) ==> same_scope(l, l1)
            &&& l.scopes.len() != 0 ==> extends_scope(l, l1)
        },
    decreases stmt, 0nat,
{
    match stmt {
        Statement::If { ifcases, elsecase } => {
            let merge = lowering::new_block(Some(l));
            match lowering::begin_if(l) {
                Some((l1, fork)) => {
                    lemma_cases(l1, fork, merge, ifcases@);
                    match lowering::cases(l1, fork, merge, ifcases@) {
                        Some((l2, fork2)) => {
                            let l3 = lowering::begin_else(l2);
                            law_block_scope(l3, elsecase@);
                            match lowering::block(l3, elsecase@) {
                                Some(l4) => {
                                    lemma_if(l4, l4.code, fork2, merge, merge, merge);
                                    match lowering::end_if(l4, fork2, merge) {
                                        Some(l5) => {
                                            lemma_restores(l2, l3, l4, l5);
                                        },
                                        None => {},
                                    }
                                },
                                None => {},
                            }
                        },
                        None => {},
                    }
                },
                None => {},
            }
        },
        Statement::While { cond, block: body } => {
            let header_block = lowering::new_block(Some(l));
            let body_block = lowering::new_block(lowering::create_block(Some(l)));
            let exit_block = lowering::new_block(
                lowering::create_block(lowering::create_block(Some(l))),
            );
            lemma_while(l, l.code, header_block, body_block, exit_block);
            match lowering::begin_while(l) {
                Some(l1) => {
                    growth::lemma_expression(l1, cond);
                    match lowering::expression(l1, cond) {
                        Some((l2, v)) => {
                            lemma_while(l2, v, header_block, body_block, exit_block);
                            match lowering::test_while(
                                l2,
                                v,
                                header_block,
                                body_block,
                                exit_block,
                            ) {
                                Some(l3) => {
                                    law_block_scope(l3, body@);
                                    match lowering::block(l3, body@) {
                                        Some(l4) => {
                                            lemma_while(
                                                l4,
                                                v,
                                                header_block,
                                                body_block,
                                                exit_block,
                                            );
                                            match lowering::end_while(
                                                l4,
                                                header_block,
                                                body_block,
                                                exit_block,
                                            ) {
                                                Some(l5) => {
                                                    lemma_restores(l2, l3, l4, l5);
                                                },
                                                None => {},
                                            }
                                        },
                                        None => {},
                                    }
                                },
                                None => {},
                            }
                        },
                        None => {},
                    }
                },
                None => {},
            }
        },
        Statement::Repeat { block: body, cond } => {
            let body_block = lowering::new_block(Some(l));
            let exit_block = lowering::new_block(lowering::create_block(Some(l)));
            lemma_repeat(l, l.code, body_block, exit_block);
            match lowering::begin_repeat(l) {
                Some(l1) => {
                    law_block_scope(l1, body@);
                    match lowering::block(l1, body@) {
                        Some(l2) => {
                            growth::lemma_expression(l2, cond);
                            match lowering::expression(l2, cond) {
                                Some((l3, v)) => {
                                    assert(is_tidy(l2));
                                    lemma_same(l2, l3);
                                    lemma_then(l1, l2, l3);
                                    lemma_repeat(l3, v, body_block, exit_block);
                                    match lowering::end_repeat(l3, v, body_block, exit_block) {
                                        Some(l4) => {
                                            lemma_restores(l, l1, l3, l4);
                                        },
                                        None => {},
                                    }
                                },
                                None => {},
                            }
                        },
                        None => {},
                    }
                },
                None => {},
            }
        },
        Statement::Local { vars, exprs } => {
            growth::lemma_expressions(l, Seq::empty(), exprs@);
            match lowering::expressions(l, Seq::empty(), exprs@) {
                Some((l1, values)) => {
                    lemma_bind_locals(l1, vars@, values);
                    match lowering::bind_locals(l1, vars@, values) {
                        Some(l2) => {
                            if l.scopes.len() != 0 {
                                lemma_same(l, l1);
                                lemma_then(l, l1, l2);
                            }
                        },
                        None => {},
                    }
                },
                None => {},
            }
        },
        Statement::Assign { vars, exprs } => {
            growth::lemma_expressions(l, Seq::empty(), exprs@);
            match lowering::expressions(l, Seq::empty(), exprs@) {
                Some((l1, values)) => {
                    growth::lemma_assign_all(l1, vars@, values);
                },
                None => {},
            }
        },
        Statement::Return(exprs) => {
            if exprs@.len() != 0 {
                growth::lemma_expression(l, exprs@[0]);
            }
            let r = if exprs@.len() == 0 {
                lowering::constant(l, 0)
            } else {
                lowering::expression(l, exprs@[0])
            };
            match r {
                Some((l1, v)) => {
                    lemma_give_back(l1, v);
                },
                None => {},
            }
        },
        Statement::FunctCall(c) => {
            growth::lemma_call(l, c);
        },
        Statement::Do(body) => {
            let l1 = lowering::enter_scope(l);
            law_block_scope(l1, body@);
            match lowering::block(l1, body@) {
                Some(l2) => {
                    match lowering::exit_scope(Some(l2)) {
                        Some(l3) => {
                            lemma_restores(l, l1, l2, l3);
                        },
                        None => {},
                    }
                },
                None => {},
            }
        },
        Statement::Function { name, params, body } => {
            growth::lemma_function(l, params.names@, body@);
            match lowering::function(l, params.names@, body@) {
                Some(f) => {
                    let full_name = lowering::joined(name.qname@);
                    growth::lemma_install(l, f, full_name, params.names.len());
                    match lowering::install(l, f, full_name, params.names.len()) {
                        Some((l1, id)) => {
                            growth::lemma_publish(l1, id, full_name);
                        },
                        None => {},
                    }
                },
                None => {},
            }
        },
        _ => {},
    }
    if l.scopes.len() != 0 && !(stmt is Local) {
        match lowering::live_statement(l, stmt) {
            Some(l1) => {
                lemma_same(l, l1);
            },
            None => {},
        }
    }
}

// ---------------------------------------------------------------------------
// Sequences of scopes and declarations

/// What can be done to scopes.
pub enum ScopeCall {
    Enter,
    Declare(Seq<char>),
    Exit,
}

/// What a call leads to.
pub open spec fn scope_step(l: Lowering, call: ScopeCall) -> Option<Lowering> {
    match call {
        ScopeCall::Enter => Some(lowering::enter_scope(l)),
        ScopeCall::Declare(name) => lowering::declare_local(l, name),
        ScopeCall::Exit => lowering::exit_scope(Some(l)),
    }
}

/// What calls lead to, one after the other.
pub open spec fn scope_steps(l: Lowering, calls: Seq<ScopeCall>) -> Option<Lowering>
    decreases calls.len(),
{
    if calls.len() == 0 {
        Some(l)
    } else {
        match scope_steps(l, calls.drop_last()) {
            Some(l1) => scope_step(l1, calls.last()),
            None => None,
        }
    }
}

/// How many names are declared.
pub open spec fn declarations(calls: Seq<ScopeCall>) -> nat
    decreases calls.len(),
{
    if calls.len() == 0 {
        0
    } else {
        declarations(calls.drop_last()) + if calls.last() is Declare {
            1nat
        } else {
            0nat
        }
    }
}

/// How many more scopes are opened than closed.
pub open spec fn depth(calls: Seq<ScopeCall>) -> int
    decreases calls.len(),
{
    if calls.len() == 0 {
        0
    } else {
        depth(calls.drop_last()) + match calls.last() {
            ScopeCall::Enter => 1int,
            ScopeCall::Declare(_) => 0int,
            ScopeCall::Exit => -1int,
        }
    }
}

/// Whether no scope is closed that was not opened.
pub open spec fn is_nested(calls: Seq<ScopeCall>) -> bool
    decreases calls.len(),
{
    calls.len() == 0 || (is_nested(calls.drop_last()) && depth(calls) >= 0)
}

/// The names in all the scopes.
pub open spec fn all_names(scopes: Seq<Seq<Seq<char>>>) -> Seq<Seq<char>>
    decreases scopes.len(),
{
    if scopes.len() == 0 {
        Seq::empty()
    } else {
        all_names(scopes.drop_last()) + scopes.last()
    }
}

/// Whether each name stands for as many variables as it has declarations in the
/// open scopes.
pub open spec fn is_counted(l: Lowering) -> bool {
    &&& is_tidy(l)
    &&& forall|n: Seq<char>| #[trigger]
        stack_of(l.locals, n).len() == times(all_names(l.scopes), n)
}

/// Opening a scope adds no name; a declaration adds its name.
proof fn lemma_names(scopes: Seq<Seq<Seq<char>>>, name: Seq<char>)
    ensures
        all_names(scopes.push(Seq::empty())) == all_names(scopes),
        scopes.len() != 0 ==> all_names(
            scopes.update(scopes.len() - 1, scopes.last().push(name)),
        ) == all_names(scopes).push(name),
        all_names(seq![seq![name]]) == seq![name],
        forall|names: Seq<Seq<char>>, n: Seq<char>| #[trigger]
            times(names.push(name), n) == times(names, n) + if n == name {
                1int
            } else {
                0int
            },
{
    assert(scopes.push(Seq::empty()).drop_last() =~= scopes);
    assert(all_names(scopes) + Seq::empty() =~= all_names(scopes));
    if scopes.len() != 0 {
        let longer = scopes.update(scopes.len() - 1, scopes.last().push(name));
        assert(longer.drop_last() =~= scopes.drop_last());
        assert(all_names(scopes.drop_last()) + scopes.last().push(name) =~= (all_names(
            scopes.drop_last(),
        ) + scopes.last()).push(name));
    }
    assert(seq![seq![name]].drop_last() =~= Seq::empty());
    assert(all_names(Seq::empty()) + seq![name] =~= seq![name]);
    assert forall|names: Seq<Seq<char>>, n: Seq<char>| #[trigger]
        times(names.push(name), n) == times(names, n) + if n == name {
            1int
        } else {
            0int
        } by {
        assert(names.push(name).drop_last() =~= names);
    }
}

proof fn lemma_counted(l: Lowering, call: ScopeCall)
    requires
        is_counted(l),
    ensures
        scope_step(l, call) matches Some(l1) ==> is_counted(l1),
{
    match scope_step(l, call) {
        Some(l1) => {
            match call {
                ScopeCall::Enter => {
                    lemma_names(l.scopes, Seq::empty());
                },
                ScopeCall::Declare(name) => {
                    lemma_names(l.scopes, name);
                    assert forall|n: Seq<char>| #[trigger]
                        stack_of(l1.locals, n).len() == times(all_names(l1.scopes), n) by {
                        assert(stack_of(l.locals, n).len() == times(all_names(l.scopes), n));
                        if l.scopes.len() == 0 {
                            assert(all_names(l1.scopes) =~= all_names(l.scopes).push(name));
                        }
                    }
                },
                ScopeCall::Exit => {
                    if l.scopes.len() != 0 {
                        let names = l.scopes.last();
                        assert forall|n: Seq<char>| #[trigger]
                            stack_of(l1.locals, n).len() == times(all_names(l1.scopes), n) by {
                            lemma_times_add(all_names(l1.scopes), names, n);
                            lemma_times_positive(all_names(l1.scopes), n);
                            lemma_times_positive(names, n);
                            assert(stack_of(l.locals, n).len() == times(all_names(l.scopes), n));
                        }
                        assert forall|n: Seq<char>| #[trigger]
                            l1.locals.contains_key(n) implies l1.locals[n].len() != 0 by {
                            lemma_times_positive(names, n);
                        }
                    }
                },
            }
        },
        None => {},
    }
}

/// From nothing, whatever scopes are opened and closed and names declared, a name
/// stands for as many variables as it has declarations in the open scopes, and no
/// name stands for none. To close a scope where none is open changes nothing.
pub proof fn law_stack_lengths(l: Lowering, calls: Seq<ScopeCall>)
    requires
        l.locals == Map::<Seq<char>, Seq<Variable>>::empty(),
        l.scopes == Seq::<Seq<Seq<char>>>::empty(),
    ensures
        scope_steps(l, calls) matches Some(l1) ==> is_counted(l1) && (l1.scopes.len() == 0
            ==> lowering::exit_scope(Some(l1)) == Some(l1)),
    decreases calls.len(),
{
    if calls.len() != 0 {
        law_stack_lengths(l, calls.drop_last());
        match scope_steps(l, calls.drop_last()) {
            Some(l1) => {
                lemma_counted(l1, calls.last());
            },
            None => {},
        }
    }
}

/// Whether `l1` came from `l` by opening a scope and then `d` more, and by
/// declarations in these.
spec fn is_above(l: Lowering, l1: Lowering, d: int) -> bool {
    &&& is_tidy(l1)
    &&& d >= 0
    &&& l1.scopes.len() == l.scopes.len() + 1 + d
    &&& l1.scopes.take(l.scopes.len() as int) == l.scopes
    &&& extends(l.locals, l1.locals, all_names(l1.scopes.skip(l.scopes.len() as int)))
}

proof fn lemma_above(l: Lowering, l1: Lowering, d: int, call: ScopeCall)
    requires
        is_above(l, l1, d),
        call is Exit ==> d >= 1,
    ensures
        scope_step(l1, call) matches Some(l2) ==> is_above(
            l,
            l2,
            d + match call {
                ScopeCall::Enter => 1int,
                ScopeCall::Declare(_) => 0int,
                ScopeCall::Exit => -1int,
            },
        ),
{
    let base = l.scopes.len() as int;
    match scope_step(l1, call) {
        Some(l2) => {
            let upper = l1.scopes.skip(base);
            assert(l2.scopes.take(base) =~= l.scopes) by {
                assert(l1.scopes.take(base) =~= l.scopes);
                assert forall|i: int| 0 <= i < base implies l2.scopes[i] == l.scopes[i] by {
                    assert(l1.scopes.take(base)[i] == l1.scopes[i]);
                }
            }
            match call {
                ScopeCall::Enter => {
                    lemma_names(upper, Seq::empty());
                    assert(l2.scopes.skip(base) =~= upper.push(Seq::empty()));
                },
                ScopeCall::Declare(name) => {
                    lemma_names(upper, name);
                    assert(l2.scopes.skip(base) =~= upper.update(
                        upper.len() - 1,
                        upper.last().push(name),
                    ));
                    let names = all_names(l2.scopes.skip(base));
                    assert forall|n: Seq<char>| #[trigger]
                        stack_of(l2.locals, n).len() == stack_of(l.locals, n).len() + times(
                            names,
                            n,
                        ) && stack_of(l.locals, n) == stack_of(l2.locals, n).take(
                            stack_of(l.locals, n).len() as int,
                        ) by {
                        assert(stack_of(l1.locals, n).len() == stack_of(l.locals, n).len() + times(
                            all_names(upper),
                            n,
                        ));
                        lemma_times_positive(all_names(upper), n);
                        assert(stack_of(l.locals, n) =~= stack_of(l2.locals, n).take(
                            stack_of(l.locals, n).len() as int,
                        ));
                    }
                },
                ScopeCall::Exit => {
                    let lower = l2.scopes.skip(base);
                    let names = l1.scopes.last();
                    assert(lower =~= upper.drop_last());
                    assert(upper.last() == names);
                    assert forall|n: Seq<char>| #[trigger]
                        stack_of(l2.locals, n).len() == stack_of(l.locals, n).len() + times(
                            all_names(lower),
                            n,
                        ) && stack_of(l.locals, n) == stack_of(l2.locals, n).take(
                            stack_of(l.locals, n).len() as int,
                        ) by {
                        lemma_times_add(all_names(lower), names, n);
                        lemma_times_positive(all_names(lower), n);
                        lemma_times_positive(names, n);
                        assert(stack_of(l1.locals, n).len() == stack_of(l.locals, n).len() + times(
                            all_names(upper),
                            n,
                        ));
                        assert(stack_of(l.locals, n) =~= stack_of(l2.locals, n).take(
                            stack_of(l.locals, n).len() as int,
                        ));
                    }
                    assert forall|n: Seq<char>| #[trigger]
                        l2.locals.contains_key(n) implies l2.locals[n].len() != 0 by {
                        lemma_times_positive(names, n);
                    }
                },
            }
        },
        None => {},
    }
}

proof fn lemma_all_above(l: Lowering, calls: Seq<ScopeCall>)
    requires
        is_tidy(l),
        is_nested(calls),
    ensures
        scope_steps(lowering::enter_scope(l), calls) matches Some(l1) ==> is_above(
            l,
            l1,
            depth(calls),
        ) && l1.next_var == l.next_var + declarations(calls),
    decreases calls.len(),
{
    let l0 = lowering::enter_scope(l);
    if calls.len() == 0 {
        let base = l.scopes.len() as int;
        assert(l0.scopes.take(base) =~= l.scopes);
        assert(l0.scopes.skip(base) =~= seq![Seq::empty()]);
        assert(seq![Seq::<Seq<char>>::empty()].drop_last() =~= Seq::empty());
        reveal_with_fuel(all_names, 2);
        assert(all_names(l0.scopes.skip(base)) =~= Seq::empty());
        assert forall|n: Seq<char>| #[trigger]
            stack_of(l0.locals, n).len() == stack_of(l.locals, n).len() + times(
                Seq::empty(),
                n,
            ) && stack_of(l.locals, n) == stack_of(l0.locals, n).take(
                stack_of(l.locals, n).len() as int,
            ) by {
            assert(stack_of(l.locals, n) =~= stack_of(l0.locals, n).take(
                stack_of(l.locals, n).len() as int,
            ));
        }
    } else {
        lemma_all_above(l, calls.drop_last());
        match scope_steps(l0, calls.drop_last()) {
            Some(l1) => {
                lemma_above(l, l1, depth(calls.drop_last()), calls.last());
            },
            None => {},
        }
    }
}

/// When a scope is closed, after any declarations in it and any scopes that were
/// opened and closed in it, locals and scopes are what they were when it was
/// opened. Variables are not given back: each declaration has used up one.
pub proof fn law_balanced_scopes(l: Lowering, calls: Seq<ScopeCall>)
    requires
        is_tidy(l),
        is_nested(calls),
        depth(calls) == 0,
    ensures
        scope_steps(lowering::enter_scope(l), calls) matches Some(l1)
            ==> lowering::exit_scope(Some(l1)) matches Some(l2) && same_scope(l, l2) && l2.next_var
            == l.next_var + declarations(calls),
{
    lemma_all_above(l, calls);
    let l0 = lowering::enter_scope(l);
    match scope_steps(l0, calls) {
        Some(l1) => {
            let base = l.scopes.len() as int;
            let names = l1.scopes.last();
            let upper = l1.scopes.skip(base);
            assert(upper =~= seq![names]);
            assert(upper.drop_last() =~= Seq::empty());
            assert(all_names(Seq::empty()) + names =~= names);
            assert(all_names(upper) == names);
            assert(l1.scopes.drop_last() =~= l1.scopes.take(base));
            assert(l0.scopes.drop_last() =~= l.scopes);
            assert(l1.scopes.last() =~= l0.scopes.last() + names);
            assert(declares(l0, l1, names));
            let l2 = lowering::exit_scope(Some(l1))->0;
            lemma_restores(l, l0, l1, l2);
        },
        None => {},
    }
}

} // verus!
