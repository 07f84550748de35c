//! What the code of programs does.
use vstd::prelude::*;

use crate::ast::{Expression, Statement};
use crate::branching;
use crate::branching::is_away;
use crate::execution::{
    fits_in, is_on, is_ready, is_titled, lemma_fits_in, lemma_idle, lemma_position, lemma_quiet,
    lemma_titled, seen, tracks,
};
use crate::flow;
use crate::flow::{is_settled, waits};
use crate::growth;
use crate::ir;
use crate::ir::{Block, Origin, Request, Variable};
use crate::lowering;
use crate::lowering::{Fork, Lowering};
use crate::machine::run;
use crate::meaning;
use crate::meaning::{branches, executes, executes_all, finish, Setting, Store};
use crate::paths;
use crate::results::law_expression;
use crate::scoping;
use crate::sequel;
use crate::sequel::lemma_start;
use crate::statements;
use crate::statements::{
    are_plain, are_plain_cases, comes_to, is_gone, is_plain, lemma_block_waits,
    lemma_expression_waits, Passage,
};
use crate::values::lemma_ready;

verus! {

/// A scope is opened, or a branch begins; control stays where it is.
proof fn lemma_entered(
    c: Setting,
    l: Lowering,
    l1: Lowering,
    bs: Seq<(Seq<char>, Variable)>,
)
    requires
        is_ready(c, l, bs),
        l1.code == l.code,
        l1.word == l.word,
        l1.locals == l.locals,
        l1.next_var >= l.next_var,
        l1.globals == l.globals,
        l1.strings == l.strings,
        l1.module == l.module,
    ensures
        is_ready(c, l1, bs),
{
    reveal(tracks);
    reveal(is_titled);
}

/// What was returned stays returned.
proof fn lemma_stays_gone(c: Setting, l: Lowering, stmts: Seq<Statement>, s: Store, v: int)
    requires
        is_gone(c, l, s, v),
    ensures
        lowering::block(l, stmts) matches Some(l1) ==> is_gone(c, l1, s, v),
{
    let n = ir::block_count(l.code);
    lemma_start(l.code, n);
    paths::lemma_block(l.code, n, l, stmts);
    growth::lemma_block(l, stmts);
    match lowering::block(l, stmts) {
        Some(l1) => {
            lemma_idle(c.world, l.code, n, l1.code);
            ir::lemma_created(l.code, l1.code);
        },
        None => {},
    }
}

/// The code of statements does what they say, one after the other.
pub proof fn law_block(
    c: Setting,
    l: Lowering,
    stmts: Seq<Statement>,
    bs: Seq<(Seq<char>, Variable)>,
    last: bool,
) -> (r: Passage)
    requires
        is_ready(c, l, bs),
        is_settled(l.cursor()),
        !l.terminated,
        are_plain(stmts, last),
        lowering::block(l, stmts) matches Some(l1) ==> fits_in(l1, c),
    ensures
        lowering::block(l, stmts) matches Some(l1) ==> comes_to(c, l1, bs, r, !last)
            && executes_all(c, stmts, seen(run(c.world, l.code), bs), r.store, r.end),
    decreases stmts, 0nat,
{
    let s = seen(run(c.world, l.code), bs);
    let nothing = Passage { variables: bs, store: s, end: None };
    assert(bs =~= bs.subrange(0, bs.len() as int));
    if stmts.len() == 0 {
        meaning::lemma_executes_none(c, stmts, s);
        nothing
    } else {
        let rest = stmts.skip(1);
        match lowering::block(l, stmts) {
            Some(l2) => {
                assert(ir::position(l.code) is Some && !ir::unreachable(l.code)) by {
                    reveal(is_on);
                }
                let l1 = lowering::statement(l, stmts[0])->0;
                assert(lowering::block(l1, rest) == Some(l2));
                growth::lemma_statement(l, stmts[0]);
                growth::lemma_block(l1, rest);
                lemma_fits_in(l1, l2, c);
                let alone = last && stmts.len() == 1;
                let r1 = law_statement(c, l, stmts[0], bs, alone);
                let m1 = run(c.world, l1.code);
                match r1.end {
                    Some(v) => {
                        lemma_stays_gone(c, l1, rest, r1.store, v);
                        meaning::lemma_executes_first(
                            c,
                            stmts,
                            s,
                            r1.store,
                            r1.end,
                            r1.store,
                            r1.end,
                        );
                        r1
                    },
                    None => {
                        if stmts.len() == 1 {
                            assert(rest.len() == 0);
                            assert(l2 == l1);
                            meaning::lemma_executes_none(c, rest, r1.store);
                            meaning::lemma_executes_first(
                                c,
                                stmts,
                                s,
                                r1.store,
                                None,
                                r1.store,
                                None,
                            );
                            r1
                        } else {
                            let r2 = law_block(c, l1, rest, r1.variables, last);
                            meaning::lemma_executes_first(
                                c,
                                stmts,
                                s,
                                r1.store,
                                None,
                                r2.store,
                                r2.end,
                            );
                            if r2.end is None {
                                lemma_prefixes(bs, r1.variables, r2.variables);
                            }
                            r2
                        }
                    },
                }
            },
            None => nothing,
        }
    }
}

pub proof fn lemma_prefixes(
    a: Seq<(Seq<char>, Variable)>,
    b: Seq<(Seq<char>, Variable)>,
    d: Seq<(Seq<char>, Variable)>,
)
    requires
        a.is_prefix_of(b),
        b.is_prefix_of(d),
    ensures
        a.is_prefix_of(d),
{
    assert forall|i: int| 0 <= i < a.len() implies a[i] == d[i] by {
        assert(a[i] == b.subrange(0, a.len() as int)[i]);
        assert(b[i] == d.subrange(0, b.len() as int)[i]);
    }
    assert(a =~= d.subrange(0, a.len() as int));
}

/// The code of a statement does what it says.
pub proof fn law_statement(
    c: Setting,
    l: Lowering,
    stmt: Statement,
    bs: Seq<(Seq<char>, Variable)>,
    last: bool,
) -> (r: Passage)
    requires
        is_ready(c, l, bs),
        is_settled(l.cursor()),
        !l.terminated,
        is_plain(stmt, last),
        lowering::statement(l, stmt) matches Some(l1) ==> fits_in(l1, c),
    ensures
        lowering::statement(l, stmt) matches Some(l1) ==> comes_to(c, l1, bs, r, !last)
            && executes(c, stmt, seen(run(c.world, l.code), bs), r.store, r.end),
    decreases stmt, 2nat,
{
    flow::lemma_fresh_block(c, l, bs);
    match lowering::fresh_block(l) {
        Some(l1) => {
            assert(lowering::statement(l, stmt) == lowering::live_statement(l1, stmt));
            match stmt {
                Statement::Local { .. } => statements::lemma_local(c, l1, stmt, bs, last),
                Statement::Assign { .. } => statements::lemma_assign(c, l1, stmt, bs, last),
                Statement::FunctCall(_) => statements::lemma_call(c, l1, stmt, bs, last),
                Statement::Return(_) => statements::lemma_return(c, l1, stmt, bs),
                Statement::Function { .. } => statements::lemma_function(c, l1, stmt, bs),
                Statement::Do(_) => lemma_do(c, l1, stmt, bs, last),
                Statement::If { .. } => lemma_if(c, l1, stmt, bs),
                _ => Passage { variables: bs, store: seen(run(c.world, l.code), bs), end: None },
            }
        },
        None => Passage { variables: bs, store: seen(run(c.world, l.code), bs), end: None },
    }
}

pub proof fn lemma_tidy(l: Lowering, bs: Seq<(Seq<char>, Variable)>)
    requires
        tracks(l, bs),
    ensures
        scoping::is_tidy(l),
{
    reveal(tracks);
}

proof fn lemma_do(
    c: Setting,
    l: Lowering,
    stmt: Statement,
    bs: Seq<(Seq<char>, Variable)>,
    last: bool,
) -> (r: Passage)
    requires
        is_ready(c, l, bs),
        is_settled(l.cursor()),
        !l.terminated,
        stmt is Do,
        is_plain(stmt, last),
        lowering::live_statement(l, stmt) matches Some(l1) ==> fits_in(l1, c),
    ensures
        lowering::live_statement(l, stmt) matches Some(l1) ==> comes_to(c, l1, bs, r, !last)
            && executes(c, stmt, seen(run(c.world, l.code), bs), r.store, r.end),
    decreases stmt, 1nat,
{
    let s = seen(run(c.world, l.code), bs);
    let nothing = Passage { variables: bs, store: s, end: None };
    match lowering::live_statement(l, stmt) {
        Some(l3) => {
            match stmt {
                Statement::Do(body) => {
                    let l1 = lowering::enter_scope(l);
                    let l2 = lowering::block(l1, body@)->0;
                    assert(lowering::exit_scope(Some(l2)) == Some(l3));
                    lemma_entered(c, l, l1, bs);
                    assert(l1.cursor() == l.cursor());
                    growth::lemma_block(l1, body@);
                    let r = law_block(c, l1, body@, bs, last);
                    lemma_tidy(l, bs);
                    scoping::lemma_live_statement(l, stmt);
                    assert(l3.cursor() == l2.cursor());
                    meaning::lemma_do(c, stmt, s, r.store, r.end);
                    let s3 = r.store.keep(s.locals.len());
                    if r.end is None {
                        let m2 = run(c.world, l2.code);
                        assert(s3.locals =~= seen(m2, bs).locals) by {
                            assert forall|i: int| 0 <= i < bs.len() implies bs[i]
                                == r.variables[i] by {
                                assert(bs[i] == r.variables.subrange(0, bs.len() as int)[i]);
                            }
                        }
                        lemma_left(c, l, l2, l3, bs, r.variables);
                    }
                    assert(bs =~= bs.subrange(0, bs.len() as int));
                    Passage { variables: bs, store: s3, end: r.end }
                },
                _ => nothing,
            }
        },
        None => nothing,
    }
}

/// A scope is closed; control stays where it is.
proof fn lemma_left(
    c: Setting,
    l: Lowering,
    l2: Lowering,
    l3: Lowering,
    bs: Seq<(Seq<char>, Variable)>,
    bs2: Seq<(Seq<char>, Variable)>,
)
    requires
        is_ready(c, l, bs),
        is_ready(c, l2, bs2),
        l3.code == l2.code,
        l3.word == l2.word,
        l3.locals == l.locals,
        l3.next_var == l2.next_var,
        l2.next_var >= l.next_var,
        l3.globals == l2.globals,
        l3.strings == l2.strings,
        l3.module == l2.module,
    ensures
        is_ready(c, l3, bs),
{
    reveal(tracks);
    reveal(is_titled);
}

/// What became of the branches with a condition.
pub struct Fate {
    pub store: Store,
    pub taken: bool,
    pub end: Option<int>,
}

/// Whether control is where the branches with a condition lead it.
pub open spec fn leads_to(
    c: Setting,
    l: Lowering,
    fork: Fork,
    merge: Block,
    bs: Seq<(Seq<char>, Variable)>,
    f: Fate,
) -> bool {
    let m = run(c.world, l.code);
    &&& waits(l.cursor(), merge)
    &&& fork.test != merge
    &&& forall|x: u32| #[trigger] l.manager.sealed.contains(x) ==> x < ir::block_count(l.code)
    &&& l.manager.current matches Some(b) ==> ir::created(l.code, b)
    &&& ir::created(l.code, c.world.entry)
    &&& if f.taken {
        match f.end {
            Some(v) => is_gone(c, l, f.store, v),
            None => {
                &&& m.at == Some(merge)
                &&& m.memory == f.store.memory
                &&& m.result is None
                &&& fork.joined
                &&& ir::has_predecessor(l.code, merge)
            },
        }
    } else {
        &&& is_ready(c, l, bs)
        &&& is_settled(l.cursor())
        &&& l.manager.current == Some(fork.test)
        &&& f.store == seen(m, bs)
        &&& f.end is None
    }
}

/// Branches that control has passed are passed by.
proof fn lemma_cases_away(
    c: Setting,
    l: Lowering,
    fork: Fork,
    merge: Block,
    ifcases: Seq<(Expression, Vec<Statement>)>,
    bs: Seq<(Seq<char>, Variable)>,
    f: Fate,
)
    requires
        f.taken,
        leads_to(c, l, fork, merge, bs, f),
        l.manager.current == Some(fork.test),
        ir::created(l.code, fork.test),
    ensures
        lowering::cases(l, fork, merge, ifcases) matches Some((l1, fork1)) ==> leads_to(
            c,
            l1,
            fork1,
            merge,
            bs,
            f,
        ),
    decreases ifcases.len(),
{
    if ifcases.len() != 0 {
        match lowering::cases(l, fork, merge, ifcases) {
            Some((l5, fork5)) => {
                let w = c.world;
                let (l1, v) = lowering::expression(l, ifcases[0].0)->0;
                let then_block = lowering::new_block(Some(l1));
                let else_block = lowering::new_block(lowering::create_block(Some(l1)));
                let l2 = lowering::begin_case(l1, v, fork.test)->0;
                let l3 = lowering::block(l2, ifcases[0].1@)->0;
                let (l4, fork4) = lowering::end_case(l3, fork, then_block, else_block, merge)->0;
                assert(lowering::cases(l4, fork4, merge, ifcases.skip(1)) == Some((l5, fork5)));
                lemma_pass_case(c, l, fork, merge, ifcases[0].0, ifcases[0].1@);
                lemma_cases_away(c, l4, fork4, merge, ifcases.skip(1), bs, f);
            },
            None => {},
        }
    }
}

/// A branch that control is not in is passed by.
proof fn lemma_pass_case(
    c: Setting,
    l: Lowering,
    fork: Fork,
    merge: Block,
    cond: Expression,
    body: Seq<Statement>,
)
    requires
        waits(l.cursor(), merge),
        fork.test != merge,
        forall|x: u32| #[trigger] l.manager.sealed.contains(x) ==> x < ir::block_count(l.code),
        l.manager.current == Some(fork.test),
        ir::created(l.code, fork.test),
        ir::created(l.code, c.world.entry),
        run(c.world, l.code).at matches Some(b) ==> b == merge,
    ensures
        lowering::expression(l, cond) matches Some((l1, v)) ==> (lowering::begin_case(
            l1,
            v,
            fork.test,
        ) matches Some(l2) ==> (lowering::block(l2, body) matches Some(l3) ==> (lowering::end_case(
            l3,
            fork,
            lowering::new_block(Some(l1)),
            lowering::new_block(lowering::create_block(Some(l1))),
            merge,
        ) matches Some((l4, fork4)) ==> {
            &&& run(c.world, l4.code) == run(c.world, l.code)
            &&& waits(l4.cursor(), merge)
            &&& fork4.test != merge
            &&& l4.manager.current == Some(fork4.test)
            &&& ir::created(l4.code, fork4.test)
            &&& ir::created(l4.code, c.world.entry)
            &&& ir::is_orderly(l4.code)
            &&& forall|x: u32| #[trigger]
                l4.manager.sealed.contains(x) ==> x < ir::block_count(l4.code)
            &&& fork.joined ==> fork4.joined
            &&& ir::has_predecessor(l.code, merge) ==> ir::has_predecessor(l4.code, merge)
        }))),
{
    match lowering::expression(l, cond) {
        Some((l1, v)) => {
            match lowering::begin_case(l1, v, fork.test) {
                Some(l2) => {
                    match lowering::block(l2, body) {
                        Some(l3) => {
                            let then_block = lowering::new_block(Some(l1));
                            let else_block = lowering::new_block(
                                lowering::create_block(Some(l1)),
                            );
                            match lowering::end_case(l3, fork, then_block, else_block, merge) {
                                Some((l4, fork4)) => {
                                    let w = c.world;
                                    let n = ir::block_count(l.code);
                                    assert(ir::is_orderly(l.code) && ir::created(l.code, merge)
                                        && ir::position(l.code) != Some(merge)) by {
                                        reveal(waits);
                                    }
                                    lemma_expression_waits(l, cond, merge);
                                    growth::lemma_expression(l, cond);
                                    growth::lemma_begin_case(l1, v, fork.test);
                                    growth::lemma_end_case(l3, fork, then_block, else_block, merge);
                                    ir::lemma_created(l.code, l1.code);
                                    ir::lemma_created(l1.code, l2.code);
                                    ir::lemma_created(l3.code, l4.code);
                                    lemma_start(l.code, n);
                                    paths::lemma_expression(l.code, n, l, cond);
                                    paths::lemma_begin_case(l.code, n, l1, v, fork.test);
                                    lemma_idle(w, l.code, n, l1.code);
                                    lemma_idle(w, l.code, n, l2.code);
                                    branching::lemma_begun(c, l1, v, fork.test, merge);
                                    lemma_block_waits(l2, body);
                                    let n2 = ir::block_count(l2.code);
                                    assert(ir::created(l2.code, merge) && ir::position(l2.code)
                                        != Some(merge)) by {
                                        reveal(waits);
                                    }
                                    lemma_idle(w, l2.code, n2, l3.code);
                                    assert(waits(l3.cursor(), merge));
                                    assert(waits(l3.cursor(), else_block));
                                    lemma_position(l.code, n, l2.code);
                                    lemma_position(l2.code, n2, l3.code);
                                    assert(is_away(w, l3.code)) by {
                                        reveal(waits);
                                    }
                                    branching::lemma_end_case(
                                        c,
                                        l3,
                                        fork,
                                        then_block,
                                        else_block,
                                        merge,
                                    );
                                    assert(ir::created(l4.code, else_block)) by {
                                        reveal(waits);
                                    }
                                    reveal(is_settled);
                                },
                                None => {},
                            }
                        },
                        None => {},
                    }
                },
                None => {},
            }
        },
        None => {},
    }
}

/// The first branch whose condition is true is taken, or control gets to the end.
proof fn lemma_cases(
    c: Setting,
    l: Lowering,
    fork: Fork,
    merge: Block,
    ifcases: Seq<(Expression, Vec<Statement>)>,
    bs: Seq<(Seq<char>, Variable)>,
) -> (f: Fate)
    requires
        leads_to(
            c,
            l,
            fork,
            merge,
            bs,
            Fate { store: seen(run(c.world, l.code), bs), taken: false, end: None },
        ),
        are_plain_cases(ifcases),
        lowering::cases(l, fork, merge, ifcases) matches Some((l1, _)) ==> fits_in(l1, c),
    ensures
        lowering::cases(l, fork, merge, ifcases) matches Some((l1, fork1)) ==> leads_to(
            c,
            l1,
            fork1,
            merge,
            bs,
            f,
        ) && branches(c, ifcases, seen(run(c.world, l.code), bs), f.store, f.taken, f.end),
    decreases ifcases, 0nat,
{
    let s = seen(run(c.world, l.code), bs);
    let nothing = Fate { store: s, taken: false, end: None };
    if ifcases.len() == 0 {
        meaning::lemma_branches_none(c, ifcases, s);
        nothing
    } else {
        match lowering::cases(l, fork, merge, ifcases) {
            Some((l5, fork5)) => {
                let rest = ifcases.skip(1);
                let (l1, v) = lowering::expression(l, ifcases[0].0)->0;
                let then_block = lowering::new_block(Some(l1));
                let else_block = lowering::new_block(lowering::create_block(Some(l1)));
                let l2 = lowering::begin_case(l1, v, fork.test)->0;
                let l3 = lowering::block(l2, ifcases[0].1@)->0;
                let (l4, fork4) = lowering::end_case(l3, fork, then_block, else_block, merge)->0;
                assert(lowering::cases(l4, fork4, merge, rest) == Some((l5, fork5)));
                growth::lemma_expression(l, ifcases[0].0);
                growth::lemma_begin_case(l1, v, fork.test);
                growth::lemma_block(l2, ifcases[0].1@);
                growth::lemma_end_case(l3, fork, then_block, else_block, merge);
                growth::lemma_cases(l4, fork4, merge, rest);
                lemma_fits_in(l4, l5, c);
                lemma_fits_in(l3, l4, c);
                lemma_fits_in(l2, l3, c);
                lemma_fits_in(l1, l2, c);
                law_expression(c, l, ifcases[0].0, bs);
                lemma_ready(c, l, l1, v, bs);
                lemma_expression_waits(l, ifcases[0].0, merge);
                ir::lemma_created(l.code, l1.code);
                let m1 = run(c.world, l1.code);
                branching::lemma_begun(c, l1, v, fork.test, merge);
                branching::lemma_begin_case(c, l1, v, fork.test, merge, bs);
                lemma_block_waits(l2, ifcases[0].1@);
                lemma_position(l2.code, ir::block_count(l2.code), l3.code);
                if m1.values[v] != 0 {
                    let r = law_block(c, l2, ifcases[0].1@, bs, false);
                    let f = Fate { store: r.store.keep(s.locals.len()), taken: true, end: r.end };
                    assert(seen(run(c.world, l2.code), bs).locals =~= seen(m1, bs).locals);
                    meaning::lemma_branches_taken(
                        c,
                        ifcases,
                        s,
                        seen(m1, bs),
                        m1.values[v],
                        r.store,
                        r.end,
                    );
                    lemma_taken(c, l3, fork, then_block, else_block, merge, bs, r);
                    lemma_cases_away(c, l4, fork4, merge, rest, bs, f);
                    f
                } else {
                    lemma_not_taken(c, l1, v, fork, merge, ifcases[0].1@, bs);
                    let f = lemma_cases(c, l4, fork4, merge, rest, bs);
                    meaning::lemma_branches_next(
                        c,
                        ifcases,
                        s,
                        seen(m1, bs),
                        f.store,
                        f.taken,
                        f.end,
                    );
                    f
                }
            },
            None => nothing,
        }
    }
}

/// The branch that was taken has come to its end.
proof fn lemma_taken(
    c: Setting,
    l: Lowering,
    fork: Fork,
    then_block: Block,
    else_block: Block,
    merge: Block,
    bs: Seq<(Seq<char>, Variable)>,
    r: Passage,
)
    requires
        comes_to(c, l, bs, r, true),
        waits(l.cursor(), merge),
        waits(l.cursor(), else_block),
        then_block != merge,
        else_block != merge,
        then_block != else_block,
        ir::has_predecessor(l.code, else_block),
        ir::created(l.code, then_block),
        ir::created(l.code, c.world.entry),
        forall|x: u32| #[trigger] l.manager.sealed.contains(x) ==> x < ir::block_count(l.code),
        l.manager.current matches Some(b) ==> ir::created(l.code, b),
    ensures
        lowering::end_case(l, fork, then_block, else_block, merge) matches Some((l1, fork1)) ==> {
            &&& leads_to(
                c,
                l1,
                fork1,
                merge,
                bs,
                Fate { store: r.store.keep(bs.len()), taken: true, end: r.end },
            )
            &&& l1.manager.current == Some(fork1.test)
            &&& ir::created(l1.code, fork1.test)
        },
{
    match lowering::end_case(l, fork, then_block, else_block, merge) {
        Some((l1, fork1)) => {
            branching::lemma_end_case(c, l, fork, then_block, else_block, merge);
            growth::lemma_end_case(l, fork, then_block, else_block, merge);
            ir::lemma_created(l.code, l1.code);
            assert(ir::created(l.code, else_block) && ir::position(l.code) is Some
                && ir::is_orderly(l.code)) by {
                reveal(waits);
            }
            reveal(is_settled);
        },
        None => {},
    }
}

/// A branch that is not taken is passed by, and control is in the next one.
proof fn lemma_not_taken(
    c: Setting,
    l: Lowering,
    v: Origin,
    fork: Fork,
    merge: Block,
    body: Seq<Statement>,
    bs: Seq<(Seq<char>, Variable)>,
)
    requires
        is_ready(c, l, bs),
        run(c.world, l.code).values[v] == 0,
        waits(l.cursor(), merge),
        l.manager.current == Some(fork.test),
        ir::created(l.code, fork.test),
        forall|x: u32| #[trigger] l.manager.sealed.contains(x) ==> x < ir::block_count(l.code),
    ensures
        lowering::begin_case(l, v, fork.test) matches Some(l1) ==> (lowering::block(
            l1,
            body,
        ) matches Some(l2) ==> (lowering::end_case(
            l2,
            fork,
            lowering::new_block(Some(l)),
            lowering::new_block(lowering::create_block(Some(l))),
            merge,
        ) matches Some((l3, fork3)) ==> {
            let s = seen(run(c.world, l.code), bs);
            &&& seen(run(c.world, l3.code), bs) == s
            &&& leads_to(c, l3, fork3, merge, bs, Fate { store: s, taken: false, end: None })
        })),
{
    match lowering::begin_case(l, v, fork.test) {
        Some(l1) => {
            match lowering::block(l1, body) {
                Some(l2) => {
                    let then_block = lowering::new_block(Some(l));
                    let else_block = lowering::new_block(lowering::create_block(Some(l)));
                    match lowering::end_case(l2, fork, then_block, else_block, merge) {
                        Some((l3, fork3)) => {
                            let w = c.world;
                            let n = ir::block_count(l1.code);
                            growth::lemma_begin_case(l, v, fork.test);
                            growth::lemma_block(l1, body);
                            growth::lemma_end_case(l2, fork, then_block, else_block, merge);
                            growth::lemma_advances(l, l1, l2);
                            growth::lemma_advances(l, l2, l3);
                            ir::lemma_created(l.code, l3.code);
                            ir::lemma_created(l1.code, l2.code);
                            branching::lemma_begun(c, l, v, fork.test, merge);
                            lemma_block_waits(l1, body);
                            assert(ir::created(l1.code, else_block)) by {
                                reveal(waits);
                            }
                            lemma_idle(w, l1.code, n, l2.code);
                            lemma_position(l1.code, n, l2.code);
                            assert(waits(l2.cursor(), merge));
                            assert(waits(l2.cursor(), else_block));
                            assert(is_away(w, l2.code)) by {
                                reveal(waits);
                            }
                            branching::lemma_end_case(
                                c,
                                l2,
                                fork,
                                then_block,
                                else_block,
                                merge,
                            );
                            assert(is_on(w, l3.code)) by {
                                reveal(is_on);
                            }
                            lemma_tidy(l, bs);
                            scoping::lemma_if(l, v, fork, then_block, else_block, merge);
                            scoping::law_block_scope(l1, body);
                            scoping::lemma_if(l2, v, fork, then_block, else_block, merge);
                            scoping::lemma_restores(l, l1, l2, l3);
                            lemma_titled(c, l, l3);
                            assert(tracks(l3, bs)) by {
                                reveal(tracks);
                            }
                            assert(ir::created(l3.code, else_block)) by {
                                reveal(waits);
                            }
                            assert(seen(run(w, l3.code), bs).locals =~= seen(
                                run(w, l.code),
                                bs,
                            ).locals);
                            reveal(is_settled);
                        },
                        None => {},
                    }
                },
                None => {},
            }
        },
        None => {},
    }
}

/// The block after an `if` statement is there, and waits.
proof fn lemma_begin_if(c: Setting, l: Lowering, bs: Seq<(Seq<char>, Variable)>)
    requires
        is_ready(c, l, bs),
        is_settled(l.cursor()),
    ensures
        lowering::begin_if(l) matches Some((l1, fork)) ==> {
            let s = seen(run(c.world, l.code), bs);
            &&& seen(run(c.world, l1.code), bs) == s
            &&& leads_to(
                c,
                l1,
                fork,
                lowering::new_block(Some(l)),
                bs,
                Fate { store: s, taken: false, end: None },
            )
            &&& growth::advances(l, l1)
        },
{
    match lowering::begin_if(l) {
        Some((l1, fork)) => {
            let merge = lowering::new_block(Some(l));
            let r = Request::CreateBlock;
            assert(l1.code == l.code.push(r));
            sequel::lemma_count(l.code);
            ir::lemma_push(l.code, r);
            lemma_quiet(c.world, l.code, r);
            assert(growth::advances(l, l1)) by {
                broadcast use ir::group_orderly;

                growth::lemma_same(l.module);
            }
            lemma_titled(c, l, l1);
            assert(tracks(l1, bs)) by {
                reveal(tracks);
            }
            reveal(waits);
            reveal(is_settled);
            reveal(ir::is_orderly);
        },
        None => {},
    }
}

/// The code of an `if` statement runs one branch, and returns.
proof fn lemma_if(
    c: Setting,
    l: Lowering,
    stmt: Statement,
    bs: Seq<(Seq<char>, Variable)>,
) -> (r: Passage)
    requires
        is_ready(c, l, bs),
        is_settled(l.cursor()),
        !l.terminated,
        stmt is If,
        is_plain(stmt, true),
        lowering::live_statement(l, stmt) matches Some(l1) ==> fits_in(l1, c),
    ensures
        lowering::live_statement(l, stmt) matches Some(l1) ==> comes_to(c, l1, bs, r, true)
            && executes(c, stmt, seen(run(c.world, l.code), bs), r.store, r.end),
    decreases stmt, 1nat,
{
    let s = seen(run(c.world, l.code), bs);
    let nothing = Passage { variables: bs, store: s, end: None };
    match lowering::live_statement(l, stmt) {
        Some(l5) => {
            match stmt {
                Statement::If { ifcases, elsecase } => {
                    let w = c.world;
                    let (l1, fork) = lowering::begin_if(l)->0;
                    let merge = lowering::new_block(Some(l));
                    let (l2, fork2) = lowering::cases(l1, fork, merge, ifcases@)->0;
                    let l3 = lowering::begin_else(l2);
                    let l4 = lowering::block(l3, elsecase@)->0;
                    assert(lowering::end_if(l4, fork2, merge) == Some(l5));
                    lemma_begin_if(c, l, bs);
                    growth::lemma_cases(l1, fork, merge, ifcases@);
                    growth::lemma_block(l3, elsecase@);
                    growth::lemma_end_if(l4, fork2, merge);
                    growth::lemma_same(l2.module);
                    lemma_fits_in(l4, l5, c);
                    lemma_fits_in(l3, l4, c);
                    lemma_fits_in(l2, l3, c);
                    let f = lemma_cases(c, l1, fork, merge, ifcases@, bs);
                    assert(l3.cursor() == l2.cursor());
                    assert(ir::is_orderly(l2.code)) by {
                        reveal(waits);
                    }
                    lemma_block_waits(l3, elsecase@);
                    assert(waits(l4.cursor(), merge));
                    branching::lemma_end_if(c, l4, fork2, merge);
                    ir::lemma_created(l3.code, l4.code);
                    ir::lemma_created(l4.code, l5.code);
                    if f.taken {
                        let n = ir::block_count(l3.code);
                        assert(ir::created(l3.code, merge) && ir::position(l3.code)
                            != Some(merge)) by {
                            reveal(waits);
                        }
                        lemma_idle(w, l3.code, n, l4.code);
                        lemma_position(l3.code, n, l4.code);
                        meaning::lemma_if(c, stmt, s, f.store, true, f.end, f.store, None);
                        Passage { variables: bs, store: f.store, end: finish(f.end) }
                    } else {
                        lemma_entered(c, l2, l3, bs);
                        let r = law_block(c, l3, elsecase@, bs, false);
                        meaning::lemma_if(c, stmt, s, f.store, false, f.end, r.store, r.end);
                        if r.end is None {
                            reveal(is_settled);
                        }
                        Passage {
                            variables: bs,
                            store: r.store.keep(s.locals.len()),
                            end: finish(r.end),
                        }
                    }
                },
                _ => nothing,
            }
        },
        None => nothing,
    }
}

} // verus!
