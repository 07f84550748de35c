//! What the code of loops does, from one round to the next.
use vstd::prelude::*;

use crate::ast::Statement;
use crate::branching::is_at;
use crate::courses::lemma_tidy;
use crate::execution::{
    fits_in, is_on, is_ready, lemma_emitted, lemma_fits_in, lemma_idle, lemma_position, lemma_quiet,
    lemma_titled, seen, tracks,
};
use crate::flow;
use crate::flow::{has_ended, is_open, is_settled, sealable};
use crate::growth;
use crate::ir;
use crate::ir::{Block, Inst, Origin, Request, Variable};
use crate::lowering;
use crate::lowering::Lowering;
use crate::machine::{lemma_run, pass, run, World};
use crate::meaning::{evaluates, Setting};
use crate::results::law_expression;
use crate::scoping;
use crate::sealing;
use crate::sealing::places;
use crate::sequel;
use crate::sequel::lemma_start;
use crate::values::lemma_ready;

verus! {

/// What comes after a loop goes to its exit; control stays where it is.
proof fn lemma_leave_loop(w: World, l: Lowering, body: Block, exit: Block)
    requires
        l.manager.current != Some(body),
        l.manager.current != Some(exit),
    ensures
        lowering::leave_loop(Some(l), body, exit) matches Some(l1) ==> {
            &&& run(w, l1.code) == run(w, l.code)
            &&& ir::position(l1.code) == Some(exit)
            &&& forall|b: Block| ir::has_predecessor(l.code, b) ==> #[trigger] ir::has_predecessor(
                l1.code,
                b,
            )
        },
{
    match lowering::leave_loop(Some(l), body, exit) {
        Some(l3) => {
            let r = Request::Switch { block: exit };
            let l1 = lowering::go_to(lowering::exit_scope(Some(l)), exit)->0;
            ir::lemma_push(l.code, r);
            lemma_run(w, l.code, r);
            let l2 = lowering::seal(Some(l1), body)->0;
            if !l1.manager.sealed.contains(body.0) {
                lemma_quiet(w, l1.code, Request::Seal { block: body });
                ir::lemma_push(l1.code, Request::Seal { block: body });
            }
            if !l2.manager.sealed.contains(exit.0) {
                lemma_quiet(w, l2.code, Request::Seal { block: exit });
                ir::lemma_push(l2.code, Request::Seal { block: exit });
            }
        },
        None => {},
    }
}

/// A branch without arguments goes to one of two blocks.
proof fn lemma_fork(
    w: World,
    h: Seq<Request>,
    cond: Origin,
    then_block: Block,
    else_block: Block,
)
    requires
        is_on(w, h),
    ensures
        ({
            let inst = Inst::Brif {
                cond,
                then_block,
                then_args: seq![],
                else_block,
                else_args: seq![],
            };
            ir::emit(h, inst) matches Some(h1) ==> {
                &&& is_at(
                    run(w, h),
                    run(w, h1),
                    if run(w, h).values[cond] != 0 {
                        then_block
                    } else {
                        else_block
                    },
                )
                &&& has_ended(h1)
                &&& ir::position(h1) == ir::position(h)
                &&& ir::block_count(h1) == ir::block_count(h)
                &&& ir::has_predecessor(h1, then_block)
                &&& ir::has_predecessor(h1, else_block)
            }
        }),
{
    let inst = Inst::Brif { cond, then_block, then_args: seq![], else_block, else_args: seq![] };
    if ir::emit(h, inst) is Some {
        lemma_emitted(w, h, inst);
        ir::lemma_push(h, Request::Emit { block: ir::position(h)->0, inst });
        assert(inst.targets(then_block));
        assert(inst.targets(else_block));
        reveal_with_fuel(pass, 1);
    }
}

/// A jump without arguments goes to its target.
proof fn lemma_back(w: World, h: Seq<Request>, target: Block)
    ensures
        ({
            let inst = Inst::Jump { target, args: seq![] };
            ir::emit(h, inst) matches Some(h1) ==> {
                &&& is_on(w, h) ==> is_at(run(w, h), run(w, h1), target)
                &&& run(w, h).at != ir::position(h) ==> run(w, h1) == run(w, h)
                &&& ir::position(h1) == ir::position(h)
                &&& ir::has_predecessor(h1, target)
                &&& forall|b: Block| ir::has_predecessor(h, b) ==> #[trigger] ir::has_predecessor(
                    h1,
                    b,
                )
            }
        }),
{
    let inst = Inst::Jump { target, args: seq![] };
    if ir::emit(h, inst) is Some {
        let r = Request::Emit { block: ir::position(h)->0, inst };
        lemma_run(w, h, r);
        ir::lemma_push(h, r);
        assert(inst.targets(target));
        if is_on(w, h) {
            lemma_emitted(w, h, inst);
        }
    }
}

/// The states that the lowering of a loop goes through: where the condition or
/// the body begins, where the condition has been lowered, and where the body
/// begins and ends.
pub struct Round {
    pub start: Lowering,
    pub tested: Lowering,
    pub cond: Origin,
    pub entered: Lowering,
    pub left: Lowering,
}

/// The start of a `while` loop: control is where the condition is lowered.
proof fn lemma_begin_while(c: Setting, l: Lowering, bs: Seq<(Seq<char>, Variable)>)
    requires
        is_ready(c, l, bs),
        is_settled(l.cursor()),
    ensures
        lowering::begin_while(l) matches Some(l1) ==> {
            let header = lowering::new_block(Some(l));
            let body = lowering::new_block(lowering::create_block(Some(l)));
            let exit = lowering::new_block(lowering::create_block(lowering::create_block(Some(l))));
            &&& is_ready(c, l1, bs)
            &&& seen(run(c.world, l1.code), bs) == seen(run(c.world, l.code), bs)
            &&& ir::position(l1.code) == Some(header)
            &&& l1.manager.current is None
            &&& header != body && header != exit && body != exit
            &&& ir::created(l1.code, header) && ir::created(l1.code, body) && ir::created(
                l1.code,
                exit,
            )
            &&& !l1.manager.sealed.contains(body.0)
            &&& !l1.manager.sealed.contains(exit.0)
            &&& !l1.manager.sealed.contains(header.0)
            &&& forall|x: u32| #[trigger]
                l1.manager.sealed.contains(x) ==> x < ir::block_count(l1.code)
        },
{
    match lowering::begin_while(l) {
        Some(l3) => {
            growth::lemma_begin_while(l);
            reveal(lowering::begin_while);
            let w = c.world;
            let header = lowering::new_block(Some(l));
            let r = Request::CreateBlock;
            let h1 = l.code.push(r);
            let h2 = h1.push(r);
            let h3 = h2.push(r);
            sequel::lemma_count(l.code);
            sequel::lemma_count(h1);
            sequel::lemma_count(h2);
            ir::lemma_push(l.code, r);
            ir::lemma_push(h1, r);
            ir::lemma_push(h2, r);
            lemma_quiet(w, l.code, r);
            lemma_quiet(w, h1, r);
            lemma_quiet(w, h2, r);
            let s1 = lowering::create_block(
                lowering::create_block(lowering::create_block(Some(l))),
            );
            let l1 = s1->0;
            assert(l1.code == h3);
            assert(ir::position(h3) is Some && !ir::unreachable(h3)) by {
                reveal(is_on);
            }
            let s2 = lowering::jump_to(s1, header);
            let l2 = s2->0;
            assert(lowering::jump_if_reachable(s1, header) == s2);
            flow::lemma_jump_to(w, l1.cursor(), header);
            reveal(is_settled);
            assert(is_open(l1.cursor()));
            let r3 = Request::Switch { block: header };
            ir::lemma_push(l2.code, r3);
            lemma_run(w, l2.code, r3);
            assert(l3.code == l2.code.push(r3));
            assert(is_on(w, l3.code)) by {
                reveal(is_on);
            }
            assert(ir::created(l.code, l.manager.current->0)) by {
                reveal(ir::is_orderly);
            }
            ir::lemma_created(l.code, l3.code);
            lemma_titled(c, l, l3);
            assert(tracks(l3, bs)) by {
                reveal(tracks);
            }
            assert(seen(run(w, l3.code), bs).locals =~= seen(run(w, l.code), bs).locals);
        },
        None => {},
    }
}

/// The condition of a `while` loop decides between the body and the exit.
proof fn lemma_test_while(
    c: Setting,
    l: Lowering,
    v: Origin,
    header: Block,
    body: Block,
    exit: Block,
    bs: Seq<(Seq<char>, Variable)>,
)
    requires
        is_ready(c, l, bs),
        l.manager.current is None,
        forall|x: u32| #[trigger] l.manager.sealed.contains(x) ==> x < ir::block_count(l.code),
        ir::created(l.code, header),
        header != body,
        header != exit,
    ensures
        lowering::test_while(l, v, header, body, exit) matches Some(l1) ==> {
            let m = run(c.world, l.code);
            let m1 = run(c.world, l1.code);
            &&& is_at(m, m1, if m.values[v] != 0 { body } else { exit })
            &&& ir::position(l1.code) == Some(body)
            &&& ir::has_predecessor(l1.code, exit)
            &&& l1.manager.current is None
            &&& forall|x: u32| #[trigger] l1.manager.sealed.contains(x)
                <==> l.manager.sealed.contains(x) || x == header.0
            &&& forall|x: u32| #[trigger]
                l1.manager.sealed.contains(x) ==> x < ir::block_count(l1.code)
            &&& m.values[v] != 0 ==> is_ready(c, l1, bs)
        },
{
    match lowering::test_while(l, v, header, body, exit) {
        Some(l3) => {
            growth::lemma_test_while(l, v, header, body, exit);
            reveal(lowering::test_while);
            let w = c.world;
            let inst = Inst::Brif {
                cond: v,
                then_block: body,
                then_args: seq![],
                else_block: exit,
                else_args: seq![],
            };
            let s1 = lowering::emit(Some(l), inst);
            let l1 = s1->0;
            lemma_fork(w, l.code, v, body, exit);
            flow::lemma_seal(w, l1.cursor(), header);
            let l2 = lowering::seal(s1, header)->0;
            let r = Request::Switch { block: body };
            assert(l3.code == l2.code.push(r));
            ir::lemma_push(l2.code, r);
            lemma_run(w, l2.code, r);
            ir::lemma_created(l.code, l3.code);
            if run(w, l.code).values[v] != 0 {
                assert(is_on(w, l3.code)) by {
                    reveal(is_on);
                }
                lemma_titled(c, l, l3);
                assert(tracks(l3, bs)) by {
                    reveal(tracks);
                }
            }
        },
        None => {},
    }
}

/// A `while` loop evaluates its condition. If that is false, control goes on
/// after the loop, and the body is not run. If it is true, control is where the
/// body is lowered; and from where the body ends control goes back to the
/// condition.
pub proof fn law_while(
    c: Setting,
    l: Lowering,
    stmt: Statement,
    bs: Seq<(Seq<char>, Variable)>,
) -> (r: Round)
    requires
        is_ready(c, l, bs),
        is_settled(l.cursor()),
        stmt is While,
        lowering::live_statement(l, stmt) matches Some(l1) ==> fits_in(l1, c),
    ensures
        (stmt matches Statement::While { cond, block } && lowering::live_statement(
            l,
            stmt,
        ) matches Some(l5)) ==> {
            let w = c.world;
            let s = seen(run(w, l.code), bs);
            let m2 = run(w, r.tested.code);
            let m5 = run(w, lowering::live_statement(l, stmt)->0.code);
            let x = m2.values[r.cond];
            &&& is_ready(c, r.start, bs)
            &&& seen(run(w, r.start.code), bs) == s
            &&& lowering::expression(r.start, stmt->While_cond) == Some((r.tested, r.cond))
            &&& evaluates(c, stmt->While_cond, s, seen(m2, bs), x)
            &&& lowering::block(r.entered, stmt->While_block@) == Some(r.left)
            &&& x == 0 ==> {
                &&& is_ready(c, lowering::live_statement(l, stmt)->0, bs)
                &&& seen(m5, bs) == seen(m2, bs)
            }
            &&& x != 0 ==> {
                &&& is_ready(c, r.entered, bs)
                &&& seen(run(w, r.entered.code), bs) == seen(m2, bs)
                &&& is_on(w, r.left.code) ==> is_at(
                    run(w, r.left.code),
                    m5,
                    ir::position(r.start.code)->0,
                )
            }
        },
{
    let nothing = Round { start: l, tested: l, cond: l.code, entered: l, left: l };
    match lowering::live_statement(l, stmt) {
        Some(l5) => {
            match stmt {
                Statement::While { cond, block } => {
                    let w = c.world;
                    let header = lowering::new_block(Some(l));
                    let body = lowering::new_block(lowering::create_block(Some(l)));
                    let exit = lowering::new_block(
                        lowering::create_block(lowering::create_block(Some(l))),
                    );
                    let l1 = lowering::begin_while(l)->0;
                    let (l2, v) = lowering::expression(l1, cond)->0;
                    let l3 = lowering::test_while(l2, v, header, body, exit)->0;
                    let l4 = lowering::block(l3, block@)->0;
                    assert(lowering::end_while(l4, header, body, exit) == Some(l5));
                    growth::lemma_begin_while(l);
                    growth::lemma_expression(l1, cond);
                    growth::lemma_test_while(l2, v, header, body, exit);
                    growth::lemma_block(l3, block@);
                    growth::lemma_end_while(l4, header, body, exit);
                    growth::lemma_advances(l, l1, l2);
                    growth::lemma_advances(l, l2, l3);
                    growth::lemma_advances(l, l3, l4);
                    growth::lemma_advances(l, l4, l5);
                    lemma_fits_in(l4, l5, c);
                    lemma_fits_in(l3, l4, c);
                    lemma_fits_in(l2, l3, c);
                    lemma_begin_while(c, l, bs);
                    law_expression(c, l1, cond, bs);
                    lemma_ready(c, l1, l2, v, bs);
                    ir::lemma_created(l1.code, l2.code);
                    ir::lemma_created(l2.code, l3.code);
                    lemma_test_while(c, l2, v, header, body, exit, bs);
                    let n = ir::block_count(l3.code);
                    lemma_start(l3.code, n);
                    assert(places(l3.code, n, sealable(l3), l3));
                    sealing::lemma_block(l3.code, n, sealable(l3), l3, block@);
                    lemma_position(l3.code, n, l4.code);
                    lemma_end_while(w, l4, header, body, exit);
                    let x = run(w, l2.code).values[v];
                    assert(seen(run(w, l3.code), bs).locals =~= seen(run(w, l2.code), bs).locals);
                    if x == 0 {
                        lemma_idle(w, l3.code, n, l4.code);
                        assert(is_on(w, l5.code)) by {
                            reveal(is_on);
                        }
                        lemma_tidy(l, bs);
                        scoping::lemma_live_statement(l, stmt);
                        lemma_titled(c, l, l5);
                        ir::lemma_created(l.code, l5.code);
                        assert(tracks(l5, bs)) by {
                            reveal(tracks);
                        }
                    }
                    Round { start: l1, tested: l2, cond: v, entered: l3, left: l4 }
                },
                _ => nothing,
            }
        },
        None => nothing,
    }
}

/// The end of a `while` loop: control that is there goes back.
proof fn lemma_end_while(w: World, l: Lowering, header: Block, body: Block, exit: Block)
    requires
        l.manager.current != Some(body),
        l.manager.current != Some(exit),
    ensures
        lowering::end_while(l, header, body, exit) matches Some(l1) ==> {
            &&& ir::position(l1.code) == Some(exit)
            &&& run(w, l.code).at != ir::position(l.code) ==> run(w, l1.code) == run(w, l.code)
            &&& is_on(w, l.code) ==> is_at(run(w, l.code), run(w, l1.code), header)
            &&& forall|b: Block| ir::has_predecessor(l.code, b) ==> #[trigger] ir::has_predecessor(
                l1.code,
                b,
            )
        },
{
    match lowering::end_while(l, header, body, exit) {
        Some(l2) => {
            reveal(lowering::end_while);
            let inst = Inst::Jump { target: header, args: seq![] };
            let l1 = lowering::emit_if_reachable(Some(l), inst)->0;
            lemma_back(w, l.code, header);
            assert(is_on(w, l.code) ==> !ir::unreachable(l.code)) by {
                reveal(is_on);
            }
            lemma_leave_loop(w, l1, body, exit);
        },
        None => {},
    }
}

/// The start of a `repeat` loop: control is where the body is lowered.
proof fn lemma_begin_repeat(c: Setting, l: Lowering, bs: Seq<(Seq<char>, Variable)>)
    requires
        is_ready(c, l, bs),
        is_settled(l.cursor()),
    ensures
        lowering::begin_repeat(l) matches Some(l1) ==> {
            let body = lowering::new_block(Some(l));
            let exit = lowering::new_block(lowering::create_block(Some(l)));
            &&& is_ready(c, l1, bs)
            &&& seen(run(c.world, l1.code), bs) == seen(run(c.world, l.code), bs)
            &&& ir::position(l1.code) == Some(body)
            &&& l1.manager == l.manager
            &&& ir::created(l.code, l.manager.current->0)
            &&& body.0 >= ir::block_count(l.code) && exit.0 >= ir::block_count(l.code)
            &&& body != exit
            &&& ir::created(l1.code, body) && ir::created(l1.code, exit)
            &&& ir::block_count(l.code) <= ir::block_count(l1.code)
        },
{
    match lowering::begin_repeat(l) {
        Some(l3) => {
            growth::lemma_begin_repeat(l);
            reveal(lowering::begin_repeat);
            let w = c.world;
            let body = lowering::new_block(Some(l));
            let r = Request::CreateBlock;
            let h1 = l.code.push(r);
            let h2 = h1.push(r);
            sequel::lemma_count(l.code);
            sequel::lemma_count(h1);
            ir::lemma_push(l.code, r);
            ir::lemma_push(h1, r);
            lemma_quiet(w, l.code, r);
            lemma_quiet(w, h1, r);
            assert(ir::position(h2) is Some && !ir::unreachable(h2)) by {
                reveal(is_on);
            }
            let inst = Inst::Jump { target: body, args: seq![] };
            let h3 = ir::emit(h2, inst)->0;
            lemma_back(w, h2, body);
            ir::lemma_push(h2, Request::Emit { block: ir::position(h2)->0, inst });
            let r3 = Request::Switch { block: body };
            assert(l3.code == h3.push(r3));
            ir::lemma_push(h3, r3);
            lemma_run(w, h3, r3);
            assert(is_on(w, l3.code)) by {
                reveal(is_on);
            }
            assert(ir::created(l.code, l.manager.current->0)) by {
                reveal(is_settled);
                reveal(ir::is_orderly);
            }
            ir::lemma_created(l.code, l3.code);
            lemma_titled(c, l, l3);
            assert(tracks(l3, bs)) by {
                reveal(tracks);
            }
            assert(seen(run(w, l3.code), bs).locals =~= seen(run(w, l.code), bs).locals);
        },
        None => {},
    }
}

/// The end of a `repeat` loop: the condition decides between the exit and the body.
proof fn lemma_end_repeat(w: World, l: Lowering, v: Origin, body: Block, exit: Block)
    requires
        l.manager.current != Some(body),
        l.manager.current != Some(exit),
    ensures
        lowering::end_repeat(l, v, body, exit) matches Some(l1) ==> {
            &&& ir::position(l1.code) == Some(exit)
            &&& is_on(w, l.code) ==> is_at(
                run(w, l.code),
                run(w, l1.code),
                if run(w, l.code).values[v] != 0 {
                    exit
                } else {
                    body
                },
            )
        },
{
    match lowering::end_repeat(l, v, body, exit) {
        Some(l2) => {
            reveal(lowering::end_repeat);
            let inst = Inst::Brif {
                cond: v,
                then_block: exit,
                then_args: seq![],
                else_block: body,
                else_args: seq![],
            };
            let l1 = lowering::emit_if_reachable(Some(l), inst)->0;
            assert(is_on(w, l.code) ==> !ir::unreachable(l.code)) by {
                reveal(is_on);
            }
            if is_on(w, l.code) {
                lemma_fork(w, l.code, v, exit, body);
            }
            lemma_leave_loop(w, l1, body, exit);
        },
        None => {},
    }
}

/// A `repeat` loop runs its body, and then evaluates its condition. If that is
/// true, control goes on after the loop; if it is false, control goes back to
/// where the body begins.
pub proof fn law_repeat(
    c: Setting,
    l: Lowering,
    stmt: Statement,
    bs: Seq<(Seq<char>, Variable)>,
) -> (r: Round)
    requires
        is_ready(c, l, bs),
        is_settled(l.cursor()),
        stmt is Repeat,
    ensures
        (stmt is Repeat && lowering::live_statement(l, stmt) is Some) ==> {
            let w = c.world;
            let l5 = lowering::live_statement(l, stmt)->0;
            let m3 = run(w, r.tested.code);
            &&& is_ready(c, r.entered, bs)
            &&& seen(run(w, r.entered.code), bs) == seen(run(w, l.code), bs)
            &&& lowering::block(r.entered, stmt->Repeat_block@) == Some(r.left)
            &&& lowering::expression(r.left, stmt->Repeat_cond) == Some((r.tested, r.cond))
            &&& is_on(w, r.tested.code) ==> is_at(
                m3,
                run(w, l5.code),
                if m3.values[r.cond] != 0 {
                    ir::position(l5.code)->0
                } else {
                    ir::position(r.entered.code)->0
                },
            )
        },
{
    let nothing = Round { start: l, tested: l, cond: l.code, entered: l, left: l };
    match lowering::live_statement(l, stmt) {
        Some(l5) => {
            match stmt {
                Statement::Repeat { block, cond } => {
                    let w = c.world;
                    let body = lowering::new_block(Some(l));
                    let exit = lowering::new_block(lowering::create_block(Some(l)));
                    let l1 = lowering::begin_repeat(l)->0;
                    let l2 = lowering::block(l1, block@)->0;
                    let (l3, v) = lowering::expression(l2, cond)->0;
                    assert(lowering::end_repeat(l3, v, body, exit) == Some(l5));
                    growth::lemma_expression(l2, cond);
                    lemma_begin_repeat(c, l, bs);
                    let n = ir::block_count(l1.code);
                    lemma_start(l1.code, n);
                    reveal(is_settled);
                    assert(places(l1.code, n, sealable(l1), l1));
                    sealing::lemma_block(l1.code, n, sealable(l1), l1, block@);
                    lemma_end_repeat(w, l3, v, body, exit);
                    Round { start: l1, tested: l3, cond: v, entered: l1, left: l2 }
                },
                _ => nothing,
            }
        },
        None => nothing,
    }
}

} // verus!
