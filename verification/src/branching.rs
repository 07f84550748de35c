//! How control goes through the branches of an `if` statement.
use vstd::prelude::*;

use crate::execution::{is_on, is_ready, lemma_emitted, lemma_quiet, lemma_titled, tracks};
use crate::flow;
use crate::flow::{has_ended, is_open, is_settled, lemma_untouched, waits};
use crate::growth;
use crate::ir;
use crate::ir::{Block, Inst, Origin, Request, Variable};
use crate::lowering;
use crate::lowering::{Fork, Lowering};
use crate::machine::{numbers, pass, run, Machine, World};
use crate::meaning::Setting;
use crate::sequel;

verus! {

/// Whether control is in `block`, after which nothing else has changed.
pub open spec fn is_at(m: Machine, m1: Machine, block: Block) -> bool {
    &&& m1.at == Some(block)
    &&& m1.variables == m.variables
    &&& m1.memory == m.memory
    &&& m1.result == m.result
}

/// A condition is followed by two new blocks, the first of which is opened.
pub proof fn lemma_begun(c: Setting, l: Lowering, v: Origin, test: Block, merge: Block)
    requires
        waits(l.cursor(), merge),
        l.manager.current == Some(test),
        ir::created(l.code, test),
        ir::created(l.code, c.world.entry),
        forall|x: u32| #[trigger] l.manager.sealed.contains(x) ==> x < ir::block_count(l.code),
    ensures
        lowering::begin_case(l, v, test) matches Some(l1) ==> {
            let then_block = lowering::new_block(Some(l));
            let else_block = lowering::new_block(lowering::create_block(Some(l)));
            let m = run(c.world, l.code);
            let m1 = run(c.world, l1.code);
            let taken = m.values[v] != 0;
            &&& waits(l1.cursor(), merge)
            &&& waits(l1.cursor(), else_block)
            &&& then_block != merge
            &&& else_block != merge
            &&& then_block != else_block
            &&& ir::position(l1.code) == Some(then_block)
            &&& l1.manager.current == Some(then_block)
            &&& ir::created(l1.code, then_block)
            &&& ir::has_predecessor(l1.code, then_block)
            &&& ir::has_predecessor(l1.code, else_block)
            &&& ir::has_predecessor(l.code, merge) ==> ir::has_predecessor(l1.code, merge)
            &&& ir::created(l1.code, c.world.entry)
            &&& l1.locals == l.locals
            &&& !l1.terminated
            &&& is_settled(l1.cursor())
            &&& forall|x: u32| #[trigger]
                l1.manager.sealed.contains(x) ==> x < ir::block_count(l1.code)
            &&& is_on(c.world, l.code) ==> is_at(
                m,
                m1,
                if taken {
                    then_block
                } else {
                    else_block
                },
            )
        },
{
    match lowering::begin_case(l, v, test) {
        Some(l3) => {
            growth::lemma_begin_case(l, v, test);
            reveal(lowering::begin_case);
            let w = c.world;
            let m = run(w, l.code);
            let then_block = lowering::new_block(Some(l));
            let else_block = lowering::new_block(lowering::create_block(Some(l)));
            let r = Request::CreateBlock;
            let h1 = l.code.push(r);
            let h2 = h1.push(r);
            sequel::lemma_count(l.code);
            sequel::lemma_count(h1);
            ir::lemma_push(l.code, r);
            ir::lemma_push(h1, r);
            lemma_quiet(w, l.code, r);
            lemma_quiet(w, h1, r);
            let fork = Inst::Brif {
                cond: v,
                then_block,
                then_args: seq![],
                else_block,
                else_args: seq![],
            };
            let s = lowering::emit(lowering::create_known(lowering::create_known(Some(l))), fork);
            let h3 = s->0.code;
            assert(h3 == ir::emit(h2, fork)->0);
            if is_on(w, l.code) {
                lemma_emitted(w, h2, fork);
            }
            let at = ir::position(l.code)->0;
            ir::lemma_push(h2, Request::Emit { block: at, inst: fork });
            assert(fork.targets(then_block));
            assert(fork.targets(else_block));
            assert(numbers(m.values, seq![]) =~= seq![]);
            reveal_with_fuel(pass, 1);
            let c3 = s->0.cursor();
            reveal(waits);
            assert(has_ended(h3));
            flow::lemma_seal(w, c3, test);
            let l2 = lowering::seal(s, test)->0;
            flow::lemma_switch_to(w, l2.cursor(), then_block);
            assert(run(w, l3.code) == run(w, h3));
            assert(forall|b: Block|
                b.0 >= ir::block_count(l.code) ==> !#[trigger] ir::inserted(l.code, b)
                    && ir::position(l.code) != Some(b) && ir::params(l.code, b).len() == 0) by {
                reveal(ir::is_orderly);
            }
            ir::lemma_created(l.code, l3.code);
            lemma_untouched(l3.code, then_block);
            assert(!ir::inserted(l.code, then_block));
            assert(!ir::inserted(l.code, else_block));
            assert(ir::created(l3.code, else_block));
            assert(ir::params(l3.code, else_block).len() == 0);
            assert(!ir::inserted(l3.code, else_block));
            assert(!l3.manager.sealed.contains(else_block.0));
            reveal(is_settled);
        },
        None => {},
    }
}

/// A condition decides which of two new blocks control goes to.
pub proof fn lemma_begin_case(
    c: Setting,
    l: Lowering,
    v: Origin,
    test: Block,
    merge: Block,
    bs: Seq<(Seq<char>, Variable)>,
)
    requires
        is_ready(c, l, bs),
        waits(l.cursor(), merge),
        l.manager.current == Some(test),
        ir::created(l.code, test),
        forall|x: u32| #[trigger] l.manager.sealed.contains(x) ==> x < ir::block_count(l.code),
    ensures
        lowering::begin_case(l, v, test) matches Some(l1) ==> (run(c.world, l.code).values[v] != 0
            ==> is_ready(c, l1, bs)),
{
    match lowering::begin_case(l, v, test) {
        Some(l1) => {
            lemma_begun(c, l, v, test, merge);
            growth::lemma_begin_case(l, v, test);
            if run(c.world, l.code).values[v] != 0 {
                assert(is_on(c.world, l1.code)) by {
                    reveal(is_on);
                }
                lemma_titled(c, l, l1);
                reveal(tracks);
            }
        },
        None => {},
    }
}

/// Whether control is not where the next request is made.
pub open spec fn is_away(w: World, h: Seq<Request>) -> bool {
    run(w, h).at != ir::position(h)
}

/// The end of a branch.
proof fn lemma_join(c: Setting, l: Lowering, fork: Fork, merge: Block)
    requires
        waits(l.cursor(), merge),
    ensures
        lowering::join(l, fork, merge) matches Some((l1, fork1)) ==> {
            let m = run(c.world, l.code);
            let m1 = run(c.world, l1.code);
            &&& fork1.test == fork.test
            &&& fork.joined ==> fork1.joined
            &&& ir::position(l1.code) == ir::position(l.code)
            &&& ir::block_count(l1.code) == ir::block_count(l.code)
            &&& waits(l1.cursor(), merge)
            &&& forall|b: Block| waits(l.cursor(), b) ==> #[trigger] waits(l1.cursor(), b)
            &&& forall|b: Block| ir::has_predecessor(l.code, b) ==> #[trigger] ir::has_predecessor(
                l1.code,
                b,
            )
            &&& is_away(c.world, l.code) ==> m1 == m
            &&& !l.terminated && is_on(c.world, l.code) && is_open(l.cursor()) ==> {
                &&& is_at(m, m1, merge)
                &&& fork1.joined
                &&& has_ended(l1.code)
                &&& ir::has_predecessor(l1.code, merge)
            }
        },
{
    match lowering::join(l, fork, merge) {
        Some((l1, fork1)) => {
            growth::lemma_join(l, fork, merge);
            let l0 = lowering::exit_scope(Some(l))->0;
            assert(l0.cursor() == l.cursor());
            flow::lemma_jump_to(c.world, l.cursor(), merge);
            reveal(waits);
            reveal(is_on);
        },
        None => {},
    }
}

/// The end of a branch with a condition: control stays where it is, or goes on
/// after the statement.
pub proof fn lemma_end_case(
    c: Setting,
    l: Lowering,
    fork: Fork,
    then_block: Block,
    else_block: Block,
    merge: Block,
)
    requires
        waits(l.cursor(), merge),
        waits(l.cursor(), else_block),
        then_block != merge,
        else_block != merge,
        then_block != else_block,
        ir::has_predecessor(l.code, else_block),
        ir::created(l.code, then_block),
        forall|x: u32| #[trigger] l.manager.sealed.contains(x) ==> x < ir::block_count(l.code),
        l.manager.current matches Some(b) ==> ir::created(l.code, b),
    ensures
        lowering::end_case(l, fork, then_block, else_block, merge) matches Some((l1, fork1)) ==> {
            let m = run(c.world, l.code);
            let m1 = run(c.world, l1.code);
            &&& fork1.test == else_block
            &&& fork.joined ==> fork1.joined
            &&& waits(l1.cursor(), merge)
            &&& ir::position(l1.code) == Some(else_block)
            &&& ir::has_predecessor(l1.code, else_block)
            &&& is_settled(l1.cursor())
            &&& l1.manager.current == Some(else_block)
            &&& is_away(c.world, l.code) ==> m1 == m
            &&& ir::has_predecessor(l.code, merge) ==> ir::has_predecessor(l1.code, merge)
            &&& !l.terminated && is_on(c.world, l.code) && is_open(l.cursor()) ==> {
                &&& is_at(m, m1, merge)
                &&& fork1.joined
                &&& ir::has_predecessor(l1.code, merge)
            }
        },
{
    match lowering::end_case(l, fork, then_block, else_block, merge) {
        Some((l3, fork3)) => {
            growth::lemma_end_case(l, fork, then_block, else_block, merge);
            reveal(lowering::end_case);
            let w = c.world;
            let (l1, fork1) = lowering::join(l, fork, merge)->0;
            lemma_join(c, l, fork, merge);
            lemma_joined(c, l, fork, merge);
            let l2 = lowering::seal(Some(l1), then_block)->0;
            flow::lemma_seal(w, l1.cursor(), then_block);
            flow::lemma_switch_to(w, l2.cursor(), else_block);
            assert(waits(l1.cursor(), else_block));
            reveal(waits);
            reveal(is_settled);
            lemma_untouched(l3.code, else_block);
        },
        None => {},
    }
}

/// What the end of a branch does to the manager.
proof fn lemma_joined(c: Setting, l: Lowering, fork: Fork, merge: Block)
    ensures
        lowering::join(l, fork, merge) matches Some((l1, _)) ==> {
            &&& l1.manager.current matches Some(b) ==> l.manager.current == Some(b)
            &&& forall|x: u32| #[trigger] l1.manager.sealed.contains(x)
                ==> l.manager.sealed.contains(x) || (l.manager.current matches Some(b) && b.0
                == x)
        },
{
    match lowering::join(l, fork, merge) {
        Some((l1, fork1)) => {
            let l0 = lowering::exit_scope(Some(l))->0;
            assert(l0.cursor() == l.cursor());
            flow::lemma_jump_to(c.world, l.cursor(), merge);
        },
        None => {},
    }
}

/// The end of an `if` statement: where control goes on after it, zero is returned.
pub proof fn lemma_end_if(c: Setting, l: Lowering, fork: Fork, merge: Block)
    requires
        waits(l.cursor(), merge),
        fork.test != merge,
    ensures
        lowering::end_if(l, fork, merge) matches Some(l1) ==> {
            let m = run(c.world, l.code);
            let m1 = run(c.world, l1.code);
            &&& m.at is None ==> m1 == m
            &&& (m.at == Some(merge) && fork.joined && ir::has_predecessor(l.code, merge)) || (
            !l.terminated && is_on(c.world, l.code) && is_open(l.cursor())) ==> {
                &&& m1.at is None
                &&& m1.result == Some(0int)
                &&& m1.memory == m.memory
            }
        },
{
    match lowering::end_if(l, fork, merge) {
        Some(l4) => {
            reveal(lowering::end_if);
            let w = c.world;
            let m = run(w, l.code);
            let (l1, fork1) = lowering::join(l, fork, merge)->0;
            lemma_join(c, l, fork, merge);
            lemma_joined(c, l, fork, merge);
            let l2 = lowering::seal(Some(l1), fork1.test)->0;
            flow::lemma_seal(w, l1.cursor(), fork1.test);
            assert(ir::position(l.code) is Some && ir::position(l.code) != Some(merge)) by {
                reveal(waits);
            }
            if fork1.joined {
                let l3 = lowering::switch_to(Some(l2), merge)->0;
                flow::lemma_switch_to(w, l2.cursor(), merge);
                flow::lemma_seal(w, l3.cursor(), merge);
                reveal(waits);
                lemma_untouched(l3.code, merge);
                if (m.at == Some(merge) && fork.joined && ir::has_predecessor(l.code, merge)) || (
                !l.terminated && is_on(w, l.code) && is_open(l.cursor())) {
                    assert(ir::has_predecessor(l1.code, merge));
                    assert(ir::has_predecessor(l2.code, merge));
                    assert(is_on(w, l3.code)) by {
                        reveal(is_on);
                    }
                }
            }
        },
        None => {},
    }
}

} // verus!
