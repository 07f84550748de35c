//! How control goes from block to block.
use vstd::prelude::*;

use crate::blocks;
use crate::blocks::Cursor;
use crate::execution::{
    is_on, is_ready, lemma_emitted, lemma_params, lemma_position, lemma_quiet, seen, tracks,
};
use crate::growth;
use crate::ir;
use crate::ir::{Block, Inst, Origin, Request, Type, Variable};
use crate::lowering;
use crate::lowering::Lowering;
use crate::machine::{lemma_run, run, Machine, World};
use crate::meaning::Setting;
use crate::sealing::spares;
use crate::sequel;
use crate::sequel::{follows, lemma_prefix};
use crate::values;

verus! {

/// Whether the open block is the current one, and goes on, and the blocks that
/// the manager has sealed are there.
#[verifier::opaque]
pub open spec fn is_settled(c: Cursor) -> bool {
    &&& is_open(c)
    &&& forall|x: u32| #[trigger] c.manager.sealed.contains(x) ==> x < ir::block_count(c.code)
}

/// Whether nothing has been put into `block`, which is not the current one, and
/// which the manager neither has open nor has sealed.
#[verifier::opaque]
pub open spec fn waits(c: Cursor, block: Block) -> bool {
    &&& ir::is_orderly(c.code)
    &&& ir::created(c.code, block)
    &&& ir::position(c.code) is Some
    &&& ir::position(c.code) != Some(block)
    &&& ir::params(c.code, block).len() == 0
    &&& !ir::inserted(c.code, block)
    &&& !c.manager.sealed.contains(block.0)
    &&& c.manager.current != Some(block)
}

/// A block into which nothing was put does not end, and has as many parameters
/// as were asked for.
pub proof fn lemma_untouched(h: Seq<Request>, b: Block)
    ensures
        !ir::inserted(h, b) ==> !ir::terminated(h, b),
        ir::param_types(h, b).len() == ir::params(h, b).len(),
    decreases h.len(),
{
    if h.len() != 0 {
        lemma_untouched(h.drop_last(), b);
    }
}

/// What was put elsewhere left a block alone.
pub proof fn lemma_left_alone(h: Seq<Request>, n: nat, h1: Seq<Request>, b: Block)
    requires
        follows(h, n, h1),
        b.0 < n,
        ir::position(h) != Some(b),
        !ir::inserted(h, b),
    ensures
        !ir::inserted(h1, b),
    decreases h1.len(),
{
    reveal(follows);
    if h1.len() > h.len() {
        let h2 = h1.drop_last();
        lemma_left_alone(h, n, h2, b);
        lemma_position(h, n, h2);
        ir::lemma_push(h2, h1.last());
        assert(h2.push(h1.last()) =~= h1);
    }
}

/// The blocks that lowering from `l` on may seal.
pub open spec fn sealable(l: Lowering) -> Set<u32> {
    match l.manager.current {
        Some(b) => l.manager.sealed.insert(b.0),
        None => l.manager.sealed,
    }
}

/// A block that waits goes on waiting.
pub proof fn lemma_waits(l: Lowering, l1: Lowering, block: Block)
    requires
        waits(l.cursor(), block),
        follows(l.code, ir::block_count(l.code), l1.code),
        spares(ir::block_count(l.code), sealable(l), l1.cursor()),
        ir::is_orderly(l1.code),
    ensures
        waits(l1.cursor(), block),
{
    reveal(waits);
    let n = ir::block_count(l.code);
    lemma_prefix(l.code, n, l1.code);
    lemma_position(l.code, n, l1.code);
    lemma_params(l.code, n, l1.code);
    lemma_left_alone(l.code, n, l1.code, block);
}

// ---------------------------------------------------------------------------
// Zeroes and jumps

/// What was put into the current block, and nothing else, was changed.
pub open spec fn is_local_to(h: Seq<Request>, h1: Seq<Request>) -> bool {
    &&& ir::position(h1) == ir::position(h)
    &&& ir::block_count(h1) == ir::block_count(h)
    &&& forall|b: Block| #[trigger] ir::params(h1, b) == ir::params(h, b)
    &&& forall|b: Block| ir::position(h) != Some(b) ==> #[trigger] ir::inserted(h1, b)
        == ir::inserted(h, b)
    &&& forall|b: Block| ir::position(h) != Some(b) ==> #[trigger] ir::terminated(h1, b)
        == ir::terminated(h, b)
    &&& forall|b: Block| ir::has_predecessor(h, b) ==> #[trigger] ir::has_predecessor(h1, b)
}

/// Whether two machines differ only in values.
pub open spec fn is_like(m: Machine, m1: Machine) -> bool {
    &&& m1.at == m.at
    &&& m1.variables == m.variables
    &&& m1.memory == m.memory
    &&& m1.result == m.result
}

proof fn lemma_zeroes(w: World, h: Seq<Request>, done: Seq<Origin>, types: Seq<Type>)
    ensures
        blocks::zeroes(h, done, types) matches Some((h1, args)) ==> {
            &&& is_local_to(h, h1)
            &&& run(w, h).at != ir::position(h) ==> run(w, h1) == run(w, h)
            &&& is_on(w, h) ==> is_on(w, h1) && is_like(run(w, h), run(w, h1))
            &&& args.len() == done.len() + types.len()
        },
    decreases types.len(),
{
    if types.len() != 0 {
        let inst = match types[0] {
            Type::Int(ty) => Inst::Iconst { ty, imm: 0 },
            _ => Inst::FloatZero,
        };
        match ir::emit(h, inst) {
            Some(h1) => {
                let r = Request::Emit { block: ir::position(h)->0, inst };
                ir::lemma_push(h, r);
                lemma_run(w, h, r);
                lemma_zeroes(w, h1, done.push(h1), types.skip(1));
                if is_on(w, h) {
                    lemma_emitted(w, h, inst);
                }
                reveal(is_on);
            },
            None => {},
        }
    }
}

/// A jump is carried out by what is in the current block.
proof fn lemma_jump_with_zeroes(w: World, h: Seq<Request>, target: Block)
    ensures
        blocks::jump_with_zeroes(h, target) matches Some(h1) ==> {
            &&& is_local_to(h, h1)
            &&& has_ended(h1)
            &&& ir::has_predecessor(h1, target)
            &&& run(w, h).at != ir::position(h) ==> run(w, h1) == run(w, h)
            &&& is_on(w, h) ==> {
                &&& run(w, h1).at == Some(target)
                &&& run(w, h1).variables == run(w, h).variables
                &&& run(w, h1).memory == run(w, h).memory
                &&& run(w, h1).result == run(w, h).result
            }
        },
{
    match blocks::jump_with_zeroes(h, target) {
        Some(h2) => {
            let types = blocks::types_of(h, target);
            lemma_zeroes(w, h, Seq::empty(), types);
            let (h1, args) = blocks::zeroes(h, Seq::empty(), types)->0;
            let inst = Inst::Jump { target, args };
            let r = Request::Emit { block: ir::position(h1)->0, inst };
            assert(inst.targets(target));
            ir::lemma_push(h1, r);
            lemma_run(w, h1, r);
            if is_on(w, h1) {
                lemma_emitted(w, h1, inst);
            }
        },
        None => {},
    }
}

/// Whether the open block is the current one, and goes on.
pub open spec fn is_open(c: Cursor) -> bool {
    &&& c.manager.current is Some
    &&& ir::position(c.code) == c.manager.current
    &&& !ir::terminated(c.code, c.manager.current->0)
}

/// Whether the current block has ended.
pub open spec fn has_ended(h: Seq<Request>) -> bool {
    ir::position(h) is Some && ir::filled(h, ir::position(h)->0)
}

/// What comes of leaving the open block for `target`.
pub proof fn lemma_jump_to(w: World, c: Cursor, target: Block)
    ensures
        c.jump_to(target) matches Some(c1) ==> {
            &&& is_local_to(c.code, c1.code)
            &&& c1.manager.current is None
            &&& forall|x: u32| #[trigger] c1.manager.sealed.contains(x)
                <==> c.manager.sealed.contains(x) || (c.manager.current matches Some(b) && b.0 == x)
            &&& run(w, c.code).at != ir::position(c.code) ==> run(w, c1.code) == run(w, c.code)
            &&& is_open(c) ==> has_ended(c1.code) && ir::has_predecessor(c1.code, target)
            &&& is_open(c) && is_on(w, c.code) ==> {
                &&& run(w, c1.code).at == Some(target)
                &&& run(w, c1.code).variables == run(w, c.code).variables
                &&& run(w, c1.code).memory == run(w, c.code).memory
                &&& run(w, c1.code).result == run(w, c.code).result
            }
            &&& has_ended(c.code) ==> run(w, c1.code) == run(w, c.code) && has_ended(c1.code)
        },
{
    match c.jump_to(target) {
        Some(c1) => {
            match c.manager.current {
                Some(block) => {
                    lemma_jump_with_zeroes(w, c.code, target);
                    let h = if ir::terminated(c.code, block) {
                        c.code
                    } else {
                        blocks::jump_with_zeroes(c.code, target)->0
                    };
                    if has_ended(c.code) {
                        lemma_no_zeroes(c.code, Seq::empty(), blocks::types_of(c.code, target));
                    }
                    if !c.manager.sealed.contains(block.0) {
                        let r = Request::Seal { block };
                        lemma_quiet(w, h, r);
                        ir::lemma_push(h, r);
                    }
                },
                None => {},
            }
        },
        None => {},
    }
}

/// Where a block has ended, nothing can be put into it, be it zeroes or a jump.
proof fn lemma_no_zeroes(h: Seq<Request>, done: Seq<Origin>, types: Seq<Type>)
    requires
        ir::position(h) is Some,
        ir::filled(h, ir::position(h)->0),
    ensures
        blocks::zeroes(h, done, types) matches Some((h1, _)) ==> h1 == h,
{
}

/// What comes of sealing a block.
pub proof fn lemma_seal(w: World, c: Cursor, block: Block)
    ensures
        c.seal(block) matches Some(c1) ==> {
            &&& is_local_to(c.code, c1.code)
            &&& forall|x: u32| #[trigger] c1.manager.sealed.contains(x)
                <==> c.manager.sealed.contains(x) || block.0 == x
            &&& c1.manager.current == if c.manager.current == Some(block)
                && !c.manager.sealed.contains(block.0) {
                None
            } else {
                c.manager.current
            }
            &&& run(w, c.code).at != ir::position(c.code) ==> run(w, c1.code) == run(w, c.code)
            &&& has_ended(c.code) ==> run(w, c1.code) == run(w, c.code) && has_ended(c1.code)
            &&& is_on(w, c.code) && c.manager.current == Some(block) && !ir::terminated(
                c.code,
                block,
            ) && !c.manager.sealed.contains(block.0) ==> {
                &&& run(w, c1.code).at is None
                &&& run(w, c1.code).result == Some(0int)
                &&& run(w, c1.code).memory == run(w, c.code).memory
            }
        },
{
    match c.seal(block) {
        Some(c1) => {
            if !c.manager.sealed.contains(block.0) {
                let closes = c.manager.current == Some(block) && !ir::terminated(c.code, block);
                let h = if closes {
                    blocks::return_zero(c.code, c.manager.int)->0
                } else {
                    c.code
                };
                if closes {
                    lemma_return_zero(w, c.code, c.manager.int);
                }
                let r = Request::Seal { block };
                lemma_quiet(w, h, r);
                ir::lemma_push(h, r);
            } else {
                assert(c1.manager.sealed =~= c.manager.sealed);
            }
        },
        None => {},
    }
}

/// Zero is returned.
pub proof fn lemma_return_zero(w: World, h: Seq<Request>, word: ir::IntType)
    ensures
        blocks::return_zero(h, word) matches Some(h2) ==> {
            &&& is_local_to(h, h2)
            &&& !has_ended(h)
            &&& run(w, h).at != ir::position(h) ==> run(w, h2) == run(w, h)
            &&& is_on(w, h) ==> {
                &&& run(w, h2).at is None
                &&& run(w, h2).result == Some(0int)
                &&& run(w, h2).memory == run(w, h).memory
            }
        },
{
    match blocks::return_zero(h, word) {
        Some(h2) => {
            let zero = Inst::Iconst { ty: word, imm: 0 };
            let h1 = ir::emit(h, zero)->0;
            let back = Inst::Return { args: seq![h1] };
            let at = ir::position(h)->0;
            ir::lemma_push(h, Request::Emit { block: at, inst: zero });
            ir::lemma_push(h1, Request::Emit { block: at, inst: back });
            lemma_run(w, h, Request::Emit { block: at, inst: zero });
            lemma_run(w, h1, Request::Emit { block: at, inst: back });
            if is_on(w, h) {
                lemma_emitted(w, h, zero);
                lemma_emitted(w, h1, back);
            }
        },
        None => {},
    }
}

/// What comes of opening a block, when the current one has ended or control is
/// elsewhere.
pub proof fn lemma_switch_to(w: World, c: Cursor, block: Block)
    ensures
        c.switch_to(block) matches Some(c1) ==> {
            &&& ir::position(c1.code) == Some(block)
            &&& c1.manager.current == Some(block)
            &&& ir::block_count(c1.code) == ir::block_count(c.code)
            &&& forall|b: Block| #[trigger] ir::params(c1.code, b) == ir::params(c.code, b)
            &&& forall|b: Block| ir::position(c.code) != Some(b) ==> #[trigger] ir::inserted(
                c1.code,
                b,
            ) == ir::inserted(c.code, b)
            &&& forall|b: Block| ir::has_predecessor(c.code, b) ==> #[trigger] ir::has_predecessor(
                c1.code,
                b,
            )
            &&& forall|b: Block| ir::position(c.code) != Some(b) ==> #[trigger] ir::terminated(
                c1.code,
                b,
            ) == ir::terminated(c.code, b)
            &&& forall|x: u32| #[trigger] c1.manager.sealed.contains(x)
                <==> c.manager.sealed.contains(x) || (c.manager.current matches Some(b) && b.0 == x)
            &&& run(w, c.code).at != ir::position(c.code) ==> run(w, c1.code) == run(w, c.code)
            &&& has_ended(c.code) ==> run(w, c1.code) == run(w, c.code)
            &&& is_open(c) && is_on(w, c.code) ==> {
                &&& run(w, c1.code).at == Some(block)
                &&& run(w, c1.code).variables == run(w, c.code).variables
                &&& run(w, c1.code).memory == run(w, c.code).memory
                &&& run(w, c1.code).result == run(w, c.code).result
                &&& ir::has_predecessor(c1.code, block)
            }
        },
{
    match c.switch_to(block) {
        Some(c2) => {
            let c1 = c.jump_to(block)->0;
            let r = Request::Switch { block };
            lemma_jump_to(w, c, block);
            ir::lemma_push(c1.code, r);
            lemma_run(w, c1.code, r);
        },
        None => {},
    }
}

// ---------------------------------------------------------------------------
// A block for the next statement

pub proof fn lemma_function_params(w: World, h: Seq<Request>, r: Request, k: nat)
    requires
        r matches Request::AppendParam { block, .. } && block != w.entry,
    ensures
        ({
            let h1 = h + Seq::new(k, |i: int| r);
            &&& run(w, h1) == run(w, h)
            &&& ir::position(h1) == ir::position(h)
            &&& ir::entry(h1) == ir::entry(h)
            &&& ir::block_count(h1) == ir::block_count(h)
            &&& forall|b: Block| #[trigger] ir::inserted(h1, b) == ir::inserted(h, b)
            &&& forall|b: Block| #[trigger] ir::terminated(h1, b) == ir::terminated(h, b)
            &&& forall|b: Block| #[trigger] ir::sealed(h1, b) == ir::sealed(h, b)
            &&& forall|b: Block| #[trigger] ir::has_predecessor(h1, b) == ir::has_predecessor(h, b)
        }),
    decreases k,
{
    if k == 0 {
        assert(h + Seq::new(k, |i: int| r) =~= h);
    } else {
        let less = h + Seq::new((k - 1) as nat, |i: int| r);
        lemma_function_params(w, h, r, (k - 1) as nat);
        ir::lemma_push(less, r);
        lemma_run(w, less, r);
        assert(less.push(r) =~= h + Seq::new(k, |i: int| r));
    }
}

/// The next statement has a block, which control is in.
pub proof fn lemma_fresh_block(c: Setting, l: Lowering, bs: Seq<(Seq<char>, Variable)>)
    requires
        is_ready(c, l, bs),
        is_settled(l.cursor()),
    ensures
        lowering::fresh_block(l) matches Some(l1) ==> {
            &&& is_ready(c, l1, bs)
            &&& is_settled(l1.cursor())
            &&& l1.terminated == l.terminated
            &&& growth::advances(l, l1)
            &&& seen(run(c.world, l1.code), bs) == seen(run(c.world, l.code), bs)
        },
{
    reveal(lowering::fresh_block);
    reveal(is_settled);
    reveal(is_on);
    let w = c.world;
    growth::lemma_fresh_block(l);
    match lowering::fresh_block(l) {
        Some(l3) => {
            let at = l.manager.current->0;
            if ir::inserted(l.code, at) {
                let block = lowering::new_block(Some(l));
                let l1 = lowering::create_known(Some(l))->0;
                let l2 = lowering::append_function_params(Some(l1), block)->0;
                sequel::lemma_count(l.code);
                ir::lemma_push(l.code, Request::CreateBlock);
                lemma_quiet(w, l.code, Request::CreateBlock);
                assert(l1.code == l.code.push(Request::CreateBlock));
                let r = Request::AppendParam { block, ty: Type::Int(ir::signature(l1.code).int) };
                let k = ir::signature(l1.code).params as nat;
                assert(c.world.entry != block);
                lemma_function_params(w, l1.code, r, k);
                assert(Seq::new(k, |i: int| r) =~= Seq::new(
                    k,
                    |i: int| Request::AppendParam {
                        block,
                        ty: Type::Int(ir::signature(l1.code).int),
                    },
                ));
                assert(l2.code == l1.code + Seq::new(k, |i: int| r));
                assert(!ir::inserted(l.code, block)) by {
                    reveal(ir::is_orderly);
                }
                assert(block != at && ir::created(l.code, at)) by {
                    reveal(ir::is_orderly);
                }
                lemma_untouched(l2.code, block);
                assert(is_on(w, l2.code));
                lemma_switch_to(w, l2.cursor(), block);
                ir::lemma_created(l.code, l3.code);
                crate::execution::lemma_titled(c, l, l3);
                reveal(tracks);
                assert(seen(run(w, l3.code), bs).locals =~= seen(run(w, l.code), bs).locals);
            }
        },
        None => {},
    }
}

} // verus!
