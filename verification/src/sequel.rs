//! Requests that leave blocks alone.
use vstd::prelude::*;

use crate::ir;
use crate::ir::{Block, Inst, IntType, Origin, Request, Type, Variable};

verus! {

/// Whether a request after `h` is one of the current block or of the blocks
/// from the `n`th on.
pub open spec fn regular(h: Seq<Request>, r: Request, n: nat) -> bool {
    match r {
        Request::Begin { .. } => false,
        Request::AppendParam { block, .. } => block.0 >= n,
        Request::Switch { block } => block.0 >= n,
        Request::UseVar { block, .. } => ir::position(h) == Some(block),
        Request::Emit { block, inst } => ir::position(h) == Some(block) && forall|b: Block|
            #[trigger]
            inst.targets(b) ==> b.0 >= n,
        _ => true,
    }
}

/// Whether `h1` is `h`, followed by requests of the block that was the current
/// one after `h`, and of blocks from the `n`th on.
#[verifier::opaque]
pub open spec fn follows(h: Seq<Request>, n: nat, h1: Seq<Request>) -> bool
    decreases h1.len(),
{
    if h1.len() <= h.len() {
        h1 == h && n <= ir::block_count(h)
    } else {
        regular(h1.drop_last(), h1.last(), n) && follows(h, n, h1.drop_last())
    }
}

pub proof fn lemma_follows(h: Seq<Request>, n: nat, h1: Seq<Request>, r: Request)
    requires
        follows(h, n, h1),
        regular(h1, r, n),
    ensures
        follows(h, n, h1.push(r)),
        ir::block_count(h1) <= ir::block_count(h1.push(r)),
{
    reveal(follows);
    ir::lemma_push(h1, r);
    lemma_prefix(h, n, h1);
    assert(h1.push(r).drop_last() =~= h1);
}

/// Nothing has followed yet.
pub proof fn lemma_start(h: Seq<Request>, n: nat)
    requires
        n <= ir::block_count(h),
    ensures
        follows(h, n, h),
{
    reveal(follows);
}

pub proof fn lemma_prefix(h: Seq<Request>, n: nat, h1: Seq<Request>)
    requires
        follows(h, n, h1),
    ensures
        h.is_prefix_of(h1),
        h.len() <= h1.len(),
        n <= ir::block_count(h) <= ir::block_count(h1),
    decreases h1.len(),
{
    reveal(follows);
    if h1.len() > h.len() {
        lemma_prefix(h, n, h1.drop_last());
        assert(h =~= h1.subrange(0, h.len() as int));
    } else {
        assert(h =~= h1.subrange(0, h.len() as int));
    }
}

// ---------------------------------------------------------------------------
// Requests

pub broadcast proof fn lemma_emit(h: Seq<Request>, n: nat, h1: Seq<Request>, inst: Inst)
    requires
        #[trigger] follows(h, n, h1),
        forall|b: Block| #[trigger] inst.targets(b) ==> b.0 >= n,
    ensures
        #[trigger] ir::emit(h1, inst) matches Some(h2) ==> follows(h, n, h2)
            && ir::block_count(h1) <= ir::block_count(h2),
{
    if ir::emit(h1, inst) is Some {
        lemma_follows(h, n, h1, Request::Emit { block: ir::position(h1)->0, inst });
    }
}

pub broadcast proof fn lemma_create(h: Seq<Request>, n: nat, h1: Seq<Request>)
    requires
        #[trigger] follows(h, n, h1),
    ensures
        #[trigger] ir::create_block(h1) matches Some(h2) ==> follows(h, n, h2)
            && ir::block_count(h1) <= ir::block_count(h2)
            && ir::next_block(h1).0 >= n,
{
    if ir::create_block(h1) is Some {
        lemma_follows(h, n, h1, Request::CreateBlock);
        lemma_prefix(h, n, h1);
        lemma_count(h1);
    }
}

/// The numbers of blocks are what they are.
pub proof fn lemma_count(h: Seq<Request>)
    ensures
        ir::create_block(h) matches Some(h1) ==> ir::next_block(h).0 == ir::block_count(h)
            && ir::block_count(h1) == ir::block_count(h) + 1,
{
    if ir::create_block(h) is Some {
        ir::lemma_push(h, Request::CreateBlock);
        ir::lemma_fits_less(h.push(Request::CreateBlock), 0, 0);
    }
}

pub broadcast proof fn lemma_param(
    h: Seq<Request>,
    n: nat,
    h1: Seq<Request>,
    block: Block,
    ty: IntType,
)
    requires
        #[trigger] follows(h, n, h1),
        block.0 >= n,
    ensures
        #[trigger] ir::append_param(h1, block, ty) matches Some(h2) ==> follows(h, n, h2)
            && ir::block_count(h1) <= ir::block_count(h2),
{
    lemma_follows(h, n, h1, Request::AppendParam { block, ty: Type::Int(ty) });
}

proof fn lemma_params(h: Seq<Request>, n: nat, h1: Seq<Request>, r: Request, k: nat)
    requires
        follows(h, n, h1),
        r is AppendParam,
        regular(h1, r, n),
    ensures
        follows(h, n, h1 + Seq::new(k, |i: int| r)),
        ir::block_count(h1) <= ir::block_count(h1 + Seq::new(k, |i: int| r)),
    decreases k,
{
    if k == 0 {
        assert(h1 + Seq::new(k, |i: int| r) =~= h1);
    } else {
        let less = Seq::new((k - 1) as nat, |i: int| r);
        lemma_params(h, n, h1, r, (k - 1) as nat);
        lemma_follows(h, n, h1 + less, r);
        assert((h1 + less).push(r) =~= h1 + Seq::new(k, |i: int| r));
    }
}

pub broadcast proof fn lemma_function_params(
    h: Seq<Request>,
    n: nat,
    h1: Seq<Request>,
    block: Block,
)
    requires
        #[trigger] follows(h, n, h1),
        block.0 >= n,
    ensures
        #[trigger] ir::append_function_params(h1, block) matches Some(h2) ==> follows(h, n, h2)
            && ir::block_count(h1) <= ir::block_count(h2),
{
    let r = Request::AppendParam { block, ty: Type::Int(ir::signature(h1).int) };
    let k = ir::signature(h1).params as nat;
    lemma_params(h, n, h1, r, k);
    assert(Seq::new(k, |i: int| r) =~= Seq::new(
        k,
        |i: int| Request::AppendParam { block, ty: Type::Int(ir::signature(h1).int) },
    ));
}

pub broadcast proof fn lemma_switch(h: Seq<Request>, n: nat, h1: Seq<Request>, block: Block)
    requires
        #[trigger] follows(h, n, h1),
        block.0 >= n,
    ensures
        #[trigger] ir::switch_to(h1, block) matches Some(h2) ==> follows(h, n, h2)
            && ir::block_count(h1) <= ir::block_count(h2),
{
    lemma_follows(h, n, h1, Request::Switch { block });
}

pub broadcast proof fn lemma_seal(h: Seq<Request>, n: nat, h1: Seq<Request>, block: Block)
    requires
        #[trigger] follows(h, n, h1),
    ensures
        #[trigger] ir::seal(h1, block) matches Some(h2) ==> follows(h, n, h2)
            && ir::block_count(h1) <= ir::block_count(h2),
{
    lemma_follows(h, n, h1, Request::Seal { block });
}

pub broadcast proof fn lemma_declare(
    h: Seq<Request>,
    n: nat,
    h1: Seq<Request>,
    var: Variable,
    ty: IntType,
)
    requires
        #[trigger] follows(h, n, h1),
    ensures
        #[trigger] ir::declare_var(h1, var, ty) matches Some(h2) ==> follows(h, n, h2)
            && ir::block_count(h1) <= ir::block_count(h2),
{
    lemma_follows(h, n, h1, Request::DeclareVar { var, ty });
}

pub broadcast proof fn lemma_def(
    h: Seq<Request>,
    n: nat,
    h1: Seq<Request>,
    var: Variable,
    value: Origin,
)
    requires
        #[trigger] follows(h, n, h1),
    ensures
        #[trigger] ir::def_var(h1, var, value) matches Some(h2) ==> follows(h, n, h2)
            && ir::block_count(h1) <= ir::block_count(h2),
{
    lemma_follows(h, n, h1, Request::DefVar { var, value });
}

pub broadcast proof fn lemma_use(h: Seq<Request>, n: nat, h1: Seq<Request>, var: Variable)
    requires
        #[trigger] follows(h, n, h1),
    ensures
        #[trigger] ir::use_var(h1, var) matches Some(h2) ==> follows(h, n, h2)
            && ir::block_count(h1) <= ir::block_count(h2),
{
    if ir::use_var(h1, var) is Some {
        lemma_follows(h, n, h1, Request::UseVar { block: ir::position(h1)->0, var });
    }
}

pub broadcast proof fn lemma_import(h: Seq<Request>, n: nat, h1: Seq<Request>, r: Request)
    requires
        #[trigger] follows(h, n, h1),
        r is ImportSignature || r is ImportFunction || r is ImportData,
    ensures
        #[trigger] ir::import(h1, r) matches Some(h2) ==> follows(h, n, h2)
            && ir::block_count(h1) <= ir::block_count(h2),
{
    lemma_follows(h, n, h1, r);
}

pub broadcast group group_follows {
    lemma_emit,
    lemma_create,
    lemma_param,
    lemma_function_params,
    lemma_switch,
    lemma_seal,
    lemma_declare,
    lemma_def,
    lemma_use,
    lemma_import,
}

} // verus!
