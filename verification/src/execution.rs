//! How code runs, request by request.
use vstd::prelude::*;

use crate::growth;
use crate::growth::title;
use crate::ir;
use crate::ir::{Block, DataRef, FuncRef, Inst, Origin, Request, Variable};
use crate::lowering;
use crate::lowering::{stack_of, Lowering};
use crate::machine::{
    imported_data, imported_function, lemma_run, numbers, pass, run, Machine, World,
};
use crate::meaning::{Setting, Store};
use crate::module::ModuleState;
use crate::sequel::{follows, lemma_prefix};

verus! {

// ---------------------------------------------------------------------------
// What follows leaves alone

/// The current block stays, or is a new one.
pub proof fn lemma_position(h: Seq<Request>, n: nat, h1: Seq<Request>)
    requires
        follows(h, n, h1),
    ensures
        ir::position(h1) == ir::position(h) || (ir::position(h1) matches Some(b) && b.0 >= n),
        forall|b: Block| ir::has_predecessor(h, b) ==> #[trigger] ir::has_predecessor(h1, b),
        forall|b: Block| ir::terminated(h, b) && b.0 < n && ir::position(h) != Some(b)
            ==> #[trigger] ir::terminated(h1, b),
    decreases h1.len(),
{
    reveal(follows);
    if h1.len() > h.len() {
        lemma_position(h, n, h1.drop_last());
        ir::lemma_push(h1.drop_last(), h1.last());
        assert(h1.drop_last().push(h1.last()) =~= h1);
    }
}

/// The parameters of blocks that were there stay, and those of new blocks are new.
pub proof fn lemma_params(h: Seq<Request>, n: nat, h1: Seq<Request>)
    requires
        follows(h, n, h1),
    ensures
        forall|b: Block| b.0 < n ==> #[trigger] ir::params(h1, b) == ir::params(h, b),
        ir::is_orderly(h) && n == ir::block_count(h) ==> forall|b: Block, i: int|
            b.0 >= n && 0 <= i < ir::params(h1, b).len() ==> (
            #[trigger] ir::params(h1, b)[i]).len() > h.len(),
    decreases h1.len(),
{
    reveal(follows);
    if h1.len() > h.len() {
        let h2 = h1.drop_last();
        lemma_params(h, n, h2);
        lemma_prefix(h, n, h2);
        ir::lemma_push(h2, h1.last());
        assert(h2.push(h1.last()) =~= h1);
    } else {
        reveal(ir::is_orderly);
    }
}

proof fn lemma_pass(values: Map<Origin, int>, params: Seq<Origin>, args: Seq<int>, o: Origin)
    requires
        forall|i: int| 0 <= i < params.len() ==> #[trigger] params[i] != o,
    ensures
        pass(values, params, args)[o] == values[o],
    decreases params.len(),
{
    if params.len() != 0 && args.len() != 0 {
        assert forall|i: int| 0 <= i < params.skip(1).len() implies #[trigger] params.skip(1)[i]
            != o by {
            assert(params.skip(1)[i] == params[i + 1]);
        }
        assert(params[0] != o);
        lemma_pass(values.insert(params[0], args[0]), params.skip(1), args.skip(1), o);
    }
}

/// Values that were there stay.
#[verifier::spinoff_prover]
pub proof fn lemma_kept(w: World, h: Seq<Request>, n: nat, h1: Seq<Request>, o: Origin)
    requires
        follows(h, n, h1),
        ir::is_orderly(h),
        n == ir::block_count(h),
        o.len() <= h.len(),
    ensures
        run(w, h1).values[o] == run(w, h).values[o],
    decreases h1.len(),
{
    reveal(follows);
    reveal(run);
    if h1.len() > h.len() {
        let h2 = h1.drop_last();
        lemma_kept(w, h, n, h2, o);
        lemma_prefix(h, n, h2);
        lemma_params(h, n, h2);
        assert(h2.push(h1.last()) =~= h1);
        match h1.last() {
            Request::Emit { block, inst } => {
                let m = run(w, h2);
                match inst {
                    Inst::Jump { target, args } => {
                        assert(inst.targets(target));
                        lemma_pass(
                            m.values,
                            ir::params(h2, target),
                            numbers(m.values, args),
                            o,
                        );
                    },
                    Inst::Brif { then_block, then_args, else_block, else_args, .. } => {
                        assert(inst.targets(then_block));
                        assert(inst.targets(else_block));
                        lemma_pass(
                            m.values,
                            ir::params(h2, then_block),
                            numbers(m.values, then_args),
                            o,
                        );
                        lemma_pass(
                            m.values,
                            ir::params(h2, else_block),
                            numbers(m.values, else_args),
                            o,
                        );
                    },
                    _ => {},
                }
            },
            _ => {},
        }
    }
}

/// What is put elsewhere is passed by.
pub proof fn lemma_idle(w: World, h: Seq<Request>, n: nat, h1: Seq<Request>)
    requires
        follows(h, n, h1),
        run(w, h).at matches Some(b) ==> b.0 < n && ir::position(h) != Some(b),
        w.entry.0 < n,
    ensures
        run(w, h1) == run(w, h),
    decreases h1.len(),
{
    reveal(follows);
    reveal(run);
    if h1.len() > h.len() {
        let h2 = h1.drop_last();
        lemma_idle(w, h, n, h2);
        lemma_position(h, n, h2);
        assert(h2.push(h1.last()) =~= h1);
    }
}

// ---------------------------------------------------------------------------
// Single requests

/// Whether control is where the next request is made, and can have got there.
#[verifier::opaque]
pub open spec fn is_on(w: World, h: Seq<Request>) -> bool {
    &&& ir::position(h) is Some
    &&& run(w, h).at == ir::position(h)
    &&& !ir::unreachable(h)
}

/// An instruction is carried out; unless it is the last of its block, control
/// stays.
pub proof fn lemma_emitted(w: World, h: Seq<Request>, inst: Inst)
    requires
        is_on(w, h),
    ensures
        ir::emit(h, inst) matches Some(h1) ==> {
            &&& run(w, h1) == run(w, h).perform(w, h, inst, h1)
            &&& ir::position(h1) == ir::position(h)
            &&& h1.len() == h.len() + 1
            &&& !inst.is_terminator() ==> is_on(w, h1)
        },
{
    reveal(is_on);
    if ir::emit(h, inst) is Some {
        let r = Request::Emit { block: ir::position(h)->0, inst };
        lemma_run(w, h, r);
        ir::lemma_push(h, r);
    }
}

/// Requests that are not for any block change nothing.
pub proof fn lemma_quiet(w: World, h: Seq<Request>, r: Request)
    requires
        r is ImportSignature || r is ImportFunction || r is ImportData || r is CreateBlock
            || r is DeclareVar || r is Seal,
    ensures
        run(w, h.push(r)) == run(w, h),
        ir::position(h.push(r)) == ir::position(h),
        is_on(w, h) && r !is Seal ==> is_on(w, h.push(r)),
{
    reveal(is_on);
    lemma_run(w, h, r);
    ir::lemma_push(h, r);
}

pub proof fn lemma_defined(w: World, h: Seq<Request>, var: Variable, value: Origin)
    requires
        is_on(w, h),
    ensures
        ir::def_var(h, var, value) matches Some(h1) ==> {
            let m = run(w, h);
            &&& run(w, h1) == (Machine {
                variables: m.variables.insert(var, m.values[value]),
                ..m
            })
            &&& is_on(w, h1)
            &&& ir::position(h1) == ir::position(h)
            &&& h1.len() == h.len() + 1
        },
{
    reveal(is_on);
    let r = Request::DefVar { var, value };
    lemma_run(w, h, r);
    ir::lemma_push(h, r);
}

pub proof fn lemma_used(w: World, h: Seq<Request>, var: Variable)
    requires
        is_on(w, h),
    ensures
        ir::use_var(h, var) matches Some(h1) ==> {
            &&& run(w, h1) == run(w, h).with_value(h1, run(w, h).variable(var))
            &&& is_on(w, h1)
            &&& ir::position(h1) == ir::position(h)
        },
{
    reveal(is_on);
    if ir::use_var(h, var) is Some {
        let r = Request::UseVar { block: ir::position(h)->0, var };
        lemma_run(w, h, r);
        ir::lemma_push(h, r);
    }
}

proof fn lemma_imports(h: Seq<Request>)
    ensures
        ir::data_imports(h) <= h.len(),
        ir::function_imports(h) <= h.len(),
    decreases h.len(),
{
    if h.len() != 0 {
        lemma_imports(h.drop_last());
    }
}

/// What is imported last has the last number.
pub proof fn lemma_imported(h: Seq<Request>, r: Request)
    requires
        ir::import(h, r) is Some,
    ensures
        r matches Request::ImportData { data } ==> imported_data(
            h.push(r),
            DataRef(ir::data_imports(h) as u32),
        ) == data,
        r matches Request::ImportFunction { func, .. } ==> imported_function(
            h.push(r),
            FuncRef(ir::function_imports(h) as u32),
        ) == func,
{
    lemma_imports(h);
    assert(h.push(r).drop_last() =~= h);
}

// ---------------------------------------------------------------------------
// The store

/// The variables of a name, in the order in which they were declared.
pub open spec fn pick(bs: Seq<(Seq<char>, Variable)>, name: Seq<char>) -> Seq<Variable>
    decreases bs.len(),
{
    if bs.len() == 0 {
        Seq::empty()
    } else if bs.last().0 == name {
        pick(bs.drop_last(), name).push(bs.last().1)
    } else {
        pick(bs.drop_last(), name)
    }
}

/// Whether `bs` are the local variables, the innermost last.
#[verifier::opaque]
pub open spec fn tracks(l: Lowering, bs: Seq<(Seq<char>, Variable)>) -> bool {
    &&& forall|name: Seq<char>| #[trigger] stack_of(l.locals, name) == pick(bs, name)
    &&& forall|i: int| 0 <= i < bs.len() ==> (#[trigger] bs[i]).1.0 < l.next_var
    &&& forall|i: int, j: int|
        0 <= i < j < bs.len() ==> (#[trigger] bs[i]).1 != (#[trigger] bs[j]).1
    &&& forall|name: Seq<char>| #[trigger]
        l.locals.contains_key(name) ==> l.locals[name].len() != 0
}

/// What a program sees of a machine.
pub open spec fn seen(m: Machine, bs: Seq<(Seq<char>, Variable)>) -> Store {
    Store {
        locals: Seq::new(bs.len(), |i: int| (bs[i].0, m.variable(bs[i].1))),
        memory: m.memory,
    }
}

/// Whether all that has been lowered is in the setting.
pub open spec fn fits_in(l: Lowering, c: Setting) -> bool {
    l.module.grows_to(c.module) && l.globals.submap_of(c.globals)
}

/// Whether the names for string literals to come are free, but for those that
/// were taken before the program, or for a global variable.
#[verifier::opaque]
pub open spec fn is_titled(c: Setting, l: Lowering) -> bool {
    forall|k: nat| #[trigger]
        l.globals.contains_key(title(k)) && k >= l.strings ==> c.older.contains(
            l.globals[title(k)],
        ) || growth::is_variable(l.module, l.globals[title(k)])
}

/// Whether control is at the point where lowering is.
pub open spec fn is_ready(c: Setting, l: Lowering, bs: Seq<(Seq<char>, Variable)>) -> bool {
    &&& is_on(c.world, l.code)
    &&& run(c.world, l.code).result is None
    &&& ir::is_orderly(l.code)
    &&& ir::created(l.code, c.world.entry)
    &&& l.word.bits == c.world.bits
    &&& tracks(l, bs)
    &&& is_titled(c, l)
}

/// What a global variable is remains.
pub proof fn lemma_titled(c: Setting, l: Lowering, l1: Lowering)
    requires
        is_titled(c, l),
        growth::feeds(l, l1),
    ensures
        is_titled(c, l1),
{
    reveal(is_titled);
    reveal(ModuleState::grows_to);
    assert forall|k: nat| #[trigger]
        l1.globals.contains_key(title(k)) && k >= l1.strings implies c.older.contains(
        l1.globals[title(k)],
    ) || growth::is_variable(l1.module, l1.globals[title(k)]) by {
        if l.globals.contains_key(title(k)) {
            let id = l.globals[title(k)];
            assert(l.globals.dom().contains(title(k)));
            assert(l1.globals[title(k)] == id);
            if growth::is_variable(l.module, id) {
                assert(l.module.data[id.0 as int].becomes(l1.module.data[id.0 as int]));
            }
        }
    }
}

/// What is in the setting later is in it before.
pub proof fn lemma_fits_in(l: Lowering, l1: Lowering, c: Setting)
    requires
        growth::feeds(l, l1),
        fits_in(l1, c),
    ensures
        fits_in(l, c),
{
    growth::lemma_grows(l.module, l1.module, c.module);
    vstd::map_lib::lemma_submap_of_trans(l.globals, l1.globals, c.globals);
}

} // verus!
