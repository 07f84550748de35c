//! What the code of expressions computes.
use vstd::prelude::*;

use crate::ast::{Expression, Field, InfixOp, Number, UnaryOp};
use crate::execution::{
    fits_in, is_on, is_ready, is_titled, lemma_emitted, lemma_fits_in, lemma_idle, lemma_imported,
    lemma_kept, lemma_params, lemma_position, lemma_quiet, lemma_titled, lemma_used, pick, seen,
    tracks,
};
use crate::growth;
use crate::growth::title;
use crate::ir;
use crate::ir::{Block, DataRef, FuncRef, Inst, IntCC, Origin, Request, Signature, Variable};
use crate::lowering;
use crate::lowering::{stack_of, Lowering};
use crate::machine;
use crate::machine::{lemma_run, numbers, pass, run, Machine, World};
use crate::meaning;
use crate::meaning::{
    concatenates, evaluates, lookup, negates, operate, operate_all, selects, Setting, Store,
};
use crate::module::{ModuleState, Symbol};
use crate::paths;
use crate::sequel;
use crate::sequel::lemma_start;

verus! {

/// Whether control has gone on from `l` to `l1`, where `v` is known.
pub open spec fn arrives(c: Setting, l: Lowering, l1: Lowering, v: Origin) -> bool {
    let m = run(c.world, l.code);
    let m1 = run(c.world, l1.code);
    &&& is_on(c.world, l1.code)
    &&& m1.variables == m.variables
    &&& m1.result == m.result
    &&& v.len() <= l1.code.len()
}

/// Control stays at the point where lowering is.
pub proof fn lemma_ready(
    c: Setting,
    l: Lowering,
    l1: Lowering,
    v: Origin,
    bs: Seq<(Seq<char>, Variable)>,
)
    requires
        is_ready(c, l, bs),
        growth::computes(l, l1),
        arrives(c, l, l1, v),
    ensures
        is_ready(c, l1, bs),
{
    reveal(tracks);
    ir::lemma_created(l.code, l1.code);
    lemma_titled(c, l, l1);
}

// ---------------------------------------------------------------------------
// Addresses

/// A global variable has an address.
pub proof fn lemma_global_pointer(
    w: World,
    l: Lowering,
    name: Seq<char>,
    initializer: Option<Seq<u8>>,
)
    requires
        is_on(w, l.code),
        l.word.bits == w.bits,
    ensures
        lowering::global_pointer(l, name, initializer) matches Some((l1, v)) ==> {
            &&& v == l1.code
            &&& is_on(w, l1.code)
            &&& l1.globals.contains_key(name)
            &&& l1.globals[name].0 < l1.module.data.len()
            &&& run(w, l1.code) == run(w, l.code).with_value(v, (w.data)(l1.globals[name]))
            &&& l.globals.contains_key(name) ==> l1.globals[name] == l.globals[name]
            &&& !l.globals.contains_key(name) ==> l1.module.data[l1.globals[name].0
                as int].contents == Some(lowering::initial(initializer))
        },
{
    reveal(lowering::global_pointer);
    match lowering::global_pointer(l, name, initializer) {
        Some((l2, v)) => {
            let (l1, id) = lowering::declare_global(l, name, initializer)->0;
            let r = Request::ImportData { data: id };
            lemma_imported(l1.code, r);
            lemma_quiet(w, l1.code, r);
            let data = DataRef(ir::data_imports(l1.code) as u32);
            lemma_emitted(w, l1.code.push(r), Inst::SymbolValue { ty: l1.word, data });
        },
        None => {},
    }
}

/// The cell of a global variable is where its address says.
pub proof fn lemma_cell(l: Lowering, name: Seq<char>, c: Setting)
    requires
        l.globals.contains_key(name),
        fits_in(l, c),
    ensures
        c.cell(name) == (c.world.data)(l.globals[name]),
{
    assert(l.globals.dom().contains(name));
    assert(c.globals.dom().contains(name));
}

/// A string is where its address says.
pub proof fn lemma_string_pointer(c: Setting, l: Lowering, bytes: Seq<u8>)
    requires
        is_on(c.world, l.code),
        l.word.bits == c.world.bits,
        is_titled(c, l),
        lowering::string_pointer(l, bytes) matches Some((l1, _)) ==> fits_in(l1, c),
    ensures
        lowering::string_pointer(l, bytes) matches Some((l1, v)) ==> {
            let x = run(c.world, l1.code).values[v];
            &&& v == l1.code
            &&& is_on(c.world, l1.code)
            &&& run(c.world, l1.code) == run(c.world, l.code).with_value(v, x)
            &&& c.is_text(bytes, x)
        },
{
    reveal(lowering::string_pointer);
    reveal(is_titled);
    match lowering::string_pointer(l, bytes) {
        Some((l2, v)) => {
            let l1 = lowering::made_up(l)->0;
            let name = title(l.strings);
            lemma_global_pointer(c.world, l1, name, Some(bytes));
            reveal(ModuleState::grows_to);
            let id = l2.globals[name];
            assert(l2.module.data[id.0 as int].becomes(c.module.data[id.0 as int]));
            if l.globals.contains_key(name) {
                assert(l.globals.contains_key(title(l.strings)));
                if growth::is_variable(l.module, id) {
                    growth::lemma_string_pointer(l, bytes);
                    assert(l.module.data[id.0 as int].becomes(l2.module.data[id.0 as int]));
                }
            }
            assert(lowering::initial(None) =~= Seq::new(8, |i: int| 0u8));
            assert(c.holds(id, bytes));
        },
        None => {},
    }
}

/// A helper function is the one of that name.
pub proof fn lemma_import_helper(c: Setting, l: Lowering, name: Seq<char>, params: usize)
    requires
        is_on(c.world, l.code),
        lowering::import_helper(l, name, params) matches Some((l1, _)) ==> fits_in(l1, c),
    ensures
        lowering::import_helper(l, name, params) matches Some((l1, callee)) ==> {
            &&& is_on(c.world, l1.code)
            &&& run(c.world, l1.code) == run(c.world, l.code)
            &&& (c.world.code)(machine::imported_function(l1.code, callee)) == c.helper(name)
            &&& l.code.len() <= l1.code.len()
        },
{
    match lowering::import_helper(l, name, params) {
        Some((l1, callee)) => {
            let signature = Signature { int: l.word, params, returns: 1 };
            let id = l.module.function_named(name, signature)->0;
            let r = l1.module.import_of(id);
            lemma_imported(l.code, r);
            lemma_quiet(c.world, l.code, r);
            reveal(ModuleState::grows_to);
            assert(l1.module.names.dom().contains(name));
            assert(c.module.names.dom().contains(name));
            assert(l1.module.names[name] == Symbol::Function(id));
            assert(c.module.names[name] == Symbol::Function(id));
        },
        None => {},
    }
}

/// A helper function is called.
pub proof fn lemma_call_helper(c: Setting, l: Lowering, name: Seq<char>, args: Seq<Origin>)
    requires
        is_on(c.world, l.code),
        lowering::call_helper(l, name, args) matches Some((l1, _)) ==> fits_in(l1, c),
    ensures
        lowering::call_helper(l, name, args) matches Some((l1, v)) ==> {
            let m = run(c.world, l.code);
            &&& v == l1.code
            &&& v.len() > l.code.len()
            &&& is_on(c.world, l1.code)
            &&& run(c.world, l1.code) == m.called(c.world, v, c.helper(name), args)
        },
{
    reveal(lowering::call_helper);
    match lowering::call_helper(l, name, args) {
        Some((l2, v)) => {
            let (l1, callee) = lowering::import_helper(l, name, args.len() as usize)->0;
            lemma_import_helper(c, l, name, args.len() as usize);
            lemma_emitted(c.world, l1.code, Inst::Call { callee, args });
        },
        None => {},
    }
}

/// What a machine that has called a function looks like.
pub proof fn lemma_called(
    c: Setting,
    m: Machine,
    v: Origin,
    address: int,
    args: Seq<Origin>,
    xs: Seq<int>,
    bs: Seq<(Seq<char>, Variable)>,
)
    requires
        numbers(m.values, args) == xs,
    ensures
        ({
            let m1 = m.called(c.world, v, address, args);
            &&& m1.values[v] == c.answer(address, xs, seen(m, bs))
            &&& seen(m1, bs) == c.after(address, xs, seen(m, bs))
        }),
{
    let m1 = m.called(c.world, v, address, args);
    assert(seen(m1, bs).locals =~= seen(m, bs).locals);
}

/// What a value leaves of the store.
pub proof fn lemma_with_value(m: Machine, v: Origin, x: int, bs: Seq<(Seq<char>, Variable)>)
    ensures
        seen(m.with_value(v, x), bs) == seen(m, bs),
{
    assert(seen(m.with_value(v, x), bs).locals =~= seen(m, bs).locals);
}

// ---------------------------------------------------------------------------
// Operators

pub proof fn lemma_apply(w: World, l: Lowering, op: InfixOp, x: Origin, y: Origin)
    requires
        is_on(w, l.code),
        l.word.bits == w.bits,
    ensures
        lowering::apply(l, op, x, y) matches Some((l1, v)) ==> {
            let m = run(w, l.code);
            let m1 = run(w, l1.code);
            &&& v == l1.code
            &&& l1.code.len() > l.code.len()
            &&& l1.word == l.word
            &&& is_on(w, l1.code)
            &&& m1.at == m.at
            &&& m1.variables == m.variables
            &&& m1.memory == m.memory
            &&& m1.result == m.result
            &&& m1.values[v] == operate(op, m.values[x], m.values[y], w.bits)
            &&& forall|o: Origin| o.len() <= l.code.len() ==> #[trigger] m1.values[o]
                == m.values[o]
        },
{
    match lowering::apply(l, op, x, y) {
        Some((l1, v)) => {
            match lowering::arithmetic(op) {
                Some(inst) => {
                    lemma_emitted(w, l.code, Inst::Binary { op: inst, x, y });
                },
                None => {
                    let inst = Inst::Icmp { cc: lowering::comparison(op)->0, x, y };
                    let l2 = lowering::emit(Some(l), inst)->0;
                    lemma_emitted(w, l.code, inst);
                    lemma_emitted(w, l2.code, Inst::Uextend { ty: l2.word, arg: l2.code });
                },
            }
        },
        None => {},
    }
}

pub proof fn lemma_apply_all(
    w: World,
    l: Lowering,
    op: InfixOp,
    first: Origin,
    others: Seq<Origin>,
)
    requires
        is_on(w, l.code),
        l.word.bits == w.bits,
        first.len() <= l.code.len(),
        forall|i: int| 0 <= i < others.len() ==> (#[trigger] others[i]).len() <= l.code.len(),
    ensures
        lowering::apply_all(l, op, first, others) matches Some((l1, v)) ==> {
            let m = run(w, l.code);
            let m1 = run(w, l1.code);
            &&& v.len() <= l1.code.len()
            &&& is_on(w, l1.code)
            &&& m1.variables == m.variables
            &&& m1.memory == m.memory
            &&& m1.result == m.result
            &&& m1.values[v] == operate_all(
                op,
                m.values[first],
                numbers(m.values, others),
                w.bits,
            )
        },
    decreases others.len(),
{
    let m = run(w, l.code);
    if others.len() != 0 {
        lemma_apply(w, l, op, first, others[0]);
        match lowering::apply(l, op, first, others[0]) {
            Some((l1, v)) => {
                let m1 = run(w, l1.code);
                assert forall|i: int| 0 <= i < others.skip(1).len() implies (
                #[trigger] others.skip(1)[i]).len() <= l1.code.len() by {
                    assert(others.skip(1)[i] == others[i + 1]);
                }
                lemma_apply_all(w, l1, op, v, others.skip(1));
                assert(others[0].len() <= l.code.len());
                assert(numbers(m.values, others)[0] == m.values[others[0]]);
                assert forall|i: int| 0 <= i < others.skip(1).len() implies m1.values[
                #[trigger] others.skip(1)[i]] == m.values[others[i + 1]] by {
                    assert(others.skip(1)[i] == others[i + 1]);
                    assert(others[i + 1].len() <= l.code.len());
                }
                assert(numbers(m.values, others).skip(1) =~= numbers(m1.values, others.skip(1)));
            },
            None => {},
        }
    }
}

pub proof fn lemma_call_chain(
    c: Setting,
    l: Lowering,
    callee: FuncRef,
    first: Origin,
    others: Seq<Origin>,
    bs: Seq<(Seq<char>, Variable)>,
)
    requires
        is_on(c.world, l.code),
        (c.world.code)(machine::imported_function(l.code, callee)) == c.helper("lua_concat"@),
        first.len() <= l.code.len(),
        forall|i: int| 0 <= i < others.len() ==> (#[trigger] others[i]).len() <= l.code.len(),
    ensures
        lowering::call_chain(l, callee, first, others) matches Some((l1, v)) ==> {
            let m = run(c.world, l.code);
            let m1 = run(c.world, l1.code);
            &&& v.len() <= l1.code.len()
            &&& is_on(c.world, l1.code)
            &&& m1.variables == m.variables
            &&& m1.result == m.result
            &&& concatenates(
                c,
                m.values[first],
                numbers(m.values, others),
                seen(m, bs),
                seen(m1, bs),
                m1.values[v],
            )
        },
    decreases others.len(),
{
    reveal(concatenates);
    let m = run(c.world, l.code);
    if others.len() != 0 {
        let args = seq![first, others[0]];
        let inst = Inst::Call { callee, args };
        match lowering::emit(Some(l), inst) {
            Some(l1) => {
                let m1 = run(c.world, l1.code);
                lemma_emitted(c.world, l.code, inst);
                assert(machine::imported_function(l1.code, callee) == machine::imported_function(
                    l.code,
                    callee,
                )) by {
                    assert(l1.code.drop_last() =~= l.code);
                }
                assert forall|i: int| 0 <= i < others.skip(1).len() implies (
                #[trigger] others.skip(1)[i]).len() <= l1.code.len() by {
                    assert(others.skip(1)[i] == others[i + 1]);
                }
                lemma_call_chain(c, l1, callee, l1.code, others.skip(1), bs);
                assert(numbers(m.values, args) =~= seq![m.values[first], m.values[others[0]]]);
                assert(others[0].len() <= l.code.len());
                assert(numbers(m.values, others)[0] == m.values[others[0]]);
                lemma_called(
                    c,
                    m,
                    l1.code,
                    c.helper("lua_concat"@),
                    args,
                    seq![m.values[first], m.values[others[0]]],
                    bs,
                );
                assert forall|i: int| 0 <= i < others.skip(1).len() implies m1.values[
                #[trigger] others.skip(1)[i]] == m.values[others[i + 1]] by {
                    assert(others.skip(1)[i] == others[i + 1]);
                    assert(others[i + 1].len() <= l.code.len());
                }
                assert(numbers(m.values, others).skip(1) =~= numbers(m1.values, others.skip(1)));
            },
            None => {},
        }
    }
}

pub proof fn lemma_apply_unary(
    c: Setting,
    l: Lowering,
    op: UnaryOp,
    arg: Origin,
    bs: Seq<(Seq<char>, Variable)>,
)
    requires
        is_on(c.world, l.code),
        l.word.bits == c.world.bits,
        lowering::apply_unary(l, op, arg) matches Some((l1, _)) ==> fits_in(l1, c),
    ensures
        lowering::apply_unary(l, op, arg) matches Some((l1, v)) ==> {
            let m = run(c.world, l.code);
            let m1 = run(c.world, l1.code);
            &&& arrives(c, l, l1, v)
            &&& negates(c, op, m.values[arg], seen(m, bs), seen(m1, bs), m1.values[v])
        },
{
    reveal(lowering::apply_unary);
    match lowering::apply_unary(l, op, arg) {
        Some((l1, v)) => {
            let m = run(c.world, l.code);
            let m1 = run(c.world, l1.code);
            match op {
                UnaryOp::Minus => {
                    lemma_emitted(
                        c.world,
                        l.code,
                        Inst::Unary { op: ir::UnaryInst::Ineg, arg },
                    );
                    assert(seen(m1, bs).locals =~= seen(m, bs).locals);
                },
                UnaryOp::BitNot => {
                    lemma_emitted(
                        c.world,
                        l.code,
                        Inst::Unary { op: ir::UnaryInst::Bnot, arg },
                    );
                    assert(seen(m1, bs).locals =~= seen(m, bs).locals);
                },
                UnaryOp::Not => {
                    let inst = Inst::IcmpImm { cc: IntCC::Equal, x: arg, imm: 0 };
                    let l2 = lowering::emit(Some(l), inst)->0;
                    lemma_emitted(c.world, l.code, inst);
                    lemma_emitted(
                        c.world,
                        l2.code,
                        Inst::Uextend { ty: l2.word, arg: l2.code },
                    );
                    assert(seen(m1, bs).locals =~= seen(m, bs).locals);
                },
                UnaryOp::Len => {
                    lemma_call_helper(c, l, "lua_len"@, seq![arg]);
                    assert(numbers(m.values, seq![arg]) =~= seq![m.values[arg]]);
                    lemma_called(
                        c,
                        m,
                        v,
                        c.helper("lua_len"@),
                        seq![arg],
                        seq![m.values[arg]],
                        bs,
                    );
                },
            }
        },
        None => {},
    }
}

// ---------------------------------------------------------------------------
// Variables

/// The innermost variable of a name is the last one.
pub proof fn lemma_lookup(m: Machine, bs: Seq<(Seq<char>, Variable)>, name: Seq<char>)
    ensures
        lookup(seen(m, bs).locals, name) == if pick(bs, name).len() != 0 {
            m.variable(pick(bs, name).last())
        } else {
            0
        },
    decreases bs.len(),
{
    let locals = seen(m, bs).locals;
    if bs.len() != 0 {
        assert(locals.drop_last() =~= seen(m, bs.drop_last()).locals);
        lemma_lookup(m, bs.drop_last(), name);
    }
}

pub proof fn lemma_variable(
    c: Setting,
    l: Lowering,
    name: Seq<char>,
    bs: Seq<(Seq<char>, Variable)>,
)
    requires
        is_ready(c, l, bs),
    ensures
        lowering::variable(l, name) matches Some((l1, v)) ==> {
            let m = run(c.world, l.code);
            let m1 = run(c.world, l1.code);
            &&& arrives(c, l, l1, v)
            &&& seen(m1, bs) == seen(m, bs)
            &&& m1.values[v] == lookup(seen(m, bs).locals, name)
        },
{
    reveal(lowering::variable);
    reveal(tracks);
    match lowering::variable(l, name) {
        Some((l1, v)) => {
            let m = run(c.world, l.code);
            let m1 = run(c.world, l1.code);
            lemma_lookup(m, bs, name);
            assert(stack_of(l.locals, name) == pick(bs, name));
            if stack_of(l.locals, name).len() != 0 {
                lemma_used(c.world, l.code, stack_of(l.locals, name).last());
            } else {
                lemma_emitted(c.world, l.code, Inst::Iconst { ty: l.word, imm: 0 });
            }
            assert(seen(m1, bs).locals =~= seen(m, bs).locals);
        },
        None => {},
    }
}

// ---------------------------------------------------------------------------
// Short circuits

/// What `and` and `or` leave to the operands after the first: that operand is
/// the result if it is as wanted, or if there are no others.
pub open spec fn settles(
    c: Setting,
    wanted: bool,
    x: int,
    exprs: Seq<Expression>,
    s: Store,
    s1: Store,
    v: int,
) -> bool {
    if exprs.len() == 0 || (x != 0) == wanted {
        s1 == s && v == x
    } else {
        selects(c, wanted, exprs, s, s1, v)
    }
}

/// Whether `merge` has the parameter `p` and no other, and is not the current block.
pub open spec fn awaits(h: Seq<Request>, merge: Block, p: Origin) -> bool {
    &&& ir::is_orderly(h)
    &&& ir::created(h, merge)
    &&& ir::position(h) != Some(merge)
    &&& ir::params(h, merge) == seq![p]
    &&& p.len() <= h.len()
}

/// What comes of handing over a value.
pub proof fn lemma_hand_over(
    w: World,
    l: Lowering,
    cc: IntCC,
    merge: Block,
    current: Origin,
    p: Origin,
)
    requires
        awaits(l.code, merge, p),
        cc is Equal || cc is NotEqual,
        current.len() <= l.code.len(),
    ensures
        lowering::hand_over(l, cc, merge, current) matches Some(l1) ==> {
            let m = run(w, l.code);
            let m1 = run(w, l1.code);
            let x = m.values[current];
            &&& awaits(l1.code, merge, p)
            &&& ir::has_predecessor(l1.code, merge)
            &&& l.code.len() < l1.code.len()
            &&& m.at == Some(merge) ==> m1 == m
            &&& is_on(w, l.code) ==> {
                &&& m1.variables == m.variables
                &&& m1.memory == m.memory
                &&& m1.result == m.result
                &&& if (x != 0) == (cc is NotEqual) {
                    m1.at == Some(merge) && m1.values[p] == x
                } else {
                    is_on(w, l1.code)
                }
            }
        },
{
    reveal(lowering::hand_over);
    reveal(is_on);
    match lowering::hand_over(l, cc, merge, current) {
        Some(l1) => {
            let next = lowering::new_block(Some(l));
            let h0 = l.code;
            let r0 = Request::CreateBlock;
            let h1 = h0.push(r0);
            let at = ir::position(h0)->0;
            let test = Inst::IcmpImm { cc, x: current, imm: 0 };
            let r1 = Request::Emit { block: at, inst: test };
            let h2 = h1.push(r1);
            let fork = Inst::Brif {
                cond: h2,
                then_block: merge,
                then_args: seq![current],
                else_block: next,
                else_args: seq![],
            };
            let r2 = Request::Emit { block: at, inst: fork };
            let h3 = h2.push(r2);
            let r3 = Request::Switch { block: next };
            let h4 = h3.push(r3);
            let r4 = Request::Seal { block: next };
            let h5 = h4.push(r4);
            sequel::lemma_count(h0);
            ir::lemma_push(h0, r0);
            ir::lemma_push(h1, r1);
            ir::lemma_push(h2, r2);
            ir::lemma_push(h3, r3);
            ir::lemma_push(h4, r4);
            growth::lemma_hand_over(l, cc, merge, current);
            assert(l1.code == h5);
            lemma_run(w, h0, r0);
            lemma_run(w, h1, r1);
            lemma_run(w, h2, r2);
            lemma_run(w, h3, r3);
            lemma_run(w, h4, r4);
            reveal(ir::is_orderly);
            assert(ir::params(h0, next).len() == 0);
            assert(fork.targets(merge));
            assert(fork.targets(next));
            let m = run(w, h0);
            let m2 = run(w, h2);
            assert(numbers(m2.values, seq![current]) =~= seq![m2.values[current]]);
            reveal_with_fuel(pass, 2);
        },
        None => {},
    }
}

/// When the result is there, the operands that are left are passed by.
pub proof fn lemma_alternatives_idle(
    w: World,
    l: Lowering,
    cc: IntCC,
    merge: Block,
    current: Origin,
    exprs: Seq<Expression>,
    p: Origin,
)
    requires
        awaits(l.code, merge, p),
        cc is Equal || cc is NotEqual,
        current.len() <= l.code.len(),
        run(w, l.code).at == Some(merge),
        ir::created(l.code, w.entry),
        ir::has_predecessor(l.code, merge),
    ensures
        lowering::alternatives(l, cc, merge, current, exprs) matches Some((l1, _)) ==> {
            &&& awaits(l1.code, merge, p)
            &&& ir::has_predecessor(l1.code, merge)
            &&& run(w, l1.code) == run(w, l.code)
        },
    decreases exprs.len(),
{
    if exprs.len() != 0 {
        lemma_hand_over(w, l, cc, merge, current, p);
        match lowering::hand_over(l, cc, merge, current) {
            Some(l1) => {
                growth::lemma_hand_over(l, cc, merge, current);
                ir::lemma_created(l.code, l1.code);
                growth::lemma_expression(l1, exprs[0]);
                match lowering::expression(l1, exprs[0]) {
                    Some((l2, v)) => {
                        let n = ir::block_count(l1.code);
                        lemma_start(l1.code, n);
                        paths::lemma_expression(l1.code, n, l1, exprs[0]);
                        lemma_idle(w, l1.code, n, l2.code);
                        lemma_position(l1.code, n, l2.code);
                        lemma_params(l1.code, n, l2.code);
                        ir::lemma_created(l1.code, l2.code);
                        lemma_length(l1, exprs[0]);
                        lemma_alternatives_idle(w, l2, cc, merge, v, exprs.skip(1), p);
                    },
                    None => {},
                }
            },
            None => {},
        }
    }
}

pub proof fn lemma_param_lengths(h: Seq<Request>, b: Block)
    ensures
        forall|i: int| 0 <= i < ir::params(h, b).len() ==> (#[trigger] ir::params(h, b)[i]).len()
            <= h.len(),
    decreases h.len(),
{
    if h.len() != 0 {
        let h1 = h.drop_last();
        lemma_param_lengths(h1, b);
        assert forall|i: int| 0 <= i < ir::params(h, b).len() implies (#[trigger] ir::params(
            h,
            b,
        )[i]).len() <= h.len() by {
            if i < ir::params(h1, b).len() {
                assert(ir::params(h1, b)[i].len() <= h1.len());
            }
        }
    }
}

/// The value of an expression is made by the time that its code is there.
pub proof fn lemma_length(l: Lowering, e: Expression)
    ensures
        lowering::expression(l, e) matches Some((l1, v)) ==> v.len() <= l1.code.len(),
    decreases e,
{
    reveal(lowering::variable);
    reveal(lowering::load_global);
    reveal(lowering::function_address);
    reveal(lowering::merged);
    reveal(lowering::global_pointer);
    reveal(lowering::string_pointer);
    reveal(lowering::call_helper);
    reveal(lowering::call_value);
    reveal(lowering::apply_unary);
    match e {
        Expression::Infix(op, exprs) => {
            match lowering::expression(l, e) {
                Some((l1, v)) => {
                    if op is Or || op is And {
                        let cc = if op is Or {
                            IntCC::NotEqual
                        } else {
                            IntCC::Equal
                        };
                        assert(lowering::short_circuit(l, cc, exprs@) == Some((l1, v)));
                        let (l2, v2) = lowering::expression(l, exprs@[0])->0;
                        let merge = lowering::new_block(Some(l2));
                        let l3 = lowering::append_param(
                            lowering::create_block(Some(l2)),
                            merge,
                        )->0;
                        let (l4, v4) = lowering::alternatives(
                            l3,
                            cc,
                            merge,
                            v2,
                            exprs@.skip(1),
                        )->0;
                        assert(lowering::merged(l4, v4, merge) == Some((l1, v)));
                        lemma_param_lengths(l1.code, merge);
                        assert(v == ir::params(l1.code, merge)[0]);
                        assert(v.len() <= l1.code.len());
                    } else {
                        let (l2, values) = lowering::expressions(l, Seq::empty(), exprs@)->0;
                        lemma_lengths(l, Seq::empty(), exprs@);
                        lemma_combine_length(l2, op, values);
                        assert(lowering::combine(l2, op, values) == Some((l1, v)));
                        assert(v.len() <= l1.code.len());
                    }
                },
                None => {},
            }
        },
        Expression::Table(fields) => {
            match lowering::call_helper(l, "lua_newtable"@, seq![]) {
                Some((l1, t)) => {
                    growth::lemma_table_fields(l1, t, fields@);
                },
                None => {},
            }
        },
        Expression::FunctCall(c) => {
            assert(lowering::expression(l, e) == lowering::call(l, *c));
        },
        _ => {},
    }
}

pub proof fn lemma_lengths(l: Lowering, done: Seq<Origin>, exprs: Seq<Expression>)
    requires
        forall|i: int| 0 <= i < done.len() ==> (#[trigger] done[i]).len() <= l.code.len(),
    ensures
        lowering::expressions(l, done, exprs) matches Some((l1, values)) ==> forall|i: int|
            0 <= i < values.len() ==> (#[trigger] values[i]).len() <= l1.code.len(),
    decreases exprs,
{
    if exprs.len() != 0 {
        lemma_length(l, exprs[0]);
        growth::lemma_expression(l, exprs[0]);
        match lowering::expression(l, exprs[0]) {
            Some((l1, v)) => {
                lemma_lengths(l1, done.push(v), exprs.skip(1));
            },
            None => {},
        }
    }
}

pub proof fn lemma_combine_length(l: Lowering, op: InfixOp, values: Seq<Origin>)
    requires
        forall|i: int| 0 <= i < values.len() ==> (#[trigger] values[i]).len() <= l.code.len(),
    ensures
        lowering::combine(l, op, values) matches Some((l1, v)) ==> v.len() <= l1.code.len(),
{
    reveal(lowering::combine);
    if values.len() != 0 {
        assert(values[0].len() <= l.code.len());
        lemma_apply_length(l, op, values[0], values.skip(1));
        match lowering::import_helper(l, "lua_concat"@, 2) {
            Some((l1, callee)) => {
                lemma_chain_length(l1, callee, values[0], values.skip(1));
            },
            None => {},
        }
    }
}

pub proof fn lemma_apply_length(l: Lowering, op: InfixOp, first: Origin, others: Seq<Origin>)
    requires
        first.len() <= l.code.len(),
    ensures
        lowering::apply_all(l, op, first, others) matches Some((l1, v)) ==> v.len()
            <= l1.code.len(),
    decreases others.len(),
{
    if others.len() != 0 {
        match lowering::apply(l, op, first, others[0]) {
            Some((l1, v)) => {
                lemma_apply_length(l1, op, v, others.skip(1));
            },
            None => {},
        }
    }
}

pub proof fn lemma_chain_length(l: Lowering, callee: FuncRef, first: Origin, others: Seq<Origin>)
    requires
        first.len() <= l.code.len(),
    ensures
        lowering::call_chain(l, callee, first, others) matches Some((l1, v)) ==> v.len()
            <= l1.code.len(),
    decreases others.len(),
{
    if others.len() != 0 {
        match lowering::emit(Some(l), Inst::Call { callee, args: seq![first, others[0]] }) {
            Some(l1) => {
                lemma_chain_length(l1, callee, l1.code, others.skip(1));
            },
            None => {},
        }
    }
}

pub proof fn lemma_alternatives_length(
    l: Lowering,
    cc: IntCC,
    merge: Block,
    current: Origin,
    exprs: Seq<Expression>,
)
    requires
        current.len() <= l.code.len(),
    ensures
        lowering::alternatives(l, cc, merge, current, exprs) matches Some((l1, v)) ==> v.len()
            <= l1.code.len(),
    decreases exprs.len(),
{
    if exprs.len() != 0 {
        match lowering::hand_over(l, cc, merge, current) {
            Some(l1) => {
                lemma_length(l1, exprs[0]);
                match lowering::expression(l1, exprs[0]) {
                    Some((l2, v)) => {
                        lemma_alternatives_length(l2, cc, merge, v, exprs.skip(1));
                    },
                    None => {},
                }
            },
            None => {},
        }
    }
}

/// The result is passed to `merge`, if it is not there yet.
pub proof fn lemma_merged(
    w: World,
    l: Lowering,
    current: Origin,
    merge: Block,
    p: Origin,
)
    requires
        awaits(l.code, merge, p),
        current.len() <= l.code.len(),
        is_on(w, l.code) || (run(w, l.code).at == Some(merge) && ir::has_predecessor(
            l.code,
            merge,
        )),
    ensures
        lowering::merged(l, current, merge) matches Some((l1, v)) ==> {
            let m = run(w, l.code);
            let m1 = run(w, l1.code);
            &&& v == p
            &&& p.len() <= l1.code.len()
            &&& is_on(w, l1.code)
            &&& m1.variables == m.variables
            &&& m1.memory == m.memory
            &&& m1.result == m.result
            &&& m1.values[p] == if m.at == Some(merge) {
                m.values[p]
            } else {
                m.values[current]
            }
        },
{
    reveal(lowering::merged);
    reveal(is_on);
    match lowering::merged(l, current, merge) {
        Some((l1, v)) => {
            let inst = Inst::Jump { target: merge, args: seq![current] };
            let s = lowering::emit_if_reachable(Some(l), inst);
            let h1 = s->0.code;
            let m = run(w, l.code);
            if !ir::unreachable(l.code) {
                let r = Request::Emit { block: ir::position(l.code)->0, inst };
                ir::lemma_push(l.code, r);
                lemma_run(w, l.code, r);
                assert(inst.targets(merge));
                assert(h1 == l.code.push(r));
                assert(numbers(m.values, seq![current]) =~= seq![m.values[current]]);
                reveal_with_fuel(pass, 2);
            }
            let h2 = h1.push(Request::Switch { block: merge });
            ir::lemma_push(h1, Request::Switch { block: merge });
            lemma_run(w, h1, Request::Switch { block: merge });
            ir::lemma_push(h2, Request::Seal { block: merge });
            lemma_run(w, h2, Request::Seal { block: merge });
        },
        None => {},
    }
}

/// What was computed stays while an expression is.
pub proof fn lemma_still(c: Setting, l: Lowering, e: Expression, o: Origin)
    requires
        ir::is_orderly(l.code),
        o.len() <= l.code.len(),
    ensures
        lowering::expression(l, e) matches Some((l1, _)) ==> run(c.world, l1.code).values[o]
            == run(c.world, l.code).values[o],
{
    let n = ir::block_count(l.code);
    lemma_start(l.code, n);
    paths::lemma_expression(l.code, n, l, e);
    match lowering::expression(l, e) {
        Some((l1, _)) => {
            lemma_kept(c.world, l.code, n, l1.code, o);
        },
        None => {},
    }
}

/// A function that was put into the module has the code of its statements.
pub proof fn lemma_installed(
    c: Setting,
    l: Lowering,
    params: Seq<String>,
    body: Seq<crate::ast::Statement>,
    name: Seq<char>,
    count: usize,
    last: Lowering,
)
    requires
        count == params.len(),
        fits_in(last, c),
    ensures
        lowering::function(l, params, body) matches Some(f) ==> (lowering::install(
            l,
            f,
            name,
            count,
        ) matches Some((l1, id)) ==> (growth::feeds(l1, last) || l1.module == last.module
            ==> c.is_function(params, body, (c.world.code)(id)))),
{
    match lowering::function(l, params, body) {
        Some(f) => {
            match lowering::install(l, f, name, count) {
                Some((l1, id)) => {
                    if growth::feeds(l1, last) || l1.module == last.module {
                        reveal(lowering::install);
                        if growth::feeds(l1, last) {
                            growth::lemma_grows(l1.module, last.module, c.module);
                        }
                        reveal(ModuleState::grows_to);
                        let record = l1.module.functions[id.0 as int];
                        assert(record.body == Some(f.code));
                        assert(record.becomes(c.module.functions[id.0 as int]));
                        assert(c.runs(id, l, params, body));
                    }
                },
                None => {},
            }
        },
        None => {},
    }
}

pub proof fn lemma_load_global(
    c: Setting,
    l: Lowering,
    name: Seq<char>,
    bs: Seq<(Seq<char>, Variable)>,
)
    requires
        is_on(c.world, l.code),
        l.word.bits == c.world.bits,
        lowering::load_global(l, name) matches Some((l1, _)) ==> fits_in(l1, c),
    ensures
        lowering::load_global(l, name) matches Some((l1, v)) ==> {
            let m = run(c.world, l.code);
            let m1 = run(c.world, l1.code);
            &&& arrives(c, l, l1, v)
            &&& seen(m1, bs) == seen(m, bs)
            &&& m1.values[v] == m.memory[c.cell(name)]
        },
{
    reveal(lowering::load_global);
    match lowering::load_global(l, name) {
        Some((l2, v)) => {
            let (l1, ptr) = lowering::global_pointer(l, name, None)->0;
            let m = run(c.world, l.code);
            let m2 = run(c.world, l2.code);
            lemma_global_pointer(c.world, l, name, None);
            growth::lemma_global_pointer(l, name, None);
            lemma_emitted(c.world, l1.code, Inst::Load { ty: l1.word, ptr, offset: 0 });
            lemma_cell(l2, name, c);
            assert(seen(m2, bs).locals =~= seen(m, bs).locals);
        },
        None => {},
    }
}

/// A value is put into a field of a table.
pub proof fn lemma_store_field(
    c: Setting,
    l: Lowering,
    table: Origin,
    field: Seq<char>,
    v: Origin,
    bs: Seq<(Seq<char>, Variable)>,
)
    requires
        is_ready(c, l, bs),
        table.len() <= l.code.len(),
        v.len() <= l.code.len(),
        lowering::store_field(l, table, field, v) matches Some(l1) ==> fits_in(l1, c),
    ensures
        lowering::store_field(l, table, field, v) matches Some(l1) ==> {
            let m = run(c.world, l.code);
            let m1 = run(c.world, l1.code);
            &&& arrives(c, l, l1, table)
            &&& m1.values[table] == m.values[table]
            &&& exists|key: int| #[trigger]
                c.is_text(vstd::utf8::encode_utf8(field), key) && seen(m1, bs) == c.after(
                    c.helper("lua_settable"@),
                    seq![m.values[table], key, m.values[v]],
                    seen(m, bs),
                )
        },
{
    reveal(lowering::store_field);
    reveal(lowering::store_entry);
    match lowering::store_field(l, table, field, v) {
        Some(l2) => {
            let w = c.world;
            let bytes = vstd::utf8::encode_utf8(field);
            let (l1, key) = lowering::string_pointer(l, bytes)->0;
            let args = seq![table, key, v];
            let m = run(w, l.code);
            let m1 = run(w, l1.code);
            growth::lemma_string_pointer(l, bytes);
            growth::lemma_call_helper(l1, "lua_settable"@, args);
            lemma_fits_in(l1, l2, c);
            lemma_string_pointer(c, l, bytes);
            lemma_with_value(m, key, m1.values[key], bs);
            lemma_call_helper(c, l1, "lua_settable"@, args);
            lemma_new(l, bytes);
            let xs = seq![m.values[table], m1.values[key], m.values[v]];
            assert(numbers(m1.values, args) =~= xs);
            lemma_called(c, m1, l2.code, c.helper("lua_settable"@), args, xs, bs);
            assert(c.is_text(bytes, m1.values[key]));
        },
        None => {},
    }
}

/// The address of a string is a new value.
pub proof fn lemma_new(l: Lowering, bytes: Seq<u8>)
    ensures
        lowering::string_pointer(l, bytes) matches Some((l1, v)) ==> v == l1.code
            && l1.code.len() > l.code.len(),
{
    reveal(lowering::string_pointer);
    reveal(lowering::global_pointer);
}


/// The block at which the operands of `and` and `or` meet.
pub proof fn lemma_merge_block(
    c: Setting,
    l: Lowering,
    v: Origin,
    bs: Seq<(Seq<char>, Variable)>,
)
    requires
        is_ready(c, l, bs),
        v.len() <= l.code.len(),
    ensures
        ({
            let merge = lowering::new_block(Some(l));
            lowering::append_param(lowering::create_block(Some(l)), merge) matches Some(l1) ==> {
                &&& growth::computes(l, l1)
                &&& is_ready(c, l1, bs)
                &&& awaits(l1.code, merge, l1.code)
                &&& run(c.world, l1.code) == run(c.world, l.code)
                &&& l.code.len() < l1.code.len()
            }
        }),
{
    let merge = lowering::new_block(Some(l));
    match lowering::append_param(lowering::create_block(Some(l)), merge) {
        Some(l1) => {
            let h1 = l.code.push(Request::CreateBlock);
            let r = Request::AppendParam { block: merge, ty: ir::Type::Int(l.word) };
            assert(growth::computes(l, l1)) by {
                broadcast use ir::group_orderly;

                growth::lemma_same(l.module);
            }
            sequel::lemma_count(l.code);
            ir::lemma_push(l.code, Request::CreateBlock);
            ir::lemma_push(h1, r);
            lemma_quiet(c.world, l.code, Request::CreateBlock);
            lemma_run(c.world, h1, r);
            assert(l1.code == h1.push(r));
            assert(ir::params(l.code, merge).len() == 0) by {
                reveal(ir::is_orderly);
            }
            assert(ir::position(l.code) != Some(merge)) by {
                reveal(ir::is_orderly);
            }
            assert(ir::params(l1.code, merge) =~= seq![l1.code]);
            assert(c.world.entry != merge);
            assert(is_on(c.world, l1.code)) by {
                reveal(is_on);
            }
            lemma_ready(c, l, l1, v, bs);
        },
        None => {},
    }
}

/// Expressions that have no others in them.
pub proof fn lemma_simple(
    c: Setting,
    l: Lowering,
    e: Expression,
    bs: Seq<(Seq<char>, Variable)>,
)
    requires
        is_ready(c, l, bs),
        !(e is Unary),
        !(e is Infix),
        !(e is FunctCall),
        !(e is Index),
        !(e is Table),
        lowering::expression(l, e) matches Some((l1, _)) ==> fits_in(l1, c),
    ensures
        lowering::expression(l, e) matches Some((l1, v)) ==> {
            let m = run(c.world, l.code);
            let m1 = run(c.world, l1.code);
            &&& arrives(c, l, l1, v)
            &&& evaluates(c, e, seen(m, bs), seen(m1, bs), m1.values[v])
        },
{
    let w = c.world;
    let m = run(w, l.code);
    match lowering::expression(l, e) {
        Some((l1, v)) => {
            let m1 = run(w, l1.code);
            match e {
                Expression::Nil => {
                    lemma_emitted(w, l.code, Inst::Null { ty: l.word });
                    lemma_with_value(m, v, 0, bs);
                },
                Expression::Boolean(b) => {
                    let imm: i64 = if b {
                        1
                    } else {
                        0
                    };
                    lemma_emitted(w, l.code, Inst::Iconst { ty: l.word, imm });
                    lemma_with_value(m, v, m1.values[v], bs);
                },
                Expression::Number(number) => {
                    let imm: i64 = match number {
                        Number::Integer(i) => i,
                        Number::Float(i) => i,
                    };
                    lemma_emitted(w, l.code, Inst::Iconst { ty: l.word, imm });
                    lemma_with_value(m, v, m1.values[v], bs);
                },
                Expression::String(bytes) => {
                    lemma_string_pointer(c, l, bytes@);
                    lemma_with_value(m, v, m1.values[v], bs);
                },
                Expression::Var(name) => {
                    lemma_variable(c, l, name@, bs);
                },
                Expression::Field(table, field) => {
                    if lowering::is_globals_table(*table) {
                        lemma_load_global(c, l, field@, bs);
                    } else {
                        lemma_emitted(w, l.code, Inst::Iconst { ty: l.word, imm: 0 });
                        lemma_with_value(m, v, m1.values[v], bs);
                    }
                },
                Expression::FunctDef(params, body) => {
                    let l2 = lowering::made_up(l)->0;
                    let f = lowering::function(l2, params.names@, body@)->0;
                    let name = "lambda_"@ + lowering::decimal(l.strings);
                    let (l3, id) = lowering::install(l2, f, name, params.names.len())->0;
                    assert(lowering::function_address(l3, id) == Some((l1, v)));
                    reveal(lowering::function_address);
                    lemma_installed(c, l2, params.names@, body@, name, params.names.len(), l1);
                    assert(l3.code == l.code && l3.word == l.word) by {
                        reveal(lowering::install);
                    }
                    lemma_emitted(w, l3.code, Inst::FunctionAddress { ty: l3.word, func: id });
                    lemma_with_value(m, v, m1.values[v], bs);
                },
                _ => {},
            }
            if !(e is Ellipsis) {
                meaning::lemma_simple(c, e, seen(m, bs), m1.values[v]);
            }
        },
        None => {},
    }
}

/// An operator is applied to values.
pub proof fn lemma_combine(
    c: Setting,
    l: Lowering,
    op: InfixOp,
    values: Seq<Origin>,
    bs: Seq<(Seq<char>, Variable)>,
)
    requires
        is_ready(c, l, bs),
        forall|i: int| 0 <= i < values.len() ==> (#[trigger] values[i]).len() <= l.code.len(),
        lowering::combine(l, op, values) matches Some((l1, _)) ==> fits_in(l1, c),
    ensures
        lowering::combine(l, op, values) matches Some((l1, v)) ==> {
            let m = run(c.world, l.code);
            let m1 = run(c.world, l1.code);
            let xs = numbers(m.values, values);
            &&& arrives(c, l, l1, v)
            &&& xs.len() != 0
            &&& op is Concat ==> concatenates(
                c,
                xs[0],
                xs.skip(1),
                seen(m, bs),
                seen(m1, bs),
                m1.values[v],
            )
            &&& op !is Concat ==> seen(m1, bs) == seen(m, bs) && m1.values[v] == operate_all(
                op,
                xs[0],
                xs.skip(1),
                c.world.bits,
            )
        },
{
    match lowering::combine(l, op, values) {
        Some((l1, v)) => {
            reveal(lowering::combine);
            let m = run(c.world, l.code);
            let m1 = run(c.world, l1.code);
            let xs = numbers(m.values, values);
            let others = values.skip(1);
            assert(xs.skip(1) =~= numbers(m.values, others));
            assert(xs[0] == m.values[values[0]]);
            assert forall|i: int| 0 <= i < others.len() implies (#[trigger] others[i]).len()
                <= l.code.len() by {
                assert(others[i] == values[i + 1]);
            }
            assert(values[0].len() <= l.code.len());
            if op is Concat {
                let (l2, callee) = lowering::import_helper(l, "lua_concat"@, 2)->0;
                growth::lemma_import_helper(l, "lua_concat"@, 2);
                growth::lemma_call_chain(l2, callee, values[0], others);
                lemma_fits_in(l2, l1, c);
                lemma_import_helper(c, l, "lua_concat"@, 2);
                lemma_call_chain(c, l2, callee, values[0], others, bs);
            } else {
                lemma_apply_all(c.world, l, op, values[0], others);
                assert(seen(m1, bs).locals =~= seen(m, bs).locals);
            }
        },
        None => {},
    }
}

/// A function is called that was computed.
pub proof fn lemma_call_value(
    c: Setting,
    l: Lowering,
    func: Origin,
    args: Seq<Origin>,
    bs: Seq<(Seq<char>, Variable)>,
)
    requires
        is_ready(c, l, bs),
    ensures
        lowering::call_value(l, func, args) matches Some((l1, v)) ==> {
            let m = run(c.world, l.code);
            let m1 = run(c.world, l1.code);
            let xs = numbers(m.values, args);
            &&& arrives(c, l, l1, v)
            &&& m1.values[v] == c.answer(m.values[func], xs, seen(m, bs))
            &&& seen(m1, bs) == c.after(m.values[func], xs, seen(m, bs))
        },
{
    match lowering::call_value(l, func, args) {
        Some((l1, v)) => {
            reveal(lowering::call_value);
            let m = run(c.world, l.code);
            let signature = Signature { int: l.word, params: args.len() as usize, returns: 1 };
            let r = Request::ImportSignature { signature };
            lemma_quiet(c.world, l.code, r);
            let sig = ir::SigRef(ir::signature_imports(l.code) as u32);
            lemma_emitted(
                c.world,
                l.code.push(r),
                Inst::CallIndirect { signature: sig, callee: func, args },
            );
            lemma_called(c, m, v, m.values[func], args, numbers(m.values, args), bs);
        },
        None => {},
    }
}

/// A field of a table is looked up.
pub proof fn lemma_load_field(
    c: Setting,
    l: Lowering,
    table: Origin,
    field: Seq<char>,
    bs: Seq<(Seq<char>, Variable)>,
)
    requires
        is_ready(c, l, bs),
        table.len() <= l.code.len(),
        lowering::load_field(l, table, field) matches Some((l1, _)) ==> fits_in(l1, c),
    ensures
        lowering::load_field(l, table, field) matches Some((l1, v)) ==> {
            let m = run(c.world, l.code);
            let m1 = run(c.world, l1.code);
            let helper = c.helper("lua_gettable"@);
            &&& arrives(c, l, l1, v)
            &&& exists|key: int| #[trigger]
                c.is_text(vstd::utf8::encode_utf8(field), key) && m1.values[v] == c.answer(
                    helper,
                    seq![m.values[table], key],
                    seen(m, bs),
                ) && seen(m1, bs) == c.after(helper, seq![m.values[table], key], seen(m, bs))
        },
{
    match lowering::load_field(l, table, field) {
        Some((l2, v)) => {
            reveal(lowering::load_field);
            let bytes = vstd::utf8::encode_utf8(field);
            let helper = c.helper("lua_gettable"@);
            let (l1, key) = lowering::string_pointer(l, bytes)->0;
            let args = seq![table, key];
            let m = run(c.world, l.code);
            let m1 = run(c.world, l1.code);
            growth::lemma_string_pointer(l, bytes);
            growth::lemma_call_helper(l1, "lua_gettable"@, args);
            lemma_fits_in(l1, l2, c);
            lemma_string_pointer(c, l, bytes);
            lemma_new(l, bytes);
            lemma_with_value(m, key, m1.values[key], bs);
            lemma_call_helper(c, l1, "lua_gettable"@, args);
            let xs = seq![m.values[table], m1.values[key]];
            assert(numbers(m1.values, args) =~= xs);
            lemma_called(c, m1, v, helper, args, xs, bs);
            assert(c.is_text(bytes, m1.values[key]));
        },
        None => {},
    }
}

} // verus!
