//! What the code of declarations and assignments stores.
use vstd::prelude::*;

use crate::ast::Expression;
use crate::execution::{
    fits_in, is_ready, lemma_defined, lemma_emitted, lemma_fits_in, lemma_kept, lemma_quiet,
    lemma_titled, pick, seen, tracks,
};
use crate::growth;
use crate::ir;
use crate::ir::{Inst, Origin, Request, Variable};
use crate::lowering;
use crate::lowering::{stack_of, Lowering};
use crate::machine::{numbers, run, Machine};
use crate::meaning;
use crate::meaning::{assigns, declared, is_local, replace, stores, Setting, Store};
use crate::paths;
use crate::results::law_expression;
use crate::sequel::lemma_start;
use crate::values;
use crate::values::{lemma_cell, lemma_global_pointer, lemma_ready, lemma_still};

verus! {

// ---------------------------------------------------------------------------
// Declarations

/// A name gets a new variable with a value.
pub proof fn lemma_bind_local(
    c: Setting,
    l: Lowering,
    name: Seq<char>,
    v: Origin,
    bs: Seq<(Seq<char>, Variable)>,
)
    requires
        is_ready(c, l, bs),
    ensures
        lowering::bind_local(l, name, v) matches Some(l1) ==> {
            let m = run(c.world, l.code);
            let m1 = run(c.world, l1.code);
            let bs1 = bs.push((name, Variable(l.next_var as u32)));
            &&& is_ready(c, l1, bs1)
            &&& m1.values == m.values
            &&& seen(m1, bs1) == (Store {
                locals: seen(m, bs).locals.push((name, m.values[v])),
                ..seen(m, bs)
            })
        },
{
    match lowering::bind_local(l, name, v) {
        Some(l1) => {
            reveal(lowering::bind_local);
            reveal(tracks);
            let w = c.world;
            let m = run(w, l.code);
            let m1 = run(w, l1.code);
            let var = Variable(l.next_var as u32);
            let bs1 = bs.push((name, var));
            let r = Request::DeclareVar { var, ty: l.word };
            lemma_quiet(w, l.code, r);
            lemma_defined(w, l.code.push(r), var, v);
            growth::lemma_bind_local(l, name, v);
            ir::lemma_created(l.code, l1.code);
            lemma_titled(c, l, l1);
            assert(bs1.drop_last() =~= bs);
            assert forall|n: Seq<char>| #[trigger] stack_of(l1.locals, n) == pick(bs1, n) by {
                assert(stack_of(l.locals, n) == pick(bs, n));
            }
            assert forall|n: Seq<char>| #[trigger]
                l1.locals.contains_key(n) implies l1.locals[n].len() != 0 by {
                if n != name {
                    assert(l.locals.contains_key(n));
                }
            }
            assert(seen(m1, bs1).locals =~= seen(m, bs).locals.push((name, m.values[v])));
        },
        None => {},
    }
}

/// Each name gets a new variable with the value at its own place.
pub proof fn law_bind_locals(
    c: Setting,
    l: Lowering,
    vars: Seq<(String, Option<String>)>,
    values: Seq<Origin>,
    bs: Seq<(Seq<char>, Variable)>,
) -> (bs1: Seq<(Seq<char>, Variable)>)
    requires
        is_ready(c, l, bs),
    ensures
        lowering::bind_locals(l, vars, values) matches Some(l1) ==> {
            let m = run(c.world, l.code);
            let m1 = run(c.world, l1.code);
            &&& bs.is_prefix_of(bs1)
            &&& is_ready(c, l1, bs1)
            &&& seen(m1, bs1) == (Store {
                locals: seen(m, bs).locals + declared(vars, numbers(m.values, values)),
                ..seen(m, bs)
            })
        },
    decreases vars.len(),
{
    let m = run(c.world, l.code);
    let xs = numbers(m.values, values);
    if vars.len() == 0 || values.len() == 0 {
        assert(seen(m, bs).locals + declared(vars, xs) =~= seen(m, bs).locals);
        bs
    } else {
        lemma_bind_local(c, l, vars[0].0@, values[0], bs);
        match lowering::bind_local(l, vars[0].0@, values[0]) {
            Some(l1) => {
                let bs1 = bs.push((vars[0].0@, Variable(l.next_var as u32)));
                let bs2 = law_bind_locals(c, l1, vars.skip(1), values.skip(1), bs1);
                let m1 = run(c.world, l1.code);
                assert(xs.skip(1) =~= numbers(m1.values, values.skip(1)));
                assert(xs[0] == m.values[values[0]]);
                let more = declared(vars.skip(1), xs.skip(1));
                assert(seen(m, bs).locals + declared(vars, xs) =~= seen(m, bs).locals.push(
                    (vars[0].0@, xs[0]),
                ) + more);
                if lowering::bind_locals(l1, vars.skip(1), values.skip(1)) is Some {
                    assert(bs =~= bs2.subrange(0, bs.len() as int)) by {
                        assert(bs1 =~= bs2.subrange(0, bs1.len() as int));
                        assert forall|i: int| 0 <= i < bs.len() implies bs[i] == bs2[i] by {
                            assert(bs1[i] == bs2.subrange(0, bs1.len() as int)[i]);
                        }
                    }
                }
                bs2
            },
            None => bs,
        }
    }
}

// ---------------------------------------------------------------------------
// Assignments

/// There is a variable of a name where there is a local variable of it.
proof fn lemma_is_local(m: Machine, bs: Seq<(Seq<char>, Variable)>, name: Seq<char>)
    ensures
        is_local(seen(m, bs).locals, name) <==> pick(bs, name).len() != 0,
    decreases bs.len(),
{
    let locals = seen(m, bs).locals;
    if bs.len() != 0 {
        let less = bs.drop_last();
        lemma_is_local(m, less, name);
        assert(locals.drop_last() =~= seen(m, less).locals);
        if is_local(locals, name) && bs.last().0 != name {
            let i = choose|i: int| 0 <= i < locals.len() && #[trigger] locals[i].0 == name;
            assert(locals.drop_last()[i].0 == name);
        }
        if is_local(seen(m, less).locals, name) {
            let i = choose|i: int|
                0 <= i < seen(m, less).locals.len() && #[trigger] seen(m, less).locals[i].0
                    == name;
            assert(locals[i].0 == name);
        }
        if bs.last().0 == name {
            assert(locals[bs.len() - 1].0 == name);
        }
    }
}

/// The variables of a name are among all.
proof fn lemma_pick(bs: Seq<(Seq<char>, Variable)>, name: Seq<char>) -> (i: int)
    requires
        pick(bs, name).len() != 0,
    ensures
        0 <= i < bs.len(),
        bs[i].1 == pick(bs, name).last(),
    decreases bs.len(),
{
    if bs.last().0 == name {
        bs.len() - 1
    } else {
        lemma_pick(bs.drop_last(), name)
    }
}

/// What is written to the last variable of a name is seen as its value.
proof fn lemma_replace(
    m: Machine,
    bs: Seq<(Seq<char>, Variable)>,
    name: Seq<char>,
    x: int,
)
    requires
        pick(bs, name).len() != 0,
        forall|i: int, j: int|
            0 <= i < j < bs.len() ==> (#[trigger] bs[i]).1 != (#[trigger] bs[j]).1,
    ensures
        seen(
            Machine { variables: m.variables.insert(pick(bs, name).last(), x), ..m },
            bs,
        ).locals == replace(seen(m, bs).locals, name, x),
    decreases bs.len(),
{
    let var = pick(bs, name).last();
    let m1 = Machine { variables: m.variables.insert(var, x), ..m };
    let less = bs.drop_last();
    let locals = seen(m, bs).locals;
    assert(locals.drop_last() =~= seen(m, less).locals);
    if bs.last().0 == name {
        assert(seen(m1, bs).locals =~= locals.drop_last().push((name, x)));
    } else {
        lemma_replace(m, less, name, x);
        let i = lemma_pick(less, name);
        assert(bs[i].1 != bs[bs.len() - 1].1);
        assert(seen(m1, bs).locals =~= seen(m1, less).locals.push(locals.last()));
    }
}

/// A value is written to a global variable.
pub proof fn lemma_store_global(
    c: Setting,
    l: Lowering,
    name: Seq<char>,
    v: Origin,
    bs: Seq<(Seq<char>, Variable)>,
)
    requires
        is_ready(c, l, bs),
        v.len() <= l.code.len(),
        lowering::store_global(l, name, v) matches Some(l1) ==> fits_in(l1, c),
    ensures
        lowering::store_global(l, name, v) matches Some(l1) ==> {
            let m = run(c.world, l.code);
            let m1 = run(c.world, l1.code);
            &&& is_ready(c, l1, bs)
            &&& seen(m1, bs) == seen(m, bs).write(c.cell(name), m.values[v])
        },
{
    match lowering::store_global(l, name, v) {
        Some(l2) => {
            reveal(lowering::store_global);
            let w = c.world;
            let (l1, ptr) = lowering::global_pointer(l, name, None)->0;
            let m = run(w, l.code);
            let m2 = run(w, l2.code);
            lemma_global_pointer(w, l, name, None);
            growth::lemma_global_pointer(l, name, None);
            growth::lemma_store_global(l, name, v);
            assert(l1.code.len() > l.code.len()) by {
                reveal(lowering::global_pointer);
            }
            lemma_emitted(w, l1.code, Inst::Store { value: v, ptr, offset: 0 });
            lemma_cell(l2, name, c);
            lemma_ready(c, l, l2, v, bs);
            assert(seen(m2, bs).locals =~= seen(m, bs).locals);
        },
        None => {},
    }
}

/// A value is written to a variable.
proof fn lemma_store_variable(
    c: Setting,
    l: Lowering,
    name: Seq<char>,
    v: Origin,
    bs: Seq<(Seq<char>, Variable)>,
)
    requires
        is_ready(c, l, bs),
        v.len() <= l.code.len(),
        lowering::store_variable(l, name, v) matches Some(l1) ==> fits_in(l1, c),
    ensures
        lowering::store_variable(l, name, v) matches Some(l1) ==> {
            let m = run(c.world, l.code);
            let m1 = run(c.world, l1.code);
            let s = seen(m, bs);
            &&& is_ready(c, l1, bs)
            &&& seen(m1, bs) == if is_local(s.locals, name) {
                Store { locals: replace(s.locals, name, m.values[v]), ..s }
            } else {
                s.write(c.cell(name), m.values[v])
            }
        },
{
    match lowering::store_variable(l, name, v) {
        Some(l1) => {
            reveal(lowering::store_variable);
            let w = c.world;
            let m = run(w, l.code);
            let m1 = run(w, l1.code);
            lemma_is_local(m, bs, name);
            assert(stack_of(l.locals, name) == pick(bs, name)) by {
                reveal(tracks);
            }
            if l.locals.contains_key(name) {
                lemma_defined(w, l.code, l.locals[name].last(), v);
                growth::lemma_store_variable(l, name, v);
                ir::lemma_created(l.code, l1.code);
                lemma_titled(c, l, l1);
                reveal(tracks);
                lemma_replace(m, bs, name, m.values[v]);
            } else {
                lemma_store_global(c, l, name, v, bs);
            }
        },
        None => {},
    }
}

/// A value is written to an entry of a table.
proof fn lemma_store_entry(
    c: Setting,
    l: Lowering,
    table: Origin,
    key: Origin,
    v: Origin,
    bs: Seq<(Seq<char>, Variable)>,
)
    requires
        is_ready(c, l, bs),
        lowering::store_entry(l, table, key, v) matches Some(l1) ==> fits_in(l1, c),
    ensures
        lowering::store_entry(l, table, key, v) matches Some(l1) ==> {
            let m = run(c.world, l.code);
            let m1 = run(c.world, l1.code);
            &&& is_ready(c, l1, bs)
            &&& seen(m1, bs) == c.after(
                c.helper("lua_settable"@),
                seq![m.values[table], m.values[key], m.values[v]],
                seen(m, bs),
            )
        },
{
    match lowering::store_entry(l, table, key, v) {
        Some(l1) => {
            growth::lemma_store_entry(l, table, key, v);
            let args = seq![table, key, v];
            let helper = c.helper("lua_settable"@);
            let m = run(c.world, l.code);
            assert(lowering::call_helper(l, "lua_settable"@, args) == Some((l1, l1.code))) by {
                reveal(lowering::store_entry);
                reveal(lowering::call_helper);
            }
            values::lemma_call_helper(c, l, "lua_settable"@, args);
            let xs = seq![m.values[table], m.values[key], m.values[v]];
            assert(numbers(m.values, args) =~= xs);
            values::lemma_called(c, m, l1.code, helper, args, xs, bs);
            lemma_ready(c, l, l1, l1.code, bs);
        },
        None => {},
    }
}

proof fn lemma_assign_field(
    c: Setting,
    l: Lowering,
    target: Expression,
    v: Origin,
    bs: Seq<(Seq<char>, Variable)>,
)
    requires
        is_ready(c, l, bs),
        v.len() <= l.code.len(),
        target matches Expression::Field(table, _) && !lowering::is_globals_table(*table),
        lowering::assign(l, target, v) matches Some(l1) ==> fits_in(l1, c),
    ensures
        lowering::assign(l, target, v) matches Some(l1) ==> {
            let m = run(c.world, l.code);
            let m1 = run(c.world, l1.code);
            &&& is_ready(c, l1, bs)
            &&& stores(c, target, m.values[v], seen(m, bs), seen(m1, bs))
        },
{
    match lowering::assign(l, target, v) {
        Some(l1) => {
            match target {
                Expression::Field(table, field) => {
                    let m = run(c.world, l.code);
                    let m1 = run(c.world, l1.code);
                    let x = m.values[v];
                    let (l2, t) = lowering::expression(l, *table)->0;
                    let m2 = run(c.world, l2.code);
                    assert(lowering::store_field(l2, t, field@, v) == Some(l1));
                    growth::lemma_expression(l, *table);
                    growth::lemma_store_field(l2, t, field@, v);
                    lemma_fits_in(l2, l1, c);
                    law_expression(c, l, *table, bs);
                    lemma_ready(c, l, l2, t, bs);
                    lemma_still(c, l, *table, v);
                    values::lemma_store_field(c, l2, t, field@, v, bs);
                    lemma_ready(c, l2, l1, t, bs);
                    let bytes = vstd::utf8::encode_utf8(field@);
                    let key = choose|key: int| #[trigger]
                        c.is_text(bytes, key) && seen(m1, bs) == c.after(
                            c.helper("lua_settable"@),
                            seq![m2.values[t], key, x],
                            seen(m2, bs),
                        );
                    meaning::lemma_stores_field(
                        c,
                        target,
                        x,
                        seen(m, bs),
                        seen(m2, bs),
                        m2.values[t],
                        key,
                    );
                },
                _ => {},
            }
        },
        None => {},
    }
}

proof fn lemma_assign_entry(
    c: Setting,
    l: Lowering,
    target: Expression,
    v: Origin,
    bs: Seq<(Seq<char>, Variable)>,
)
    requires
        is_ready(c, l, bs),
        v.len() <= l.code.len(),
        target is Index,
        lowering::assign(l, target, v) matches Some(l1) ==> fits_in(l1, c),
    ensures
        lowering::assign(l, target, v) matches Some(l1) ==> {
            let m = run(c.world, l.code);
            let m1 = run(c.world, l1.code);
            &&& is_ready(c, l1, bs)
            &&& stores(c, target, m.values[v], seen(m, bs), seen(m1, bs))
        },
{
    match lowering::assign(l, target, v) {
        Some(l1) => {
            match target {
                Expression::Index(table, index) => {
                    let m = run(c.world, l.code);
                    let x = m.values[v];
                    let (l2, t) = lowering::expression(l, *table)->0;
                    let (l3, i) = lowering::expression(l2, *index)->0;
                    let m2 = run(c.world, l2.code);
                    let m3 = run(c.world, l3.code);
                    assert(lowering::store_entry(l3, t, i, v) == Some(l1));
                    growth::lemma_expression(l, *table);
                    growth::lemma_expression(l2, *index);
                    growth::lemma_store_entry(l3, t, i, v);
                    lemma_fits_in(l3, l1, c);
                    lemma_fits_in(l2, l3, c);
                    law_expression(c, l, *table, bs);
                    lemma_ready(c, l, l2, t, bs);
                    lemma_still(c, l, *table, v);
                    law_expression(c, l2, *index, bs);
                    lemma_ready(c, l2, l3, i, bs);
                    lemma_still(c, l2, *index, t);
                    lemma_still(c, l2, *index, v);
                    lemma_store_entry(c, l3, t, i, v, bs);
                    meaning::lemma_stores_entry(
                        c,
                        target,
                        x,
                        seen(m, bs),
                        seen(m2, bs),
                        m2.values[t],
                        seen(m3, bs),
                        m3.values[i],
                    );
                },
                _ => {},
            }
        },
        None => {},
    }
}

/// A value is written to a target.
pub proof fn law_assign(
    c: Setting,
    l: Lowering,
    target: Expression,
    v: Origin,
    bs: Seq<(Seq<char>, Variable)>,
)
    requires
        is_ready(c, l, bs),
        v.len() <= l.code.len(),
        lowering::assign(l, target, v) matches Some(l1) ==> fits_in(l1, c),
    ensures
        lowering::assign(l, target, v) matches Some(l1) ==> {
            let m = run(c.world, l.code);
            let m1 = run(c.world, l1.code);
            &&& is_ready(c, l1, bs)
            &&& stores(c, target, m.values[v], seen(m, bs), seen(m1, bs))
        },
{
    match lowering::assign(l, target, v) {
        Some(l1) => {
            let m = run(c.world, l.code);
            let m1 = run(c.world, l1.code);
            let x = m.values[v];
            match target {
                Expression::Var(name) => {
                    lemma_store_variable(c, l, name@, v, bs);
                    meaning::lemma_stores_variable(c, target, x, seen(m, bs), seen(m1, bs));
                },
                Expression::Field(table, field) => {
                    if lowering::is_globals_table(*table) {
                        lemma_store_global(c, l, field@, v, bs);
                        meaning::lemma_stores_variable(c, target, x, seen(m, bs), seen(m1, bs));
                    } else {
                        lemma_assign_field(c, l, target, v, bs);
                    }
                },
                Expression::Index(..) => {
                    lemma_assign_entry(c, l, target, v, bs);
                },
                _ => {},
            }
        },
        None => {},
    }
}

/// Each target is given the value at its own place.
pub proof fn law_assign_all(
    c: Setting,
    l: Lowering,
    targets: Seq<Expression>,
    values: Seq<Origin>,
    bs: Seq<(Seq<char>, Variable)>,
)
    requires
        is_ready(c, l, bs),
        forall|i: int| 0 <= i < values.len() ==> (#[trigger] values[i]).len() <= l.code.len(),
        lowering::assign_all(l, targets, values) matches Some(l1) ==> fits_in(l1, c),
    ensures
        lowering::assign_all(l, targets, values) matches Some(l1) ==> {
            let m = run(c.world, l.code);
            let m1 = run(c.world, l1.code);
            &&& is_ready(c, l1, bs)
            &&& assigns(c, targets, numbers(m.values, values), seen(m, bs), seen(m1, bs))
        },
    decreases targets.len(),
{
    let w = c.world;
    let m = run(w, l.code);
    let xs = numbers(m.values, values);
    if targets.len() == 0 || values.len() == 0 {
        meaning::lemma_assigns_none(c, targets, xs, seen(m, bs));
    } else {
        match lowering::assign_all(l, targets, values) {
            Some(l2) => {
                let rest = values.skip(1);
                lemma_assign_first(l, targets, values);
                let l1 = lowering::assign(l, targets[0], values[0])->0;
                let m1 = run(w, l1.code);
                let m2 = run(w, l2.code);
                let n = ir::block_count(l.code);
                growth::lemma_assign(l, targets[0], values[0]);
                growth::lemma_assign_all(l1, targets.skip(1), rest);
                lemma_fits_in(l1, l2, c);
                law_assign(c, l, targets[0], values[0], bs);
                lemma_start(l.code, n);
                paths::lemma_assign(l.code, n, l, targets[0], values[0]);
                assert forall|i: int| 0 <= i < rest.len() implies (#[trigger] rest[i]).len()
                    <= l1.code.len() && m1.values[rest[i]] == m.values[values[i + 1]] by {
                    assert(rest[i] == values[i + 1]);
                    lemma_kept(w, l.code, n, l1.code, rest[i]);
                    crate::sequel::lemma_prefix(l.code, n, l1.code);
                }
                law_assign_all(c, l1, targets.skip(1), rest, bs);
                assert(xs.skip(1) =~= numbers(m1.values, rest));
                assert(xs[0] == m.values[values[0]]);
                meaning::lemma_assigns_first(
                    c,
                    targets,
                    xs,
                    seen(m, bs),
                    seen(m1, bs),
                    seen(m2, bs),
                );
            },
            None => {},
        }
    }
}

/// The first target is given the first value, and then the others are seen to.
#[verifier::rlimit(1)]
proof fn lemma_assign_first(l: Lowering, targets: Seq<Expression>, values: Seq<Origin>)
    requires
        targets.len() != 0,
        values.len() != 0,
        lowering::assign_all(l, targets, values) is Some,
    ensures
        lowering::assign(l, targets[0], values[0]) matches Some(l1) && lowering::assign_all(
            l1,
            targets.skip(1),
            values.skip(1),
        ) == lowering::assign_all(l, targets, values),
{
}

} // verus!
