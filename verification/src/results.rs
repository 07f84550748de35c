//! What the code of expressions computes.
use vstd::prelude::*;

use crate::ast::{Expression, Field, FunctionCall};
use crate::execution::{
    fits_in, is_on, is_ready, lemma_fits_in, lemma_idle, lemma_kept, lemma_params, lemma_position,
    seen,
};
use crate::growth;
use crate::ir;
use crate::ir::{Block, IntCC, Origin, Variable};
use crate::lowering;
use crate::lowering::Lowering;
use crate::machine::{numbers, run};
use crate::meaning;
use crate::meaning::{calls, evaluate, evaluates, fills, finds, selects, Setting};
use crate::paths;
use crate::sequel::lemma_start;
use crate::values;
use crate::values::{
    arrives, awaits, lemma_call_helper, lemma_called, lemma_length, lemma_ready, lemma_still,
    settles,
};

verus! {

/// `and` and `or`, after their first operand.
pub proof fn lemma_alternatives(
    c: Setting,
    l: Lowering,
    cc: IntCC,
    merge: Block,
    current: Origin,
    exprs: Seq<Expression>,
    p: Origin,
    bs: Seq<(Seq<char>, Variable)>,
)
    requires
        is_ready(c, l, bs),
        awaits(l.code, merge, p),
        cc is Equal || cc is NotEqual,
        current.len() <= l.code.len(),
        lowering::alternatives(l, cc, merge, current, exprs) matches Some((l1, _)) ==> fits_in(
            l1,
            c,
        ),
    ensures
        lowering::alternatives(l, cc, merge, current, exprs) matches Some((l1, v)) ==> {
            let m = run(c.world, l.code);
            let m1 = run(c.world, l1.code);
            &&& awaits(l1.code, merge, p)
            &&& v.len() <= l1.code.len()
            &&& m1.variables == m.variables
            &&& m1.result == m.result
            &&& is_on(c.world, l1.code) || (m1.at == Some(merge) && ir::has_predecessor(
                l1.code,
                merge,
            ))
            &&& settles(
                c,
                cc is NotEqual,
                m.values[current],
                exprs,
                seen(m, bs),
                seen(m1, bs),
                if m1.at == Some(merge) {
                    m1.values[p]
                } else {
                    m1.values[v]
                },
            )
        },
    decreases exprs, 0nat,
{
    let m = run(c.world, l.code);
    let wanted = cc is NotEqual;
    if exprs.len() == 0 {
        assert(m.at != Some(merge)) by {
            reveal(is_on);
        }
    } else {
        values::lemma_hand_over(c.world, l, cc, merge, current, p);
        match lowering::hand_over(l, cc, merge, current) {
            Some(l1) => {
                let m1 = run(c.world, l1.code);
                match lowering::expression(l1, exprs[0]) {
                    Some((l2, v)) => {
                        match lowering::alternatives(l2, cc, merge, v, exprs.skip(1)) {
                            Some((l3, v3)) => {
                                let m2 = run(c.world, l2.code);
                                let m3 = run(c.world, l3.code);
                                let n = ir::block_count(l1.code);
                                growth::lemma_hand_over(l, cc, merge, current);
                                growth::lemma_expression(l1, exprs[0]);
                                growth::lemma_alternatives(l2, cc, merge, v, exprs.skip(1));
                                lemma_start(l1.code, n);
                                paths::lemma_expression(l1.code, n, l1, exprs[0]);
                                lemma_position(l1.code, n, l2.code);
                                lemma_params(l1.code, n, l2.code);
                                ir::lemma_created(l.code, l1.code);
                                ir::lemma_created(l1.code, l2.code);
                                lemma_length(l1, exprs[0]);
                                lemma_fits_in(l2, l3, c);
                                assert(awaits(l2.code, merge, p));
                                assert(seen(m1, bs).locals =~= seen(m, bs).locals);
                                if (m.values[current] != 0) == wanted {
                                    lemma_idle(c.world, l1.code, n, l2.code);
                                    values::lemma_alternatives_idle(
                                        c.world,
                                        l2,
                                        cc,
                                        merge,
                                        v,
                                        exprs.skip(1),
                                        p,
                                    );
                                    values::lemma_alternatives_length(
                                        l2,
                                        cc,
                                        merge,
                                        v,
                                        exprs.skip(1),
                                    );
                                } else {
                                    lemma_ready(c, l, l1, current, bs);
                                    law_expression(c, l1, exprs[0], bs);
                                    lemma_ready(c, l1, l2, v, bs);
                                    lemma_alternatives(
                                        c,
                                        l2,
                                        cc,
                                        merge,
                                        v,
                                        exprs.skip(1),
                                        p,
                                        bs,
                                    );
                                    let x3 = if m3.at == Some(merge) {
                                        m3.values[p]
                                    } else {
                                        m3.values[v3]
                                    };
                                    assert(exprs.skip(1).len() == exprs.len() - 1);
                                    meaning::lemma_selects(
                                        c,
                                        wanted,
                                        exprs,
                                        seen(m1, bs),
                                        seen(m2, bs),
                                        m2.values[v],
                                        seen(m3, bs),
                                        x3,
                                    );
                                }
                            },
                            None => {},
                        }
                    },
                    None => {},
                }
            },
            None => {},
        }
    }
}

proof fn lemma_short_circuit(
    c: Setting,
    l: Lowering,
    cc: IntCC,
    exprs: Seq<Expression>,
    bs: Seq<(Seq<char>, Variable)>,
)
    requires
        is_ready(c, l, bs),
        cc is Equal || cc is NotEqual,
        lowering::short_circuit(l, cc, exprs) matches Some((l1, _)) ==> fits_in(l1, c),
    ensures
        lowering::short_circuit(l, cc, exprs) matches Some((l1, v)) ==> {
            let m = run(c.world, l.code);
            let m1 = run(c.world, l1.code);
            &&& arrives(c, l, l1, v)
            &&& selects(c, cc is NotEqual, exprs, seen(m, bs), seen(m1, bs), m1.values[v])
        },
    decreases exprs, 1nat,
{
    match lowering::short_circuit(l, cc, exprs) {
        Some((l4, v4)) => {
            let (l1, v) = lowering::expression(l, exprs[0])->0;
            let merge = lowering::new_block(Some(l1));
            let l2 = lowering::append_param(lowering::create_block(Some(l1)), merge)->0;
            let (l3, v3) = lowering::alternatives(l2, cc, merge, v, exprs.skip(1))->0;
            assert(lowering::merged(l3, v3, merge) == Some((l4, v4)));
            let m = run(c.world, l.code);
            growth::lemma_expression(l, exprs[0]);
            growth::lemma_alternatives(l2, cc, merge, v, exprs.skip(1));
            growth::lemma_merged(l3, v3, merge);
            growth::lemma_same(l1.module);
            lemma_fits_in(l3, l4, c);
            lemma_fits_in(l2, l3, c);
            lemma_fits_in(l1, l2, c);
            law_expression(c, l, exprs[0], bs);
            lemma_ready(c, l, l1, v, bs);
            values::lemma_merge_block(c, l1, v, bs);
            lemma_alternatives(c, l2, cc, merge, v, exprs.skip(1), l2.code, bs);
            values::lemma_merged(c.world, l3, v3, merge, l2.code);
            let m1 = run(c.world, l1.code);
            let m3 = run(c.world, l3.code);
            let m4 = run(c.world, l4.code);
            assert(seen(m4, bs).locals =~= seen(m3, bs).locals);
            assert(exprs.skip(1).len() == exprs.len() - 1);
            meaning::lemma_selects(
                c,
                cc is NotEqual,
                exprs,
                seen(m, bs),
                seen(m1, bs),
                m1.values[v],
                seen(m4, bs),
                m4.values[v4],
            );
        },
        None => {},
    }
}

/// The code of an expression computes its value.
pub proof fn law_expression(
    c: Setting,
    l: Lowering,
    e: Expression,
    bs: Seq<(Seq<char>, Variable)>,
)
    requires
        is_ready(c, l, bs),
        lowering::expression(l, e) matches Some((l1, _)) ==> fits_in(l1, c),
    ensures
        lowering::expression(l, e) matches Some((l1, v)) ==> {
            let m = run(c.world, l.code);
            let m1 = run(c.world, l1.code);
            &&& arrives(c, l, l1, v)
            &&& evaluates(c, e, seen(m, bs), seen(m1, bs), m1.values[v])
        },
    decreases e, 9nat,
{
    match e {
        Expression::Unary(..) => {
            lemma_unary(c, l, e, bs);
        },
        Expression::Infix(..) => {
            lemma_infix(c, l, e, bs);
        },
        Expression::FunctCall(call) => {
            law_call(c, l, *call, bs);
            assert(lowering::expression(l, e) == lowering::call(l, *call));
            match lowering::expression(l, e) {
                Some((l1, v)) => {
                    let m = run(c.world, l.code);
                    let m1 = run(c.world, l1.code);
                    meaning::lemma_function_call(
                        c,
                        e,
                        seen(m, bs),
                        seen(m1, bs),
                        m1.values[v],
                    );
                },
                None => {},
            }
        },
        Expression::Index(..) => {
            lemma_index(c, l, e, bs);
        },
        Expression::Table(..) => {
            lemma_table(c, l, e, bs);
        },
        _ => {
            values::lemma_simple(c, l, e, bs);
        },
    }
}

proof fn lemma_unary(c: Setting, l: Lowering, e: Expression, bs: Seq<(Seq<char>, Variable)>)
    requires
        is_ready(c, l, bs),
        e is Unary,
        lowering::expression(l, e) matches Some((l1, _)) ==> fits_in(l1, c),
    ensures
        lowering::expression(l, e) matches Some((l1, v)) ==> {
            let m = run(c.world, l.code);
            let m1 = run(c.world, l1.code);
            &&& arrives(c, l, l1, v)
            &&& evaluates(c, e, seen(m, bs), seen(m1, bs), m1.values[v])
        },
    decreases e, 1nat,
{
    match lowering::expression(l, e) {
        Some((l1, v)) => {
            match e {
                Expression::Unary(op, arg) => {
                    let (l2, x) = lowering::expression(l, *arg)->0;
                    let m = run(c.world, l.code);
                    let m1 = run(c.world, l1.code);
                    let m2 = run(c.world, l2.code);
                    assert(lowering::apply_unary(l2, op, x) == Some((l1, v)));
                    growth::lemma_expression(l, *arg);
                    growth::lemma_apply_unary(l2, op, x);
                    lemma_fits_in(l2, l1, c);
                    law_expression(c, l, *arg, bs);
                    values::lemma_apply_unary(c, l2, op, x, bs);
                    meaning::lemma_unary(
                        c,
                        e,
                        seen(m, bs),
                        seen(m2, bs),
                        m2.values[x],
                        seen(m1, bs),
                        m1.values[v],
                    );
                },
                _ => {},
            }
        },
        None => {},
    }
}

proof fn lemma_infix(c: Setting, l: Lowering, e: Expression, bs: Seq<(Seq<char>, Variable)>)
    requires
        is_ready(c, l, bs),
        e is Infix,
        lowering::expression(l, e) matches Some((l1, _)) ==> fits_in(l1, c),
    ensures
        lowering::expression(l, e) matches Some((l1, v)) ==> {
            let m = run(c.world, l.code);
            let m1 = run(c.world, l1.code);
            &&& arrives(c, l, l1, v)
            &&& evaluates(c, e, seen(m, bs), seen(m1, bs), m1.values[v])
        },
    decreases e, 1nat,
{
    match lowering::expression(l, e) {
        Some((l2, v)) => {
            match e {
                Expression::Infix(op, exprs) => {
                    let m = run(c.world, l.code);
                    let m2 = run(c.world, l2.code);
                    if op is Or {
                        assert(lowering::short_circuit(l, IntCC::NotEqual, exprs@) == Some(
                            (l2, v),
                        ));
                        lemma_short_circuit(c, l, IntCC::NotEqual, exprs@, bs);
                        meaning::lemma_infix(
                            c,
                            e,
                            seen(m, bs),
                            seen(m, bs),
                            seq![],
                            seen(m2, bs),
                            m2.values[v],
                        );
                    } else if op is And {
                        assert(lowering::short_circuit(l, IntCC::Equal, exprs@) == Some((l2, v)));
                        lemma_short_circuit(c, l, IntCC::Equal, exprs@, bs);
                        meaning::lemma_infix(
                            c,
                            e,
                            seen(m, bs),
                            seen(m, bs),
                            seq![],
                            seen(m2, bs),
                            m2.values[v],
                        );
                    } else {
                        let (l1, values) = lowering::expressions(l, Seq::empty(), exprs@)->0;
                        assert(lowering::combine(l1, op, values) == Some((l2, v)));
                        growth::lemma_expressions(l, Seq::empty(), exprs@);
                        growth::lemma_combine(l1, op, values);
                        lemma_fits_in(l1, l2, c);
                        law_expressions(c, l, Seq::empty(), exprs@, bs);
                        lemma_ready(c, l, l1, l1.code, bs);
                        assert(values.skip(0) =~= values);
                        values::lemma_combine(c, l1, op, values, bs);
                        let m1 = run(c.world, l1.code);
                        meaning::lemma_infix(
                            c,
                            e,
                            seen(m, bs),
                            seen(m1, bs),
                            numbers(m1.values, values),
                            seen(m2, bs),
                            m2.values[v],
                        );
                    }
                },
                _ => {},
            }
        },
        None => {},
    }
}

proof fn lemma_index(c: Setting, l: Lowering, e: Expression, bs: Seq<(Seq<char>, Variable)>)
    requires
        is_ready(c, l, bs),
        e is Index,
        lowering::expression(l, e) matches Some((l1, _)) ==> fits_in(l1, c),
    ensures
        lowering::expression(l, e) matches Some((l1, v)) ==> {
            let m = run(c.world, l.code);
            let m1 = run(c.world, l1.code);
            &&& arrives(c, l, l1, v)
            &&& evaluates(c, e, seen(m, bs), seen(m1, bs), m1.values[v])
        },
    decreases e, 1nat,
{
    match lowering::expression(l, e) {
        Some((l1, v)) => {
            match e {
                Expression::Index(table, index) => {
                    let w = c.world;
                    let (l2, t) = lowering::expression(l, *table)->0;
                    let (l3, i) = lowering::expression(l2, *index)->0;
                    assert(lowering::call_helper(l3, "lua_gettable"@, seq![t, i]) == Some(
                        (l1, v),
                    ));
                    let m = run(w, l.code);
                    let m2 = run(w, l2.code);
                    let m3 = run(w, l3.code);
                    growth::lemma_expression(l, *table);
                    growth::lemma_expression(l2, *index);
                    growth::lemma_call_helper(l3, "lua_gettable"@, seq![t, i]);
                    lemma_fits_in(l3, l1, c);
                    lemma_fits_in(l2, l3, c);
                    law_expression(c, l, *table, bs);
                    lemma_ready(c, l, l2, t, bs);
                    law_expression(c, l2, *index, bs);
                    lemma_still(c, l2, *index, t);
                    lemma_call_helper(c, l3, "lua_gettable"@, seq![t, i]);
                    let xs = seq![m2.values[t], m3.values[i]];
                    assert(numbers(m3.values, seq![t, i]) =~= xs);
                    lemma_called(c, m3, v, c.helper("lua_gettable"@), seq![t, i], xs, bs);
                    meaning::lemma_index(
                        c,
                        e,
                        seen(m, bs),
                        seen(m2, bs),
                        m2.values[t],
                        seen(m3, bs),
                        m3.values[i],
                    );
                },
                _ => {},
            }
        },
        None => {},
    }
}

proof fn lemma_table(c: Setting, l: Lowering, e: Expression, bs: Seq<(Seq<char>, Variable)>)
    requires
        is_ready(c, l, bs),
        e is Table,
        lowering::expression(l, e) matches Some((l1, _)) ==> fits_in(l1, c),
    ensures
        lowering::expression(l, e) matches Some((l1, v)) ==> {
            let m = run(c.world, l.code);
            let m1 = run(c.world, l1.code);
            &&& arrives(c, l, l1, v)
            &&& evaluates(c, e, seen(m, bs), seen(m1, bs), m1.values[v])
        },
    decreases e, 1nat,
{
    match lowering::expression(l, e) {
        Some((l1, v)) => {
            match e {
                Expression::Table(fields) => {
                    let helper = c.helper("lua_newtable"@);
                    let (l2, t) = lowering::call_helper(l, "lua_newtable"@, seq![])->0;
                    assert(lowering::table_fields(l2, t, fields@) == Some(l1));
                    let m = run(c.world, l.code);
                    let m1 = run(c.world, l1.code);
                    growth::lemma_call_helper(l, "lua_newtable"@, seq![]);
                    growth::lemma_table_fields(l2, t, fields@);
                    lemma_fits_in(l2, l1, c);
                    lemma_call_helper(c, l, "lua_newtable"@, seq![]);
                    assert(numbers(m.values, seq![]) =~= seq![]);
                    lemma_called(c, m, t, helper, seq![], seq![], bs);
                    lemma_ready(c, l, l2, t, bs);
                    law_table_fields(c, l2, t, fields@, bs);
                    meaning::lemma_table(c, e, seen(m, bs), seen(m1, bs), m1.values[v]);
                },
                _ => {},
            }
        },
        None => {},
    }
}

/// The code of expressions computes their values, in order.
pub proof fn law_expressions(
    c: Setting,
    l: Lowering,
    done: Seq<Origin>,
    exprs: Seq<Expression>,
    bs: Seq<(Seq<char>, Variable)>,
)
    requires
        is_ready(c, l, bs),
        forall|i: int| 0 <= i < done.len() ==> (#[trigger] done[i]).len() <= l.code.len(),
        lowering::expressions(l, done, exprs) matches Some((l1, _)) ==> fits_in(l1, c),
    ensures
        lowering::expressions(l, done, exprs) matches Some((l1, values)) ==> {
            let m = run(c.world, l.code);
            let m1 = run(c.world, l1.code);
            &&& arrives(c, l, l1, l1.code)
            &&& values.len() == done.len() + exprs.len()
            &&& values.take(done.len() as int) == done
            &&& forall|i: int|
                0 <= i < values.len() ==> (#[trigger] values[i]).len() <= l1.code.len()
            &&& evaluate(
                c,
                exprs,
                seen(m, bs),
                seen(m1, bs),
                numbers(m1.values, values.skip(done.len() as int)),
            )
        },
    decreases exprs, 0nat,
{
    let w = c.world;
    let m = run(w, l.code);
    let d = done.len() as int;
    if exprs.len() == 0 {
        assert(done.take(d) =~= done);
        meaning::lemma_evaluate_none(c, exprs, seen(m, bs), numbers(m.values, done.skip(d)));
    } else {
        match lowering::expression(l, exprs[0]) {
            Some((l1, v)) => {
                match lowering::expressions(l1, done.push(v), exprs.skip(1)) {
                    Some((l2, values)) => {
                        let m1 = run(w, l1.code);
                        let m2 = run(w, l2.code);
                        growth::lemma_expression(l, exprs[0]);
                        growth::lemma_expressions(l1, done.push(v), exprs.skip(1));
                        lemma_fits_in(l1, l2, c);
                        law_expression(c, l, exprs[0], bs);
                        lemma_ready(c, l, l1, v, bs);
                        law_expressions(c, l1, done.push(v), exprs.skip(1), bs);
                        assert(values.take(d + 1)[d] == v);
                        assert(values.take(d) =~= values.take(d + 1).take(d));
                        assert(done.push(v).take(d) =~= done);
                        let xs = numbers(m2.values, values.skip(d));
                        let n = ir::block_count(l1.code);
                        lemma_start(l1.code, n);
                        paths::lemma_expressions(l1.code, n, l1, done.push(v), exprs.skip(1));
                        lemma_kept(w, l1.code, n, l2.code, v);
                        assert(values.skip(d)[0] == v);
                        assert(xs[0] == m1.values[v]);
                        assert(xs.skip(1) =~= numbers(m2.values, values.skip(d + 1)));
                        meaning::lemma_evaluate_first(
                            c,
                            exprs,
                            seen(m, bs),
                            seen(m1, bs),
                            seen(m2, bs),
                            xs,
                        );
                    },
                    None => {},
                }
            },
            None => {},
        }
    }
}

/// The code of a table constructor puts its entries into the table, in order.
pub proof fn law_table_fields(
    c: Setting,
    l: Lowering,
    table: Origin,
    fields: Seq<Field>,
    bs: Seq<(Seq<char>, Variable)>,
)
    requires
        is_ready(c, l, bs),
        table.len() <= l.code.len(),
        lowering::table_fields(l, table, fields) matches Some(l1) ==> fits_in(l1, c),
    ensures
        lowering::table_fields(l, table, fields) matches Some(l1) ==> {
            let m = run(c.world, l.code);
            let m1 = run(c.world, l1.code);
            &&& arrives(c, l, l1, table)
            &&& m1.values[table] == m.values[table]
            &&& fills(c, m.values[table], fields, seen(m, bs), seen(m1, bs))
        },
    decreases fields, 0nat,
{
    let w = c.world;
    let m = run(w, l.code);
    if fields.len() == 0 {
        meaning::lemma_fills_none(c, m.values[table], fields, seen(m, bs));
    } else {
        match fields[0] {
            Field::Named(name, e) => {
                match lowering::expression(l, e) {
                    Some((l1, v)) => {
                        match lowering::store_field(l1, table, name@, v) {
                            Some(l2) => {
                                match lowering::table_fields(l2, table, fields.skip(1)) {
                                    Some(l3) => {
                                        let m1 = run(w, l1.code);
                                        let m2 = run(w, l2.code);
                                        let m3 = run(w, l3.code);
                                        growth::lemma_expression(l, e);
                                        growth::lemma_store_field(l1, table, name@, v);
                                        growth::lemma_table_fields(l2, table, fields.skip(1));
                                        lemma_fits_in(l2, l3, c);
                                        lemma_fits_in(l1, l2, c);
                                        law_expression(c, l, e, bs);
                                        lemma_ready(c, l, l1, v, bs);
                                        lemma_still(c, l, e, table);
                                        values::lemma_store_field(c, l1, table, name@, v, bs);
                                        lemma_ready(c, l1, l2, table, bs);
                                        law_table_fields(c, l2, table, fields.skip(1), bs);
                                        let bytes = vstd::utf8::encode_utf8(name@);
                                        let t = m.values[table];
                                        let x = m1.values[v];
                                        let key = choose|key: int| #[trigger]
                                            c.is_text(bytes, key) && seen(m2, bs) == c.after(
                                                c.helper("lua_settable"@),
                                                seq![t, key, x],
                                                seen(m1, bs),
                                            );
                                        meaning::lemma_fills_first(
                                            c,
                                            t,
                                            fields,
                                            seen(m, bs),
                                            seen(m1, bs),
                                            x,
                                            key,
                                            seen(m3, bs),
                                        );
                                    },
                                    None => {},
                                }
                            },
                            None => {},
                        }
                    },
                    None => {},
                }
            },
            _ => {},
        }
    }
}

/// The code of a call computes the function and its arguments, and calls it.
pub proof fn law_call(
    c: Setting,
    l: Lowering,
    call: FunctionCall,
    bs: Seq<(Seq<char>, Variable)>,
)
    requires
        is_ready(c, l, bs),
        lowering::call(l, call) matches Some((l1, _)) ==> fits_in(l1, c),
    ensures
        lowering::call(l, call) matches Some((l1, v)) ==> {
            let m = run(c.world, l.code);
            let m1 = run(c.world, l1.code);
            &&& arrives(c, l, l1, v)
            &&& calls(c, call, seen(m, bs), seen(m1, bs), m1.values[v])
        },
    decreases call, 1nat,
{
    match lowering::call(l, call) {
        Some((l3, v)) => {
            let w = c.world;
            let (l1, func) = lowering::callee(l, call.prefix)->0;
            let (l2, args) = lowering::expressions(l1, Seq::empty(), call.args@)->0;
            assert(lowering::call_value(l2, func, args) == Some((l3, v)));
            let m = run(w, l.code);
            let m1 = run(w, l1.code);
            let m2 = run(w, l2.code);
            growth::lemma_callee(l, call.prefix);
            growth::lemma_expressions(l1, Seq::empty(), call.args@);
            growth::lemma_call_value(l2, func, args);
            lemma_fits_in(l2, l3, c);
            lemma_fits_in(l1, l2, c);
            law_callee(c, l, call.prefix, bs);
            lemma_ready(c, l, l1, func, bs);
            law_expressions(c, l1, Seq::empty(), call.args@, bs);
            lemma_ready(c, l1, l2, l2.code, bs);
            let n = ir::block_count(l1.code);
            lemma_start(l1.code, n);
            paths::lemma_expressions(l1.code, n, l1, Seq::empty(), call.args@);
            lemma_kept(w, l1.code, n, l2.code, func);
            values::lemma_call_value(c, l2, func, args, bs);
            let xs = numbers(m2.values, args);
            assert(args.skip(0) =~= args);
            meaning::lemma_calls(
                c,
                call,
                seen(m, bs),
                seen(m1, bs),
                m1.values[func],
                seen(m2, bs),
                xs,
            );
        },
        None => {},
    }
}

/// The code for what is called computes it.
pub proof fn law_callee(
    c: Setting,
    l: Lowering,
    prefix: Expression,
    bs: Seq<(Seq<char>, Variable)>,
)
    requires
        is_ready(c, l, bs),
        lowering::callee(l, prefix) matches Some((l1, _)) ==> fits_in(l1, c),
    ensures
        lowering::callee(l, prefix) matches Some((l1, v)) ==> {
            let m = run(c.world, l.code);
            let m1 = run(c.world, l1.code);
            &&& arrives(c, l, l1, v)
            &&& finds(c, prefix, seen(m, bs), seen(m1, bs), m1.values[v])
        },
    decreases prefix, 10nat,
{
    match lowering::callee(l, prefix) {
        Some((l2, v)) => {
            let m = run(c.world, l.code);
            let m2 = run(c.world, l2.code);
            match prefix {
                Expression::Field(table, field) => {
                    let (l1, t) = lowering::expression(l, *table)->0;
                    assert(lowering::load_field(l1, t, field@) == Some((l2, v)));
                    let m1 = run(c.world, l1.code);
                    growth::lemma_expression(l, *table);
                    growth::lemma_load_field(l1, t, field@);
                    lemma_fits_in(l1, l2, c);
                    law_expression(c, l, *table, bs);
                    lemma_ready(c, l, l1, t, bs);
                    values::lemma_load_field(c, l1, t, field@, bs);
                    let bytes = vstd::utf8::encode_utf8(field@);
                    let helper = c.helper("lua_gettable"@);
                    let key = choose|key: int| #[trigger]
                        c.is_text(bytes, key) && m2.values[v] == c.answer(
                            helper,
                            seq![m1.values[t], key],
                            seen(m1, bs),
                        ) && seen(m2, bs) == c.after(
                            helper,
                            seq![m1.values[t], key],
                            seen(m1, bs),
                        );
                    meaning::lemma_finds_field(
                        c,
                        prefix,
                        seen(m, bs),
                        seen(m1, bs),
                        m1.values[t],
                        key,
                    );
                },
                _ => {
                    assert(lowering::expression(l, prefix) == Some((l2, v)));
                    law_expression(c, l, prefix, bs);
                    meaning::lemma_finds(
                        c,
                        prefix,
                        seen(m, bs),
                        seen(m2, bs),
                        m2.values[v],
                    );
                },
            }
        },
        None => {},
    }
}

} // verus!
