//! What Lua programs mean.
//!
//! All values are words: `nil` and `false` are zero, `true` is one, a string is
//! the address of its bytes, a function is the address of its code, and a table
//! is whatever the helper functions make of it. A word is false if it is zero.
use vstd::prelude::*;

use crate::ast::{Expression, Field, FunctionCall, InfixOp, Number, Statement, UnaryOp};
use crate::ir::{DataId, FuncId};
use crate::lowering;
use crate::lowering::Lowering;
use crate::machine::{quotient, signed, truth, unsigned, World};
use crate::module::{ModuleState, Symbol};

verus! {

/// What a program is run in.
pub struct Setting {
    pub world: World,
    /// The module, when all is in it.
    pub module: ModuleState,
    /// The data objects that global names stand for.
    pub globals: Map<Seq<char>, DataId>,
    /// The data objects that were there before the program.
    pub older: Set<DataId>,
}

/// What a program can change.
#[verifier::ext_equal]
pub struct Store {
    /// The local variables, the innermost last, with their values.
    pub locals: Seq<(Seq<char>, int)>,
    /// The words in memory, by their addresses.
    pub memory: Map<int, int>,
}

/// Whether there is a local variable.
pub open spec fn is_local(locals: Seq<(Seq<char>, int)>, name: Seq<char>) -> bool {
    exists|i: int| 0 <= i < locals.len() && #[trigger] locals[i].0 == name
}

/// The value of the innermost local variable of a name; zero if there is none.
pub open spec fn lookup(locals: Seq<(Seq<char>, int)>, name: Seq<char>) -> int
    decreases locals.len(),
{
    if locals.len() == 0 {
        0
    } else if locals.last().0 == name {
        locals.last().1
    } else {
        lookup(locals.drop_last(), name)
    }
}

/// The local variables when the innermost one of a name was given a value.
pub open spec fn replace(locals: Seq<(Seq<char>, int)>, name: Seq<char>, x: int) -> Seq<
    (Seq<char>, int),
>
    decreases locals.len(),
{
    if locals.len() == 0 {
        locals
    } else if locals.last().0 == name {
        locals.drop_last().push((name, x))
    } else {
        replace(locals.drop_last(), name, x).push(locals.last())
    }
}

/// Whether an expression is the table of global variables.
pub open spec fn is_globals(e: Expression) -> bool {
    e matches Expression::Var(name) && name@ == "_G"@
}

impl Store {
    /// The local variables that were declared after the first `n` are given up.
    pub open spec fn keep(self, n: nat) -> Store {
        Store { locals: self.locals.take(n as int), ..self }
    }

    pub open spec fn write(self, address: int, x: int) -> Store {
        Store { memory: self.memory.insert(address, x), ..self }
    }
}

impl Setting {
    /// Where the global variable of a name is.
    pub open spec fn cell(self, name: Seq<char>) -> int {
        (self.world.data)(self.globals[name])
    }

    /// Where the helper function of a name is.
    pub open spec fn helper(self, name: Seq<char>) -> int {
        match self.module.names[name] {
            Symbol::Function(id) => (self.world.code)(id),
            Symbol::Data(id) => (self.world.data)(id),
        }
    }

    /// What a call gives back.
    pub open spec fn answer(self, address: int, args: Seq<int>, s: Store) -> int {
        (self.world.call)(address, args, s.memory).0
    }

    /// What a call leaves behind.
    pub open spec fn after(self, address: int, args: Seq<int>, s: Store) -> Store {
        Store { memory: (self.world.call)(address, args, s.memory).1, ..s }
    }

    /// Whether a data object has the given contents. One that is not the
    /// program's own, or that is a global variable under the name of a string
    /// literal, may have others.
    pub open spec fn holds(self, id: DataId, bytes: Seq<u8>) -> bool {
        &&& id.0 < self.module.data.len()
        &&& self.older.contains(id) || self.module.data[id.0 as int].contents == Some(bytes)
            || self.module.data[id.0 as int].contents == Some(
            Seq::new(8, |i: int| 0u8),
        )
    }

    /// Whether a string with the given bytes is at an address.
    pub open spec fn is_text(self, bytes: Seq<u8>, address: int) -> bool {
        exists|id: DataId| #[trigger] self.holds(id, bytes) && address == (self.world.data)(id)
    }

    /// Whether the body of a function is the code that its statements are lowered to.
    pub open spec fn runs(
        self,
        id: FuncId,
        l: Lowering,
        params: Seq<String>,
        body: Seq<Statement>,
    ) -> bool {
        &&& id.0 < self.module.functions.len()
        &&& lowering::function(l, params, body) matches Some(f)
        &&& self.module.functions[id.0 as int].body == Some(f.code)
        &&& self.module.functions[id.0 as int].finished
        &&& self.module.functions[id.0 as int].signature.params == params.len()
    }

    /// Whether the code of a function is at an address.
    pub open spec fn is_function(
        self,
        params: Seq<String>,
        body: Seq<Statement>,
        address: int,
    ) -> bool {
        exists|id: FuncId, l: Lowering| #[trigger]
            self.runs(id, l, params, body) && address == (self.world.code)(id)
    }
}

/// Marks the store and the value that there are on the way.
pub open spec fn midway(s: Store, x: int) -> bool {
    true
}

/// Marks the store and the values that there are on the way.
pub open spec fn midway_all(s: Store, xs: Seq<int>) -> bool {
    true
}

/// Marks the store, and what is returned, on the way.
pub open spec fn midway_end(s: Store, taken: bool, end: Option<int>) -> bool {
    true
}

/// What an operator makes of two words.
pub open spec fn operate(op: InfixOp, x: int, y: int, bits: u16) -> int {
    match op {
        InfixOp::Add => signed(x + y, bits),
        InfixOp::Sub => signed(x - y, bits),
        InfixOp::Mul => signed(x * y, bits),
        InfixOp::Div => signed(quotient(x, y), bits),
        InfixOp::FloorDiv => signed(unsigned(x, bits) / unsigned(y, bits), bits),
        InfixOp::Mod => signed(x - y * quotient(x, y), bits),
        InfixOp::Less => truth(x < y),
        InfixOp::LessEq => truth(x <= y),
        InfixOp::Greater => truth(x > y),
        InfixOp::GreaterEq => truth(x >= y),
        InfixOp::Eq => truth(x == y),
        InfixOp::NotEq => truth(x != y),
        _ => 0,
    }
}

/// What an operator makes of words, from left to right.
pub open spec fn operate_all(op: InfixOp, x: int, others: Seq<int>, bits: u16) -> int
    decreases others.len(),
{
    if others.len() == 0 {
        x
    } else {
        operate_all(op, operate(op, x, others[0], bits), others.skip(1), bits)
    }
}

/// Whether strings are joined, from left to right, to one at `v`.
#[verifier::opaque]
pub open spec fn concatenates(
    c: Setting,
    x: int,
    others: Seq<int>,
    s: Store,
    s1: Store,
    v: int,
) -> bool
    decreases others.len(),
{
    if others.len() == 0 {
        s1 == s && v == x
    } else {
        let helper = c.helper("lua_concat"@);
        let args = seq![x, others[0]];
        concatenates(
            c,
            c.answer(helper, args, s),
            others.skip(1),
            c.after(helper, args, s),
            s1,
            v,
        )
    }
}

/// Whether a unary operator makes `v` of `x`.
pub open spec fn negates(c: Setting, op: UnaryOp, x: int, s: Store, s1: Store, v: int) -> bool {
    match op {
        UnaryOp::Minus => s1 == s && v == signed(-x, c.world.bits),
        UnaryOp::BitNot => s1 == s && v == signed(-x - 1, c.world.bits),
        UnaryOp::Not => s1 == s && v == truth(x == 0),
        UnaryOp::Len => {
            &&& v == c.answer(c.helper("lua_len"@), seq![x], s)
            &&& s1 == c.after(c.helper("lua_len"@), seq![x], s)
        },
    }
}

/// Whether the value of an expression can be `v`, and the store `s1` afterwards.
#[verifier::opaque]
pub open spec fn evaluates(c: Setting, e: Expression, s: Store, s1: Store, v: int) -> bool
    decreases e, 0nat,
{
    match e {
        Expression::Nil => s1 == s && v == 0,
        Expression::Boolean(b) => s1 == s && v == truth(b),
        Expression::Number(n) => s1 == s && v == match n {
            Number::Integer(i) => signed(i as int, c.world.bits),
            Number::Float(i) => signed(i as int, c.world.bits),
        },
        Expression::String(bytes) => s1 == s && c.is_text(bytes@, v),
        Expression::Var(name) => s1 == s && v == lookup(s.locals, name@),
        Expression::Unary(op, arg) => exists|s2: Store, x: int| #[trigger]
            midway(s2, x) && evaluates(c, *arg, s, s2, x) && negates(c, op, x, s2, s1, v),
        Expression::Infix(op, exprs) => match op {
            InfixOp::Or => selects(c, true, exprs@, s, s1, v),
            InfixOp::And => selects(c, false, exprs@, s, s1, v),
            InfixOp::Concat => exists|s2: Store, xs: Seq<int>| #[trigger]
                midway_all(s2, xs) && evaluate(
                    c,
                    exprs@,
                    s,
                    s2,
                    xs,
                ) && xs.len() != 0 && concatenates(
                    c,
                    xs[0],
                    xs.skip(1),
                    s2,
                    s1,
                    v,
                ),
            _ => exists|xs: Seq<int>| #[trigger]
                midway_all(s1, xs) && evaluate(
                    c,
                    exprs@,
                    s,
                    s1,
                    xs,
                ) && xs.len() != 0 && v == operate_all(
                    op,
                    xs[0],
                    xs.skip(1),
                    c.world.bits,
                ),
        },
        Expression::FunctCall(call) => calls(c, *call, s, s1, v),
        Expression::Field(table, field) => s1 == s && v == if is_globals(*table) {
            s.memory[c.cell(field@)]
        } else {
            0
        },
        Expression::Index(table, index) => exists|s2: Store, t: int, s3: Store, i: int|
            {
                &&& #[trigger] midway(s2, t)
                &&& #[trigger] midway(s3, i)
                &&& evaluates(c, *table, s, s2, t)
                &&& evaluates(c, *index, s2, s3, i)
                &&& v == c.answer(c.helper("lua_gettable"@), seq![t, i], s3)
                &&& s1 == c.after(c.helper("lua_gettable"@), seq![t, i], s3)
            },
        Expression::Table(fields) => {
            &&& v == c.answer(c.helper("lua_newtable"@), seq![], s)
            &&& fills(c, v, fields@, c.after(c.helper("lua_newtable"@), seq![], s), s1)
        },
        Expression::FunctDef(params, body) => s1 == s && c.is_function(params.names@, body@, v),
        Expression::Ellipsis => false,
    }
}

/// Whether the values of expressions can be `xs`, one for each.
#[verifier::opaque]
pub open spec fn evaluate(
    c: Setting,
    exprs: Seq<Expression>,
    s: Store,
    s1: Store,
    xs: Seq<int>,
) -> bool
    decreases exprs, 0nat,
{
    if exprs.len() == 0 {
        s1 == s && xs.len() == 0
    } else {
        xs.len() == exprs.len() && exists|s2: Store| #[trigger]
            midway(s2, xs[0]) && evaluates(
                c,
                exprs[0],
                s,
                s2,
                xs[0],
            ) && evaluate(c, exprs.skip(1), s2, s1, xs.skip(1))
    }
}

/// Whether `v` is the first value of which it is wanted that it be true, or
/// that it be false, or the last one if there is none. Only the expressions up
/// to that one are evaluated.
#[verifier::opaque]
pub open spec fn selects(
    c: Setting,
    wanted: bool,
    exprs: Seq<Expression>,
    s: Store,
    s1: Store,
    v: int,
) -> bool
    decreases exprs, 0nat,
{
    exprs.len() != 0 && exists|s2: Store, x: int| #[trigger]
        midway(s2, x) && evaluates(
            c,
            exprs[0],
            s,
            s2,
            x,
        ) && if exprs.len() == 1 || (x != 0) == wanted {
            s1 == s2 && v == x
        } else {
            selects(c, wanted, exprs.skip(1), s2, s1, v)
        }
}

/// Whether the entries of a constructor are put into the table `t`, in order.
#[verifier::opaque]
pub open spec fn fills(c: Setting, t: int, fields: Seq<Field>, s: Store, s1: Store) -> bool
    decreases fields, 0nat,
{
    if fields.len() == 0 {
        s1 == s
    } else {
        match fields[0] {
            Field::Named(name, e) => exists|s2: Store, x: int, key: int|
                {
                    &&& #[trigger] midway(s2, x)
                    &&& evaluates(c, e, s, s2, x)
                    &&& #[trigger] c.is_text(vstd::utf8::encode_utf8(name@), key)
                    &&& fills(
                        c,
                        t,
                        fields.skip(1),
                        c.after(c.helper("lua_settable"@), seq![t, key, x], s2),
                        s1,
                    )
                },
            _ => false,
        }
    }
}

/// Whether a call can give back `v`: the function comes first, then the
/// arguments in order, then the call.
#[verifier::opaque]
pub open spec fn calls(c: Setting, call: FunctionCall, s: Store, s1: Store, v: int) -> bool
    decreases call, 1nat,
{
    exists|s2: Store, f: int, s3: Store, xs: Seq<int>|
        {
            &&& #[trigger] midway(s2, f)
            &&& #[trigger] midway_all(s3, xs)
            &&& finds(c, call.prefix, s, s2, f)
            &&& evaluate(c, call.args@, s2, s3, xs)
            &&& v == c.answer(f, xs, s3)
            &&& s1 == c.after(f, xs, s3)
        }
}

/// Whether what is called can be `f`; a field is looked up in its table.
#[verifier::opaque]
pub open spec fn finds(c: Setting, prefix: Expression, s: Store, s1: Store, f: int) -> bool
    decreases prefix, 1nat,
{
    match prefix {
        Expression::Field(table, field) => exists|s2: Store, t: int, key: int|
            {
                &&& #[trigger] midway(s2, t)
                &&& evaluates(c, *table, s, s2, t)
                &&& #[trigger] c.is_text(vstd::utf8::encode_utf8(field@), key)
                &&& f == c.answer(c.helper("lua_gettable"@), seq![t, key], s2)
                &&& s1 == c.after(c.helper("lua_gettable"@), seq![t, key], s2)
            },
        _ => evaluates(c, prefix, s, s1, f),
    }
}

/// Whether a value can be given to a target.
#[verifier::opaque]
pub open spec fn stores(c: Setting, target: Expression, x: int, s: Store, s1: Store) -> bool {
    match target {
        Expression::Var(name) => s1 == if is_local(s.locals, name@) {
            Store { locals: replace(s.locals, name@, x), ..s }
        } else {
            s.write(c.cell(name@), x)
        },
        Expression::Field(table, field) => if is_globals(*table) {
            s1 == s.write(c.cell(field@), x)
        } else {
            exists|s2: Store, t: int, key: int|
                {
                    &&& #[trigger] midway(s2, t)
                    &&& evaluates(c, *table, s, s2, t)
                    &&& #[trigger] c.is_text(vstd::utf8::encode_utf8(field@), key)
                    &&& s1 == c.after(c.helper("lua_settable"@), seq![t, key, x], s2)
                }
        },
        Expression::Index(table, index) => exists|s2: Store, t: int, s3: Store, i: int|
            {
                &&& #[trigger] midway(s2, t)
                &&& #[trigger] midway(s3, i)
                &&& evaluates(c, *table, s, s2, t)
                &&& evaluates(c, *index, s2, s3, i)
                &&& s1 == c.after(c.helper("lua_settable"@), seq![t, i, x], s3)
            },
        _ => false,
    }
}

/// Whether each target can be given the value at its own place, in order, as
/// long as there are targets and values.
#[verifier::opaque]
pub open spec fn assigns(
    c: Setting,
    targets: Seq<Expression>,
    xs: Seq<int>,
    s: Store,
    s1: Store,
) -> bool
    decreases targets.len(),
{
    if targets.len() == 0 || xs.len() == 0 {
        s1 == s
    } else {
        exists|s2: Store| #[trigger]
            midway(s2, xs[0]) && stores(c, targets[0], xs[0], s, s2) && assigns(
                c,
                targets.skip(1),
                xs.skip(1),
                s2,
                s1,
            )
    }
}

/// The variables of a `local` statement, each with the value at its own place,
/// as long as there are names and values.
pub open spec fn declared(vars: Seq<(String, Option<String>)>, xs: Seq<int>) -> Seq<
    (Seq<char>, int),
> {
    Seq::new(
        if vars.len() <= xs.len() {
            vars.len()
        } else {
            xs.len()
        },
        |i: int| (vars[i].0@, xs[i]),
    )
}

/// How an `if` statement ends whose branch ended as given: the block after the
/// statement returns zero, so that what comes next is not reached.
pub open spec fn finish(end: Option<int>) -> Option<int> {
    match end {
        Some(v) => Some(v),
        None => Some(0),
    }
}

/// Whether a statement can leave the store as `s1`, and return what `end` says,
/// if it returns. Loops are left out.
#[verifier::opaque]
pub open spec fn executes(
    c: Setting,
    stmt: Statement,
    s: Store,
    s1: Store,
    end: Option<int>,
) -> bool
    decreases stmt, 0nat,
{
    match stmt {
        Statement::If { ifcases, elsecase } => exists|s2: Store, taken: bool, end2: Option<int>|
            #[trigger]
            midway_end(s2, taken, end2) && branches(c, ifcases@, s, s2, taken, end2) && if taken {
                s1 == s2 && end == finish(end2)
            } else {
                exists|s3: Store, end3: Option<int>| #[trigger]
                    midway_end(s3, taken, end3) && executes_all(c, elsecase@, s2, s3, end3) && s1
                        == s3.keep(s.locals.len()) && end == finish(end3)
            },
        Statement::Local { vars, exprs } => end is None && exists|s2: Store, xs: Seq<int>|
            #[trigger]
            midway_all(s2, xs) && evaluate(c, exprs@, s, s2, xs) && s1 == (Store {
                locals: s2.locals + declared(vars@, xs),
                ..s2
            }),
        Statement::Assign { vars, exprs } => end is None && exists|s2: Store, xs: Seq<int>|
            #[trigger]
            midway_all(s2, xs) && evaluate(c, exprs@, s, s2, xs) && assigns(c, vars@, xs, s2, s1),
        Statement::Return(exprs) => if exprs@.len() == 0 {
            s1 == s && end == Some(0int)
        } else {
            end matches Some(v) && evaluates(c, exprs@[0], s, s1, v)
        },
        Statement::FunctCall(call) => end is None && exists|v: int| #[trigger]
            midway(s1, v) && calls(c, call, s, s1, v),
        Statement::Do(body) => exists|s2: Store| #[trigger]
            midway_end(
                s2,
                true,
                end,
            ) && executes_all(c, body@, s, s2, end) && s1 == s2.keep(s.locals.len()),
        Statement::Function { name, params, body } => end is None && exists|address: int|
            #[trigger]
            c.is_function(params.names@, body@, address) && s1 == s.write(
                c.cell("__fn_ptr_"@ + lowering::joined(name.qname@)),
                address,
            ),
        _ => false,
    }
}

/// Whether the first case whose condition is true is taken, and its statements
/// can do that; if there is none, nothing more than the conditions is evaluated.
#[verifier::opaque]
pub open spec fn branches(
    c: Setting,
    ifcases: Seq<(Expression, Vec<Statement>)>,
    s: Store,
    s1: Store,
    taken: bool,
    end: Option<int>,
) -> bool
    decreases ifcases, 0nat,
{
    if ifcases.len() == 0 {
        s1 == s && !taken && end is None
    } else {
        exists|s2: Store, x: int| #[trigger]
            midway(s2, x) && evaluates(c, ifcases[0].0, s, s2, x) && if x != 0 {
                taken && exists|s3: Store| #[trigger]
                    midway_end(s3, true, end) && executes_all(
                        c,
                        ifcases[0].1@,
                        s2,
                        s3,
                        end,
                    ) && s1 == s3.keep(s.locals.len())
            } else {
                branches(c, ifcases.skip(1), s2, s1, taken, end)
            }
    }
}

/// Whether statements can do that one after the other, up to a return.
#[verifier::opaque]
pub open spec fn executes_all(
    c: Setting,
    stmts: Seq<Statement>,
    s: Store,
    s1: Store,
    end: Option<int>,
) -> bool
    decreases stmts, 0nat,
{
    if stmts.len() == 0 {
        s1 == s && end is None
    } else {
        exists|s2: Store, end2: Option<int>| #[trigger]
            midway_end(s2, true, end2) && executes(c, stmts[0], s, s2, end2) && if end2 is Some {
                s1 == s2 && end == end2
            } else {
                executes_all(c, stmts.skip(1), s2, s1, end)
            }
    }
}

// ---------------------------------------------------------------------------
// How expressions are evaluated, case by case

pub proof fn lemma_simple(c: Setting, e: Expression, s: Store, v: int)
    requires
        match e {
            Expression::Nil => v == 0,
            Expression::Boolean(b) => v == truth(b),
            Expression::Number(n) => v == match n {
                Number::Integer(i) => signed(i as int, c.world.bits),
                Number::Float(i) => signed(i as int, c.world.bits),
            },
            Expression::String(bytes) => c.is_text(bytes@, v),
            Expression::Var(name) => v == lookup(s.locals, name@),
            Expression::Field(table, field) => v == if is_globals(*table) {
                s.memory[c.cell(field@)]
            } else {
                0
            },
            Expression::FunctDef(params, body) => c.is_function(params.names@, body@, v),
            _ => false,
        },
    ensures
        evaluates(c, e, s, s, v),
{
    reveal(evaluates);
    reveal(calls);
    reveal(selects);
    reveal(evaluate);
    reveal(fills);
    reveal(concatenates);
}

pub proof fn lemma_unary(
    c: Setting,
    e: Expression,
    s: Store,
    s2: Store,
    x: int,
    s1: Store,
    v: int,
)
    requires
        e matches Expression::Unary(op, arg) && evaluates(c, *arg, s, s2, x) && negates(
            c,
            op,
            x,
            s2,
            s1,
            v,
        ),
    ensures
        evaluates(c, e, s, s1, v),
{
    reveal(evaluates);
    reveal(calls);
    reveal(selects);
    reveal(evaluate);
    reveal(fills);
    reveal(concatenates);
    assert(midway(s2, x));
}

pub proof fn lemma_infix(
    c: Setting,
    e: Expression,
    s: Store,
    s2: Store,
    xs: Seq<int>,
    s1: Store,
    v: int,
)
    requires
        e matches Expression::Infix(op, exprs) && match op {
            InfixOp::Or => selects(c, true, exprs@, s, s1, v),
            InfixOp::And => selects(c, false, exprs@, s, s1, v),
            InfixOp::Concat => evaluate(c, exprs@, s, s2, xs) && xs.len() != 0 && concatenates(
                c,
                xs[0],
                xs.skip(1),
                s2,
                s1,
                v,
            ),
            _ => evaluate(c, exprs@, s, s1, xs) && xs.len() != 0 && v == operate_all(
                op,
                xs[0],
                xs.skip(1),
                c.world.bits,
            ),
        },
    ensures
        evaluates(c, e, s, s1, v),
{
    reveal(evaluates);
    reveal(calls);
    reveal(selects);
    reveal(evaluate);
    reveal(fills);
    reveal(concatenates);
    assert(midway_all(s2, xs));
    assert(midway_all(s1, xs));
}

pub proof fn lemma_index(
    c: Setting,
    e: Expression,
    s: Store,
    s2: Store,
    t: int,
    s3: Store,
    i: int,
)
    requires
        e matches Expression::Index(table, index) && evaluates(c, *table, s, s2, t) && evaluates(
            c,
            *index,
            s2,
            s3,
            i,
        ),
    ensures
        evaluates(
            c,
            e,
            s,
            c.after(c.helper("lua_gettable"@), seq![t, i], s3),
            c.answer(c.helper("lua_gettable"@), seq![t, i], s3),
        ),
{
    reveal(evaluates);
    reveal(calls);
    reveal(selects);
    reveal(evaluate);
    reveal(fills);
    reveal(concatenates);
    assert(midway(s2, t));
    assert(midway(s3, i));
}

pub proof fn lemma_table(c: Setting, e: Expression, s: Store, s1: Store, v: int)
    requires
        e matches Expression::Table(fields) && v == c.answer(
            c.helper("lua_newtable"@),
            seq![],
            s,
        ) && fills(c, v, fields@, c.after(c.helper("lua_newtable"@), seq![], s), s1),
    ensures
        evaluates(c, e, s, s1, v),
{
    reveal(evaluates);
    reveal(calls);
    reveal(selects);
    reveal(evaluate);
    reveal(fills);
    reveal(concatenates);
}

pub proof fn lemma_function_call(c: Setting, e: Expression, s: Store, s1: Store, v: int)
    requires
        e matches Expression::FunctCall(call) && calls(c, *call, s, s1, v),
    ensures
        evaluates(c, e, s, s1, v),
{
    reveal(evaluates);
    reveal(calls);
    reveal(selects);
    reveal(evaluate);
    reveal(fills);
    reveal(concatenates);
}

pub proof fn lemma_evaluate_none(c: Setting, exprs: Seq<Expression>, s: Store, xs: Seq<int>)
    requires
        exprs.len() == 0,
        xs.len() == 0,
    ensures
        evaluate(c, exprs, s, s, xs),
{
    reveal(evaluate);
    reveal(evaluates);
}

pub proof fn lemma_evaluate_first(
    c: Setting,
    exprs: Seq<Expression>,
    s: Store,
    s2: Store,
    s1: Store,
    xs: Seq<int>,
)
    requires
        exprs.len() != 0,
        xs.len() == exprs.len(),
        evaluates(c, exprs[0], s, s2, xs[0]),
        evaluate(c, exprs.skip(1), s2, s1, xs.skip(1)),
    ensures
        evaluate(c, exprs, s, s1, xs),
{
    reveal(evaluate);
    reveal(evaluates);
    assert(midway(s2, xs[0]));
}

pub proof fn lemma_selects(
    c: Setting,
    wanted: bool,
    exprs: Seq<Expression>,
    s: Store,
    s2: Store,
    x: int,
    s1: Store,
    v: int,
)
    requires
        exprs.len() != 0,
        evaluates(c, exprs[0], s, s2, x),
        if exprs.len() == 1 || (x != 0) == wanted {
            s1 == s2 && v == x
        } else {
            selects(c, wanted, exprs.skip(1), s2, s1, v)
        },
    ensures
        selects(c, wanted, exprs, s, s1, v),
{
    reveal(selects);
    reveal(evaluates);
    assert(midway(s2, x));
}

pub proof fn lemma_fills_none(c: Setting, t: int, fields: Seq<Field>, s: Store)
    requires
        fields.len() == 0,
    ensures
        fills(c, t, fields, s, s),
{
    reveal(fills);
    reveal(evaluates);
}

pub proof fn lemma_fills_first(
    c: Setting,
    t: int,
    fields: Seq<Field>,
    s: Store,
    s2: Store,
    x: int,
    key: int,
    s1: Store,
)
    requires
        fields.len() != 0,
        fields[0] matches Field::Named(name, e) && evaluates(c, e, s, s2, x) && c.is_text(
            vstd::utf8::encode_utf8(name@),
            key,
        ),
        fills(
            c,
            t,
            fields.skip(1),
            c.after(c.helper("lua_settable"@), seq![t, key, x], s2),
            s1,
        ),
    ensures
        fills(c, t, fields, s, s1),
{
    reveal(fills);
    reveal(evaluates);
    assert(midway(s2, x));
}

pub proof fn lemma_calls(
    c: Setting,
    call: FunctionCall,
    s: Store,
    s2: Store,
    f: int,
    s3: Store,
    xs: Seq<int>,
)
    requires
        finds(c, call.prefix, s, s2, f),
        evaluate(c, call.args@, s2, s3, xs),
    ensures
        calls(c, call, s, c.after(f, xs, s3), c.answer(f, xs, s3)),
{
    reveal(calls);
    reveal(finds);
    reveal(evaluate);
    assert(midway(s2, f));
    assert(midway_all(s3, xs));
}

pub proof fn lemma_finds_field(
    c: Setting,
    prefix: Expression,
    s: Store,
    s2: Store,
    t: int,
    key: int,
)
    requires
        prefix matches Expression::Field(table, field) && evaluates(c, *table, s, s2, t)
            && c.is_text(vstd::utf8::encode_utf8(field@), key),
    ensures
        finds(
            c,
            prefix,
            s,
            c.after(c.helper("lua_gettable"@), seq![t, key], s2),
            c.answer(c.helper("lua_gettable"@), seq![t, key], s2),
        ),
{
    reveal(finds);
    reveal(evaluates);
    assert(midway(s2, t));
}

pub proof fn lemma_finds(c: Setting, prefix: Expression, s: Store, s1: Store, f: int)
    requires
        prefix !is Field,
        evaluates(c, prefix, s, s1, f),
    ensures
        finds(c, prefix, s, s1, f),
{
    reveal(finds);
    reveal(evaluates);
}

// ---------------------------------------------------------------------------
// How statements are executed, case by case

pub proof fn lemma_stores_field(
    c: Setting,
    target: Expression,
    x: int,
    s: Store,
    s2: Store,
    t: int,
    key: int,
)
    requires
        target matches Expression::Field(table, field) && !is_globals(*table)
            && evaluates(c, *table, s, s2, t) && c.is_text(vstd::utf8::encode_utf8(field@), key),
    ensures
        stores(c, target, x, s, c.after(c.helper("lua_settable"@), seq![t, key, x], s2)),
{
    reveal(stores);
    assert(midway(s2, t));
}

pub proof fn lemma_stores_entry(
    c: Setting,
    target: Expression,
    x: int,
    s: Store,
    s2: Store,
    t: int,
    s3: Store,
    i: int,
)
    requires
        target matches Expression::Index(table, index) && evaluates(c, *table, s, s2, t)
            && evaluates(c, *index, s2, s3, i),
    ensures
        stores(c, target, x, s, c.after(c.helper("lua_settable"@), seq![t, i, x], s3)),
{
    reveal(stores);
    assert(midway(s2, t));
    assert(midway(s3, i));
}

pub proof fn lemma_stores_variable(c: Setting, target: Expression, x: int, s: Store, s1: Store)
    requires
        match target {
            Expression::Var(name) => s1 == if is_local(s.locals, name@) {
                Store { locals: replace(s.locals, name@, x), ..s }
            } else {
                s.write(c.cell(name@), x)
            },
            Expression::Field(table, field) => is_globals(*table) && s1 == s.write(
                c.cell(field@),
                x,
            ),
            _ => false,
        },
    ensures
        stores(c, target, x, s, s1),
{
    reveal(stores);
}

pub proof fn lemma_assigns_none(
    c: Setting,
    targets: Seq<Expression>,
    xs: Seq<int>,
    s: Store,
)
    requires
        targets.len() == 0 || xs.len() == 0,
    ensures
        assigns(c, targets, xs, s, s),
{
    reveal(assigns);
}

pub proof fn lemma_assigns_first(
    c: Setting,
    targets: Seq<Expression>,
    xs: Seq<int>,
    s: Store,
    s2: Store,
    s1: Store,
)
    requires
        targets.len() != 0,
        xs.len() != 0,
        stores(c, targets[0], xs[0], s, s2),
        assigns(c, targets.skip(1), xs.skip(1), s2, s1),
    ensures
        assigns(c, targets, xs, s, s1),
{
    reveal(assigns);
    assert(midway(s2, xs[0]));
}

pub proof fn lemma_local(
    c: Setting,
    stmt: Statement,
    s: Store,
    s2: Store,
    xs: Seq<int>,
)
    requires
        stmt matches Statement::Local { vars, exprs } && evaluate(c, exprs@, s, s2, xs),
    ensures
        stmt matches Statement::Local { vars, exprs } && executes(
            c,
            stmt,
            s,
            Store { locals: s2.locals + declared(vars@, xs), ..s2 },
            None,
        ),
{
    reveal(executes);
    reveal(evaluate);
    assert(midway_all(s2, xs));
}

pub proof fn lemma_assign(
    c: Setting,
    stmt: Statement,
    s: Store,
    s2: Store,
    xs: Seq<int>,
    s1: Store,
)
    requires
        stmt matches Statement::Assign { vars, exprs } && evaluate(c, exprs@, s, s2, xs)
            && assigns(c, vars@, xs, s2, s1),
    ensures
        executes(c, stmt, s, s1, None),
{
    reveal(executes);
    assert(midway_all(s2, xs));
}

pub proof fn lemma_return(c: Setting, stmt: Statement, s: Store, s1: Store, v: int)
    requires
        stmt matches Statement::Return(exprs) && if exprs@.len() == 0 {
            s1 == s && v == 0
        } else {
            evaluates(c, exprs@[0], s, s1, v)
        },
    ensures
        executes(c, stmt, s, s1, Some(v)),
{
    reveal(executes);
}

pub proof fn lemma_call_statement(c: Setting, stmt: Statement, s: Store, s1: Store, v: int)
    requires
        stmt matches Statement::FunctCall(call) && calls(c, call, s, s1, v),
    ensures
        executes(c, stmt, s, s1, None),
{
    reveal(executes);
    assert(midway(s1, v));
}

pub proof fn lemma_do(c: Setting, stmt: Statement, s: Store, s2: Store, end: Option<int>)
    requires
        stmt matches Statement::Do(body) && executes_all(c, body@, s, s2, end),
    ensures
        executes(c, stmt, s, s2.keep(s.locals.len()), end),
{
    reveal(executes);
    reveal(executes_all);
    assert(midway_end(s2, true, end));
}

pub proof fn lemma_function(c: Setting, stmt: Statement, s: Store, address: int)
    requires
        stmt matches Statement::Function { name, params, body } && c.is_function(
            params.names@,
            body@,
            address,
        ),
    ensures
        stmt matches Statement::Function { name, params, body } && executes(
            c,
            stmt,
            s,
            s.write(c.cell("__fn_ptr_"@ + lowering::joined(name.qname@)), address),
            None,
        ),
{
    reveal(executes);
}

pub proof fn lemma_if(
    c: Setting,
    stmt: Statement,
    s: Store,
    s2: Store,
    taken: bool,
    end2: Option<int>,
    s3: Store,
    end3: Option<int>,
)
    requires
        stmt matches Statement::If { ifcases, elsecase } && branches(
            c,
            ifcases@,
            s,
            s2,
            taken,
            end2,
        ) && (!taken ==> executes_all(c, elsecase@, s2, s3, end3)),
    ensures
        taken ==> executes(c, stmt, s, s2, finish(end2)),
        !taken ==> executes(c, stmt, s, s3.keep(s.locals.len()), finish(end3)),
{
    reveal(executes);
    reveal(branches);
    reveal(executes_all);
    assert(midway_end(s2, taken, end2));
    assert(midway_end(s3, taken, end3));
}

pub proof fn lemma_branches_none(
    c: Setting,
    ifcases: Seq<(Expression, Vec<Statement>)>,
    s: Store,
)
    requires
        ifcases.len() == 0,
    ensures
        branches(c, ifcases, s, s, false, None),
{
    reveal(branches);
}

pub proof fn lemma_branches_taken(
    c: Setting,
    ifcases: Seq<(Expression, Vec<Statement>)>,
    s: Store,
    s2: Store,
    x: int,
    s3: Store,
    end: Option<int>,
)
    requires
        ifcases.len() != 0,
        evaluates(c, ifcases[0].0, s, s2, x),
        x != 0,
        executes_all(c, ifcases[0].1@, s2, s3, end),
    ensures
        branches(c, ifcases, s, s3.keep(s.locals.len()), true, end),
{
    reveal(branches);
    reveal(evaluates);
    reveal(executes_all);
    assert(midway(s2, x));
    assert(midway_end(s3, true, end));
}

pub proof fn lemma_branches_next(
    c: Setting,
    ifcases: Seq<(Expression, Vec<Statement>)>,
    s: Store,
    s2: Store,
    s1: Store,
    taken: bool,
    end: Option<int>,
)
    requires
        ifcases.len() != 0,
        evaluates(c, ifcases[0].0, s, s2, 0),
        branches(c, ifcases.skip(1), s2, s1, taken, end),
    ensures
        branches(c, ifcases, s, s1, taken, end),
{
    reveal(branches);
    reveal(evaluates);
    assert(midway(s2, 0));
}

pub proof fn lemma_executes_none(c: Setting, stmts: Seq<Statement>, s: Store)
    requires
        stmts.len() == 0,
    ensures
        executes_all(c, stmts, s, s, None),
{
    reveal(executes_all);
}

pub proof fn lemma_executes_first(
    c: Setting,
    stmts: Seq<Statement>,
    s: Store,
    s2: Store,
    end2: Option<int>,
    s1: Store,
    end: Option<int>,
)
    requires
        stmts.len() != 0,
        executes(c, stmts[0], s, s2, end2),
        if end2 is Some {
            s1 == s2 && end == end2
        } else {
            executes_all(c, stmts.skip(1), s2, s1, end)
        },
    ensures
        executes_all(c, stmts, s, s1, end),
{
    reveal(executes_all);
    reveal(executes);
    assert(midway_end(s2, true, end2));
}

} // verus!
