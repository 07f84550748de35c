//! What Lua programs are lowered to.
//!
//! Lowering is described as a function on states: what is asked of the builder,
//! how the blocks and the variables in scope are kept, and what the module
//! holds. It is partial: `None` stands for programs, or for the point in a
//! program, for which there is no code. That is where a construct has no
//! lowering, where the builder would be asked for something that it asserts not
//! to be asked for, where a name is taken by something else, and where there
//! are more things than can be numbered.
use vstd::prelude::*;

use crate::ast::{
    Expression, Field, FunctionCall, InfixOp, Number, Statement, UnaryOp,
};
use crate::blocks;
use crate::blocks::{Cursor, ManagerState};
use crate::ir;
use crate::ir::{
    limit, BinaryInst, Block, DataId, DataRef, FuncId, FuncRef, Inst, IntCC, IntType, Origin,
    Request, SigRef, Signature, UnaryInst, Variable,
};
use crate::module::{most_bytes, Linkage, ModuleState};

verus! {

/// The state of lowering one function.
pub struct Lowering {
    /// The type of all Lua values.
    pub word: IntType,
    pub code: Seq<Request>,
    pub manager: ManagerState,
    /// For each name, the variables that it stands for; the last one counts.
    pub locals: Map<Seq<char>, Seq<Variable>>,
    /// The names declared in each open scope, the innermost scope last.
    pub scopes: Seq<Seq<Seq<char>>>,
    pub next_var: nat,
    /// How many names were made up for string literals and function expressions.
    pub strings: nat,
    /// Whether a return was lowered.
    pub terminated: bool,
    pub module: ModuleState,
    /// The data objects that global names stand for.
    pub globals: Map<Seq<char>, DataId>,
}

// ---------------------------------------------------------------------------
// Single steps

impl Lowering {
    pub open spec fn with_code(self, h: Option<Seq<Request>>) -> Option<Lowering> {
        match h {
            Some(code) => Some(Lowering { code, ..self }),
            None => None,
        }
    }

    pub open spec fn cursor(self) -> Cursor {
        Cursor { code: self.code, manager: self.manager }
    }

    pub open spec fn with_cursor(self, c: Option<Cursor>) -> Option<Lowering> {
        match c {
            Some(c) => Some(Lowering { code: c.code, manager: c.manager, ..self }),
            None => None,
        }
    }
}

pub open spec fn emit(s: Option<Lowering>, inst: Inst) -> Option<Lowering> {
    match s {
        Some(l) => l.with_code(ir::emit(l.code, inst)),
        None => None,
    }
}

pub open spec fn create_block(s: Option<Lowering>) -> Option<Lowering> {
    match s {
        Some(l) => l.with_code(ir::create_block(l.code)),
        None => None,
    }
}

/// Creates a block that the block manager is told of.
pub open spec fn create_known(s: Option<Lowering>) -> Option<Lowering> {
    match s {
        Some(l) => l.with_cursor(l.cursor().create()),
        None => None,
    }
}

/// The block that is created next.
pub open spec fn new_block(s: Option<Lowering>) -> Block {
    ir::next_block(s->0.code)
}

/// The value made last.
pub open spec fn made(s: Option<Lowering>) -> Origin {
    s->0.code
}

/// A state, with the value made last.
pub open spec fn with_made(s: Option<Lowering>) -> Option<(Lowering, Origin)> {
    match s {
        Some(l) => Some((l, l.code)),
        None => None,
    }
}

pub open spec fn state(r: Option<(Lowering, Origin)>) -> Option<Lowering> {
    match r {
        Some((l, _)) => Some(l),
        None => None,
    }
}

/// Moves the builder, but not the block manager, to `block`.
pub open spec fn go_to(s: Option<Lowering>, block: Block) -> Option<Lowering> {
    match s {
        Some(l) => l.with_code(ir::switch_to(l.code, block)),
        None => None,
    }
}

/// Seals a block that the block manager is not told of.
pub open spec fn seal_quietly(s: Option<Lowering>, block: Block) -> Option<Lowering> {
    match s {
        Some(l) => l.with_code(ir::seal(l.code, block)),
        None => None,
    }
}

pub open spec fn append_param(s: Option<Lowering>, block: Block) -> Option<Lowering> {
    match s {
        Some(l) => l.with_code(ir::append_param(l.code, block, l.word)),
        None => None,
    }
}

pub open spec fn append_function_params(s: Option<Lowering>, block: Block) -> Option<Lowering> {
    match s {
        Some(l) => l.with_code(ir::append_function_params(l.code, block)),
        None => None,
    }
}

pub open spec fn switch_to(s: Option<Lowering>, block: Block) -> Option<Lowering> {
    match s {
        Some(l) => l.with_cursor(l.cursor().switch_to(block)),
        None => None,
    }
}

pub open spec fn jump_to(s: Option<Lowering>, block: Block) -> Option<Lowering> {
    match s {
        Some(l) => l.with_cursor(l.cursor().jump_to(block)),
        None => None,
    }
}

pub open spec fn seal(s: Option<Lowering>, block: Block) -> Option<Lowering> {
    match s {
        Some(l) => l.with_cursor(l.cursor().seal(block)),
        None => None,
    }
}

/// Whether the current block is unreachable.
pub open spec fn is_unreachable(s: Option<Lowering>) -> bool {
    s matches Some(l) && ir::unreachable(l.code)
}

/// A state in which there is a current block.
pub open spec fn located(s: Option<Lowering>) -> Option<Lowering> {
    match s {
        Some(l) => if ir::position(l.code) is Some {
            s
        } else {
            None
        },
        None => None,
    }
}

/// Emits an instruction unless the current block is unreachable.
pub open spec fn emit_if_reachable(s: Option<Lowering>, inst: Inst) -> Option<Lowering> {
    if located(s) is None {
        None
    } else if is_unreachable(s) {
        s
    } else {
        emit(s, inst)
    }
}

/// Jumps to a block unless the current block is unreachable.
pub open spec fn jump_if_reachable(s: Option<Lowering>, block: Block) -> Option<Lowering> {
    if located(s) is None {
        None
    } else if is_unreachable(s) {
        s
    } else {
        jump_to(s, block)
    }
}

/// Returns zero.
pub open spec fn return_zero(s: Option<Lowering>) -> Option<Lowering> {
    match s {
        Some(l) => l.with_code(blocks::return_zero(l.code, l.word)),
        None => None,
    }
}

pub open spec fn constant(l: Lowering, imm: i64) -> Option<(Lowering, Origin)> {
    with_made(emit(Some(l), Inst::Iconst { ty: l.word, imm }))
}

// ---------------------------------------------------------------------------
// Scopes

pub open spec fn enter_scope(l: Lowering) -> Lowering {
    Lowering { scopes: l.scopes.push(Seq::empty()), ..l }
}

pub open spec fn in_scope(s: Option<Lowering>) -> Option<Lowering> {
    match s {
        Some(l) => Some(enter_scope(l)),
        None => None,
    }
}

/// `locals` after each of `names` was given up once for each time that it is there.
pub open spec fn without(locals: Map<Seq<char>, Seq<Variable>>, names: Seq<Seq<char>>) -> Map<
    Seq<char>,
    Seq<Variable>,
> {
    Map::new(
        |n: Seq<char>|
            locals.contains_key(n) && (times(names, n) == 0 || times(names, n) < locals[n].len()),
        |n: Seq<char>| locals[n].take(locals[n].len() - times(names, n)),
    )
}

/// How often `name` is among `names`.
pub open spec fn times(names: Seq<Seq<char>>, name: Seq<char>) -> int
    decreases names.len(),
{
    if names.len() == 0 {
        0
    } else {
        times(names.drop_last(), name) + if names.last() == name {
            1int
        } else {
            0int
        }
    }
}

/// Giving up one more name takes away the last of its variables.
pub proof fn lemma_without_push(
    locals: Map<Seq<char>, Seq<Variable>>,
    names: Seq<Seq<char>>,
    name: Seq<char>,
)
    ensures
        ({
            let m = without(locals, names);
            without(locals, names.push(name)) == if !m.contains_key(name) {
                m
            } else if m[name].len() <= 1 {
                m.remove(name)
            } else {
                m.insert(name, m[name].drop_last())
            }
        }),
{
    let m = without(locals, names);
    let after = without(locals, names.push(name));
    assert(names.push(name).drop_last() =~= names);
    assert forall|n: Seq<char>| #![trigger times(names.push(name), n)]
        times(names.push(name), n) == times(names, n) + if n == name {
            1int
        } else {
            0int
        } && times(names, n) >= 0 by {
        lemma_times(names, n);
    }
    if m.contains_key(name) {
        let l = locals[name];
        let k = times(names, name);
        assert(times(names.push(name), name) == k + 1);
        lemma_times(names, name);
        assert(m[name] == l.take(l.len() - k));
        if m[name].len() <= 1 {
            assert(after =~= m.remove(name));
        } else {
            assert(l.take(l.len() - k - 1) =~= m[name].drop_last());
            assert(after =~= m.insert(name, m[name].drop_last()));
        }
    } else {
        assert(times(names.push(name), name) == times(names, name) + 1);
        lemma_times(names, name);
        assert(after =~= m);
    }
}

proof fn lemma_times(names: Seq<Seq<char>>, name: Seq<char>)
    ensures
        times(names, name) >= 0,
    decreases names.len(),
{
    if names.len() != 0 {
        lemma_times(names.drop_last(), name);
    }
}

/// The names declared in the innermost scope are given up.
pub open spec fn exit_scope(s: Option<Lowering>) -> Option<Lowering> {
    match s {
        Some(l) => if l.scopes.len() == 0 {
            s
        } else {
            Some(
                Lowering {
                    scopes: l.scopes.drop_last(),
                    locals: without(l.locals, l.scopes.last()),
                    ..l
                },
            )
        },
        None => None,
    }
}

/// The variables that `name` stands for.
pub open spec fn stack_of(locals: Map<Seq<char>, Seq<Variable>>, name: Seq<char>) -> Seq<Variable> {
    if locals.contains_key(name) {
        locals[name]
    } else {
        Seq::empty()
    }
}

/// `name` gets a new variable, in the innermost scope.
pub open spec fn declare_local(l: Lowering, name: Seq<char>) -> Option<Lowering> {
    if l.next_var < limit() {
        let var = Variable(l.next_var as u32);
        (Lowering {
            next_var: l.next_var + 1,
            locals: l.locals.insert(name, stack_of(l.locals, name).push(var)),
            scopes: if l.scopes.len() == 0 {
                seq![seq![name]]
            } else {
                l.scopes.update(l.scopes.len() - 1, l.scopes.last().push(name))
            },
            ..l
        }).with_code(ir::declare_var(l.code, var, l.word))
    } else {
        None
    }
}

/// `name` gets a new variable, which is given a value.
#[verifier::opaque]
pub open spec fn bind_local(l: Lowering, name: Seq<char>, v: Origin) -> Option<Lowering> {
    match declare_local(l, name) {
        Some(l1) => l1.with_code(ir::def_var(l1.code, Variable(l.next_var as u32), v)),
        None => None,
    }
}

/// The first names get variables with the given values, as long as there are
/// names and values.
pub open spec fn bind_locals(
    l: Lowering,
    vars: Seq<(String, Option<String>)>,
    values: Seq<Origin>,
) -> Option<Lowering>
    decreases vars.len(),
{
    if vars.len() == 0 || values.len() == 0 {
        Some(l)
    } else {
        match bind_local(l, vars[0].0@, values[0]) {
            Some(l1) => bind_locals(l1, vars.skip(1), values.skip(1)),
            None => None,
        }
    }
}

/// The names from the `i`th on get variables, with the parameters of `entry` as values.
pub open spec fn bind_params(l: Lowering, entry: Block, names: Seq<String>, i: nat) -> Option<
    Lowering,
>
    decreases names.len() - i,
{
    if i >= names.len() {
        Some(l)
    } else if i >= ir::params(l.code, entry).len() {
        None
    } else {
        match bind_local(l, names[i as int]@, ir::params(l.code, entry)[i as int]) {
            Some(l1) => bind_params(l1, entry, names, i + 1),
            None => None,
        }
    }
}

// ---------------------------------------------------------------------------
// Globals and helpers

/// The data object for the name of a global. A new one has the given contents,
/// or is a zero of eight bytes.
pub open spec fn declare_global(
    l: Lowering,
    name: Seq<char>,
    initializer: Option<Seq<u8>>,
) -> Option<(Lowering, DataId)> {
    if l.globals.contains_key(name) {
        Some((l, l.globals[name]))
    } else if !l.module.is_static() || l.module.data.len() >= limit() || initial(
        initializer,
    ).len() > most_bytes() {
        None
    } else {
        let declared = l.module.declare_data(name, Linkage::Export, true);
        match l.module.data_named(name) {
            Some(id) => if id.0 < declared.data.len() && declared.data_is_open(id) {
                Some(
                    (
                        Lowering {
                            module: declared.define_data(id, initial(initializer)),
                            globals: l.globals.insert(name, id),
                            ..l
                        },
                        id,
                    ),
                )
            } else {
                None
            },
            None => None,
        }
    }
}

/// The contents of a new data object.
pub open spec fn initial(initializer: Option<Seq<u8>>) -> Seq<u8> {
    match initializer {
        Some(bytes) => bytes,
        None => Seq::new(8, |i: int| 0u8),
    }
}

/// The address of the data object for the name of a global.
#[verifier::opaque]
pub open spec fn global_pointer(
    l: Lowering,
    name: Seq<char>,
    initializer: Option<Seq<u8>>,
) -> Option<(Lowering, Origin)> {
    match declare_global(l, name, initializer) {
        Some((l1, id)) => {
            let data = DataRef(ir::data_imports(l1.code) as u32);
            if id.0 < l1.module.data.len() {
                with_made(
                    emit(
                        l1.with_code(ir::import(l1.code, Request::ImportData { data: id })),
                        Inst::SymbolValue { ty: l1.word, data },
                    ),
                )
            } else {
                None
            }
        },
        None => None,
    }
}

/// A number in decimal notation.
pub open spec fn decimal(n: nat) -> Seq<char>
    decreases n,
{
    if n < 10 {
        seq![((48 + n) as u8) as char]
    } else {
        decimal(n / 10).push(((48 + n % 10) as u8) as char)
    }
}

/// A name that is made up is used once.
pub open spec fn made_up(l: Lowering) -> Option<Lowering> {
    if l.strings < usize::MAX {
        Some(Lowering { strings: l.strings + 1, ..l })
    } else {
        None
    }
}

/// The address of a data object with the bytes of a string.
#[verifier::opaque]
pub open spec fn string_pointer(l: Lowering, bytes: Seq<u8>) -> Option<(Lowering, Origin)> {
    match made_up(l) {
        Some(l1) => global_pointer(l1, "str_"@ + decimal(l.strings), Some(bytes)),
        None => None,
    }
}

/// The helper function `name`, imported.
pub open spec fn import_helper(l: Lowering, name: Seq<char>, params: usize) -> Option<
    (Lowering, FuncRef),
> {
    let signature = Signature { int: l.word, params, returns: 1 };
    if l.module.is_static() && l.module.functions.len() < limit() && signature.is_known() {
        let module = l.module.declare_function(name, Linkage::Import, signature);
        match l.module.function_named(name, signature) {
            Some(id) => if id.0 < module.functions.len() {
                match ir::import(l.code, module.import_of(id)) {
                    Some(code) => Some(
                        (
                            Lowering { module, code, ..l },
                            FuncRef(ir::function_imports(l.code) as u32),
                        ),
                    ),
                    None => None,
                }
            } else {
                None
            },
            None => None,
        }
    } else {
        None
    }
}

/// A call of the helper function `name`.
#[verifier::opaque]
pub open spec fn call_helper(l: Lowering, name: Seq<char>, args: Seq<Origin>) -> Option<
    (Lowering, Origin),
> {
    match import_helper(l, name, args.len() as usize) {
        Some((l1, callee)) => with_made(emit(Some(l1), Inst::Call { callee, args })),
        None => None,
    }
}

/// Calls of an imported function on the first value and each of the others in
/// turn, always with the result of the call before.
pub open spec fn call_chain(
    l: Lowering,
    callee: FuncRef,
    first: Origin,
    others: Seq<Origin>,
) -> Option<(Lowering, Origin)>
    decreases others.len(),
{
    if others.len() == 0 {
        Some((l, first))
    } else {
        match emit(Some(l), Inst::Call { callee, args: seq![first, others[0]] }) {
            Some(l1) => call_chain(l1, callee, l1.code, others.skip(1)),
            None => None,
        }
    }
}

// ---------------------------------------------------------------------------
// Operators

/// The comparison that an operator asks for.
pub open spec fn comparison(op: InfixOp) -> Option<IntCC> {
    match op {
        InfixOp::Less => Some(IntCC::SignedLessThan),
        InfixOp::LessEq => Some(IntCC::SignedLessThanOrEqual),
        InfixOp::Greater => Some(IntCC::SignedGreaterThan),
        InfixOp::GreaterEq => Some(IntCC::SignedGreaterThanOrEqual),
        InfixOp::Eq => Some(IntCC::Equal),
        InfixOp::NotEq => Some(IntCC::NotEqual),
        _ => None,
    }
}

/// The instruction that an operator asks for.
pub open spec fn arithmetic(op: InfixOp) -> Option<BinaryInst> {
    match op {
        InfixOp::Add => Some(BinaryInst::Iadd),
        InfixOp::Sub => Some(BinaryInst::Isub),
        InfixOp::Mul => Some(BinaryInst::Imul),
        InfixOp::Div => Some(BinaryInst::Sdiv),
        InfixOp::FloorDiv => Some(BinaryInst::Udiv),
        InfixOp::Mod => Some(BinaryInst::Srem),
        _ => None,
    }
}

/// The value made last, as wide as a Lua value.
pub open spec fn widened(s: Option<Lowering>) -> Option<(Lowering, Origin)> {
    match s {
        Some(l) => with_made(emit(s, Inst::Uextend { ty: l.word, arg: made(s) })),
        None => None,
    }
}

/// An operator applied to two values.
pub open spec fn apply(
    l: Lowering,
    op: InfixOp,
    x: Origin,
    y: Origin,
) -> Option<(Lowering, Origin)> {
    match arithmetic(op) {
        Some(op) => with_made(emit(Some(l), Inst::Binary { op, x, y })),
        None => match comparison(op) {
            Some(cc) => widened(emit(Some(l), Inst::Icmp { cc, x, y })),
            None => None,
        },
    }
}

/// An operator applied to the first value and each of the others in turn.
pub open spec fn apply_all(l: Lowering, op: InfixOp, first: Origin, others: Seq<Origin>) -> Option<
    (Lowering, Origin),
>
    decreases others.len(),
{
    if others.len() == 0 {
        Some((l, first))
    } else {
        match apply(l, op, first, others[0]) {
            Some((l1, v)) => apply_all(l1, op, v, others.skip(1)),
            None => None,
        }
    }
}

/// The operator applied to values that were computed before.
#[verifier::opaque]
pub open spec fn combine(l: Lowering, op: InfixOp, values: Seq<Origin>) -> Option<
    (Lowering, Origin),
> {
    if values.len() == 0 {
        None
    } else if op is Concat {
        match import_helper(l, "lua_concat"@, 2) {
            Some((l1, callee)) => call_chain(l1, callee, values[0], values.skip(1)),
            None => None,
        }
    } else {
        apply_all(l, op, values[0], values.skip(1))
    }
}

/// A unary operator applied to a value.
#[verifier::opaque]
pub open spec fn apply_unary(l: Lowering, op: UnaryOp, arg: Origin) -> Option<(Lowering, Origin)> {
    match op {
        UnaryOp::Minus => with_made(emit(Some(l), Inst::Unary { op: UnaryInst::Ineg, arg })),
        UnaryOp::BitNot => with_made(emit(Some(l), Inst::Unary { op: UnaryInst::Bnot, arg })),
        UnaryOp::Not => widened(emit(Some(l), Inst::IcmpImm { cc: IntCC::Equal, x: arg, imm: 0 })),
        UnaryOp::Len => call_helper(l, "lua_len"@, seq![arg]),
    }
}

/// A call of a computed function.
#[verifier::opaque]
pub open spec fn call_value(l: Lowering, callee: Origin, args: Seq<Origin>) -> Option<
    (Lowering, Origin),
> {
    let signature = Signature { int: l.word, params: args.len() as usize, returns: 1 };
    let sig = SigRef(ir::signature_imports(l.code) as u32);
    if signature.is_known() {
        with_made(
            emit(
                l.with_code(ir::import(l.code, Request::ImportSignature { signature })),
                Inst::CallIndirect { signature: sig, callee, args },
            ),
        )
    } else {
        None
    }
}

/// The variable that `name` stands for, or zero.
#[verifier::opaque]
pub open spec fn variable(l: Lowering, name: Seq<char>) -> Option<(Lowering, Origin)> {
    if stack_of(l.locals, name).len() != 0 {
        with_made(l.with_code(ir::use_var(l.code, stack_of(l.locals, name).last())))
    } else {
        constant(l, 0)
    }
}

/// The global variable `name`.
#[verifier::opaque]
pub open spec fn load_global(l: Lowering, name: Seq<char>) -> Option<(Lowering, Origin)> {
    match global_pointer(l, name, None) {
        Some((l1, ptr)) => with_made(
            emit(Some(l1), Inst::Load { ty: l1.word, ptr, offset: 0 }),
        ),
        None => None,
    }
}

/// The value of a field of a table, whose name is made a string.
#[verifier::opaque]
pub open spec fn load_field(l: Lowering, table: Origin, field: Seq<char>) -> Option<
    (Lowering, Origin),
> {
    match string_pointer(l, vstd::utf8::encode_utf8(field)) {
        Some((l1, key)) => call_helper(l1, "lua_gettable"@, seq![table, key]),
        None => None,
    }
}

/// Writes a value to an entry of a table.
#[verifier::opaque]
pub open spec fn store_entry(
    l: Lowering,
    table: Origin,
    key: Origin,
    v: Origin,
) -> Option<Lowering> {
    state(call_helper(l, "lua_settable"@, seq![table, key, v]))
}

/// Writes a value to a field of a table, whose name is made a string.
#[verifier::opaque]
pub open spec fn store_field(l: Lowering, table: Origin, field: Seq<char>, v: Origin) -> Option<
    Lowering,
> {
    match string_pointer(l, vstd::utf8::encode_utf8(field)) {
        Some((l1, key)) => store_entry(l1, table, key, v),
        None => None,
    }
}

/// Writes a value to a local variable, or to a global one if there is none.
#[verifier::opaque]
pub open spec fn store_variable(l: Lowering, name: Seq<char>, v: Origin) -> Option<Lowering> {
    if !l.locals.contains_key(name) {
        store_global(l, name, v)
    } else if l.locals[name].len() != 0 {
        l.with_code(ir::def_var(l.code, l.locals[name].last(), v))
    } else {
        None
    }
}

/// Whether an expression is the table of global variables.
pub open spec fn is_globals_table(e: Expression) -> bool {
    e matches Expression::Var(name) && name@ == "_G"@
}

/// Writes a value to a global variable.
#[verifier::opaque]
pub open spec fn store_global(l: Lowering, name: Seq<char>, v: Origin) -> Option<Lowering> {
    match global_pointer(l, name, None) {
        Some((l1, ptr)) => emit(Some(l1), Inst::Store { value: v, ptr, offset: 0 }),
        None => None,
    }
}

// ---------------------------------------------------------------------------
// Expressions

pub open spec fn expression(l: Lowering, e: Expression) -> Option<(Lowering, Origin)>
    decreases e, 0nat,
{
    match e {
        Expression::Nil => with_made(emit(Some(l), Inst::Null { ty: l.word })),
        Expression::Boolean(b) => constant(
            l,
            if b {
                1
            } else {
                0
            },
        ),
        Expression::Number(n) => match n {
            Number::Integer(i) => constant(l, i),
            Number::Float(i) => constant(l, i),
        },
        Expression::Var(name) => variable(l, name@),
        Expression::Unary(op, arg) => match expression(l, *arg) {
            Some((l1, v)) => apply_unary(l1, op, v),
            None => None,
        },
        Expression::Infix(op, exprs) => match op {
            InfixOp::Or => short_circuit(l, IntCC::NotEqual, exprs@),
            InfixOp::And => short_circuit(l, IntCC::Equal, exprs@),
            _ => match expressions(l, Seq::empty(), exprs@) {
                Some((l1, values)) => combine(l1, op, values),
                None => None,
            },
        },
        Expression::String(bytes) => string_pointer(l, bytes@),
        Expression::FunctCall(c) => call(l, *c),
        Expression::Field(table, field) => if is_globals_table(*table) {
            load_global(l, field@)
        } else {
            constant(l, 0)
        },
        Expression::Index(table, index) => match expression(l, *table) {
            Some((l1, t)) => match expression(l1, *index) {
                Some((l2, i)) => call_helper(l2, "lua_gettable"@, seq![t, i]),
                None => None,
            },
            None => None,
        },
        Expression::Table(fields) => match call_helper(l, "lua_newtable"@, seq![]) {
            Some((l1, t)) => match table_fields(l1, t, fields@) {
                Some(l2) => Some((l2, t)),
                None => None,
            },
            None => None,
        },
        Expression::FunctDef(params, body) => match made_up(l) {
            Some(l1) => {
                let name = "lambda_"@ + decimal(l.strings);
                match function(l1, params.names@, body@) {
                    Some(f) => match install(l1, f, name, params.names.len()) {
                        Some((l2, id)) => function_address(l2, id),
                        None => None,
                    },
                    None => None,
                }
            },
            None => None,
        },
        Expression::Ellipsis => None,
    }
}

/// Expressions from left to right; their values come after those in `done`.
pub open spec fn expressions(l: Lowering, done: Seq<Origin>, exprs: Seq<Expression>) -> Option<
    (Lowering, Seq<Origin>),
>
    decreases exprs, 0nat,
{
    if exprs.len() == 0 {
        Some((l, done))
    } else {
        match expression(l, exprs[0]) {
            Some((l1, v)) => expressions(l1, done.push(v), exprs.skip(1)),
            None => None,
        }
    }
}

/// The first operand that compares with zero as `cc` says, or the last one.
pub open spec fn short_circuit(l: Lowering, cc: IntCC, exprs: Seq<Expression>) -> Option<
    (Lowering, Origin),
>
    decreases exprs, 1nat,
{
    if exprs.len() == 0 {
        None
    } else {
        match expression(l, exprs[0]) {
            Some((l1, v)) => {
                let merge = new_block(Some(l1));
                match append_param(create_block(Some(l1)), merge) {
                    Some(l2) => match alternatives(l2, cc, merge, v, exprs.skip(1)) {
                        Some((l3, v3)) => merged(l3, v3, merge),
                        None => None,
                    },
                    None => None,
                }
            },
            None => None,
        }
    }
}

/// The operands after the first: `current` is handed to `merge` if it compares
/// with zero as `cc` says; else the next operand takes its place.
pub open spec fn alternatives(
    l: Lowering,
    cc: IntCC,
    merge: Block,
    current: Origin,
    exprs: Seq<Expression>,
) -> Option<(Lowering, Origin)>
    decreases exprs, 0nat,
{
    if exprs.len() == 0 {
        Some((l, current))
    } else {
        match hand_over(l, cc, merge, current) {
            Some(l1) => match expression(l1, exprs[0]) {
                Some((l2, v)) => alternatives(l2, cc, merge, v, exprs.skip(1)),
                None => None,
            },
            None => None,
        }
    }
}

/// `current` is handed to `merge` if it compares with zero as `cc` says; else
/// a new block comes next.
#[verifier::opaque]
pub open spec fn hand_over(l: Lowering, cc: IntCC, merge: Block, current: Origin) -> Option<
    Lowering,
> {
    let next = new_block(Some(l));
    let s1 = emit(create_block(Some(l)), Inst::IcmpImm { cc, x: current, imm: 0 });
    let s2 = emit(
        s1,
        Inst::Brif {
            cond: made(s1),
            then_block: merge,
            then_args: seq![current],
            else_block: next,
            else_args: seq![],
        },
    );
    seal_quietly(go_to(s2, next), next)
}

/// The last operand is handed to `merge`, whose parameter is the result.
#[verifier::opaque]
pub open spec fn merged(l: Lowering, current: Origin, merge: Block) -> Option<(Lowering, Origin)> {
    let s = emit_if_reachable(Some(l), Inst::Jump { target: merge, args: seq![current] });
    match seal_quietly(go_to(s, merge), merge) {
        Some(l1) => if ir::params(l1.code, merge).len() != 0 {
            Some((l1, ir::params(l1.code, merge)[0]))
        } else {
            None
        },
        None => None,
    }
}

/// The entries of a table constructor, stored into `table`.
pub open spec fn table_fields(l: Lowering, table: Origin, fields: Seq<Field>) -> Option<Lowering>
    decreases fields, 0nat,
{
    if fields.len() == 0 {
        Some(l)
    } else {
        match fields[0] {
            Field::Named(name, e) => match expression(l, e) {
                Some((l1, v)) => match store_field(l1, table, name@, v) {
                    Some(l2) => table_fields(l2, table, fields.skip(1)),
                    None => None,
                },
                None => None,
            },
            _ => None,
        }
    }
}

/// A call: the function, then the arguments, then the call.
pub open spec fn call(l: Lowering, c: FunctionCall) -> Option<(Lowering, Origin)>
    decreases c, 1nat,
{
    match callee(l, c.prefix) {
        Some((l1, func)) => match expressions(l1, Seq::empty(), c.args@) {
            Some((l2, args)) => call_value(l2, func, args),
            None => None,
        },
        None => None,
    }
}

/// What is called: a field is looked up in its table.
pub open spec fn callee(l: Lowering, prefix: Expression) -> Option<(Lowering, Origin)>
    decreases prefix, 1nat,
{
    match prefix {
        Expression::Field(table, field) => match expression(l, *table) {
            Some((l1, t)) => load_field(l1, t, field@),
            None => None,
        },
        _ => expression(l, prefix),
    }
}

/// A function in a function: its code is complete, but not yet in the module.
pub open spec fn function(l: Lowering, params: Seq<String>, body: Seq<Statement>) -> Option<
    Lowering,
>
    decreases body, 1nat,
{
    match begin_function(l, params) {
        Some(l1) => match every(l1, body) {
            Some(l2) => end_function(l2),
            None => None,
        },
        None => None,
    }
}

/// The first block of a function.
pub open spec fn entry() -> Block {
    Block(0)
}

/// The start of a function in a function: it has its first block.
pub open spec fn function_start(l: Lowering, params: usize) -> Option<Lowering> {
    let signature = Signature { int: l.word, params, returns: 1 };
    let start = Some(
        Lowering {
            code: seq![Request::Begin { signature }],
            manager: ManagerState::fresh(l.word),
            locals: Map::empty(),
            scopes: seq![Seq::empty()],
            next_var: 0,
            terminated: false,
            ..l
        },
    );
    seal_quietly(go_to(append_function_params(create_block(start), entry()), entry()), entry())
}

/// The start of a function in a function: its parameters have variables.
#[verifier::opaque]
pub open spec fn begin_function(l: Lowering, params: Seq<String>) -> Option<Lowering> {
    match function_start(l, params.len() as usize) {
        Some(l1) => if (Signature {
            int: l.word,
            params: params.len() as usize,
            returns: 1,
        }).is_known() {
            bind_params(l1, entry(), params, 0)
        } else {
            None
        },
        None => None,
    }
}

/// The end of a function in a function, where zero is returned.
#[verifier::opaque]
pub open spec fn end_function(l: Lowering) -> Option<Lowering> {
    match return_zero(Some(l)) {
        Some(l1) => if ir::complete(l1.code) {
            Some(l1)
        } else {
            None
        },
        None => None,
    }
}

/// A function, lowered to `f`, is put into the module under a name.
#[verifier::opaque]
pub open spec fn install(l: Lowering, f: Lowering, name: Seq<char>, params: usize) -> Option<
    (Lowering, FuncId),
> {
    let signature = Signature { int: l.word, params, returns: 1 };
    if f.module.is_static() && f.module.functions.len() < limit() && signature.is_known() {
        let declared = f.module.declare_function(name, Linkage::Local, signature);
        match f.module.function_named(name, signature) {
            Some(id) => {
                let defined = declared.define_function(id, f.code);
                if id.0 < declared.functions.len() && declared.function_is_open(id)
                    && defined.is_linked() && ir::compilable(f.code) && f.module.is_careful() {
                    Some(
                        (
                            Lowering {
                                module: defined.finish(),
                                globals: f.globals,
                                strings: f.strings,
                                ..l
                            },
                            id,
                        ),
                    )
                } else {
                    None
                }
            },
            None => None,
        }
    } else {
        None
    }
}

/// The address of a function of the module.
#[verifier::opaque]
pub open spec fn function_address(l: Lowering, id: FuncId) -> Option<(Lowering, Origin)> {
    if l.module.is_finished(id) {
        with_made(emit(Some(l), Inst::FunctionAddress { ty: l.word, func: id }))
    } else {
        None
    }
}

// ---------------------------------------------------------------------------
// Statements

/// A block to put the next statement in: the open block if it is still empty
/// and can be reached, else a new one.
#[verifier::opaque]
pub open spec fn fresh_block(l: Lowering) -> Option<Lowering> {
    match l.manager.current {
        Some(block) => if ir::position(l.code) is None {
            None
        } else if ir::unreachable(l.code) || ir::inserted(l.code, block) {
            start_block(l)
        } else {
            Some(l)
        },
        None => start_block(l),
    }
}

/// A new block, with the parameters of the function.
pub open spec fn start_block(l: Lowering) -> Option<Lowering> {
    let block = new_block(Some(l));
    switch_to(append_function_params(create_known(Some(l)), block), block)
}

pub open spec fn set_terminated(s: Option<Lowering>, terminated: bool) -> Option<Lowering> {
    match s {
        Some(l) => Some(Lowering { terminated, ..l }),
        None => None,
    }
}

/// No block is open.
pub open spec fn close(s: Option<Lowering>) -> Option<Lowering> {
    match s {
        Some(l) => Some(
            Lowering { manager: ManagerState { current: None, ..l.manager }, ..l },
        ),
        None => None,
    }
}

/// The start of a `while` loop: its blocks are created, and the condition goes
/// to the first of them.
#[verifier::opaque]
pub open spec fn begin_while(l: Lowering) -> Option<Lowering> {
    let s = Some(l);
    let header = new_block(s);
    let s1 = create_block(create_block(create_block(s)));
    go_to(jump_if_reachable(s1, header), header)
}

/// The condition of a `while` loop decides between the body and the exit.
#[verifier::opaque]
pub open spec fn test_while(
    l: Lowering,
    cond: Origin,
    header: Block,
    body: Block,
    exit: Block,
) -> Option<Lowering> {
    let s = emit(
        Some(l),
        Inst::Brif {
            cond,
            then_block: body,
            then_args: seq![],
            else_block: exit,
            else_args: seq![],
        },
    );
    in_scope(go_to(seal(s, header), body))
}

/// The end of a `while` loop: the body goes back to the condition.
#[verifier::opaque]
pub open spec fn end_while(l: Lowering, header: Block, body: Block, exit: Block) -> Option<
    Lowering,
> {
    leave_loop(
        emit_if_reachable(Some(l), Inst::Jump { target: header, args: seq![] }),
        body,
        exit,
    )
}

/// What comes after a loop goes to its exit.
pub open spec fn leave_loop(s: Option<Lowering>, body: Block, exit: Block) -> Option<Lowering> {
    seal(seal(go_to(exit_scope(s), exit), body), exit)
}

/// The start of a `repeat` loop: its blocks are created, and the body goes to
/// the first of them.
#[verifier::opaque]
pub open spec fn begin_repeat(l: Lowering) -> Option<Lowering> {
    let s = Some(l);
    let body = new_block(s);
    let s1 = emit_if_reachable(
        create_block(create_block(s)),
        Inst::Jump { target: body, args: seq![] },
    );
    in_scope(go_to(s1, body))
}

/// The end of a `repeat` loop: the condition decides between the exit and the body.
#[verifier::opaque]
pub open spec fn end_repeat(l: Lowering, cond: Origin, body: Block, exit: Block) -> Option<
    Lowering,
> {
    leave_loop(
        emit_if_reachable(
            Some(l),
            Inst::Brif {
                cond,
                then_block: exit,
                then_args: seq![],
                else_block: body,
                else_args: seq![],
            },
        ),
        body,
        exit,
    )
}

/// A value is returned, and no block is open afterwards.
#[verifier::opaque]
pub open spec fn give_back(l: Lowering, v: Origin) -> Option<Lowering> {
    let s = emit_if_reachable(Some(l), Inst::Return { args: seq![v] });
    let sealed = match s {
        Some(l) => match l.manager.current {
            Some(current) => seal(s, current),
            None => s,
        },
        None => None,
    };
    set_terminated(close(sealed), true)
}

/// The address of a function is written to the global that stands for it.
#[verifier::opaque]
pub open spec fn publish(l: Lowering, id: FuncId, name: Seq<char>) -> Option<Lowering> {
    match global_pointer(l, "__fn_ptr_"@ + name, None) {
        Some((l1, ptr)) => match function_address(l1, id) {
            Some((l2, address)) => emit(
                Some(l2),
                Inst::Store { value: address, ptr, offset: 0 },
            ),
            None => None,
        },
        None => None,
    }
}

/// A statement; nothing is lowered after a return.
pub open spec fn statement(l: Lowering, stmt: Statement) -> Option<Lowering>
    decreases stmt, 1nat,
{
    if l.terminated {
        Some(l)
    } else {
        match fresh_block(l) {
            Some(l1) => live_statement(l1, stmt),
            None => None,
        }
    }
}

/// A statement that can be reached, in a block for it.
pub open spec fn live_statement(l: Lowering, stmt: Statement) -> Option<Lowering>
    decreases stmt, 0nat,
{
    match stmt {
        Statement::If { ifcases, elsecase } => match begin_if(l) {
            Some((l1, fork)) => {
                let merge = new_block(Some(l));
                match cases(l1, fork, merge, ifcases@) {
                    Some((l2, fork2)) => match block(begin_else(l2), elsecase@) {
                        Some(l3) => end_if(l3, fork2, merge),
                        None => None,
                    },
                    None => None,
                }
            },
            None => None,
        },
        Statement::While { cond, block: body } => {
            let header_block = new_block(Some(l));
            let body_block = new_block(create_block(Some(l)));
            let exit_block = new_block(create_block(create_block(Some(l))));
            match begin_while(l) {
                Some(l1) => match expression(l1, cond) {
                    Some((l2, v)) => match test_while(l2, v, header_block, body_block, exit_block) {
                        Some(l3) => match block(l3, body@) {
                            Some(l4) => end_while(l4, header_block, body_block, exit_block),
                            None => None,
                        },
                        None => None,
                    },
                    None => None,
                },
                None => None,
            }
        },
        Statement::Repeat { block: body, cond } => {
            let body_block = new_block(Some(l));
            let exit_block = new_block(create_block(Some(l)));
            match begin_repeat(l) {
                Some(l1) => match block(l1, body@) {
                    Some(l2) => match expression(l2, cond) {
                        Some((l3, v)) => end_repeat(l3, v, body_block, exit_block),
                        None => None,
                    },
                    None => None,
                },
                None => None,
            }
        },
        Statement::Local { vars, exprs } => match expressions(l, Seq::empty(), exprs@) {
            Some((l1, values)) => bind_locals(l1, vars@, values),
            None => None,
        },
        Statement::Assign { vars, exprs } => match expressions(l, Seq::empty(), exprs@) {
            Some((l1, values)) => assign_all(l1, vars@, values),
            None => None,
        },
        Statement::Return(exprs) => match if exprs@.len() == 0 {
            constant(l, 0)
        } else {
            expression(l, exprs@[0])
        } {
            Some((l1, v)) => give_back(l1, v),
            None => None,
        },
        Statement::FunctCall(c) => state(call(l, c)),
        Statement::Do(body) => exit_scope(block(enter_scope(l), body@)),
        Statement::Function { name, params, body } => {
            let full_name = joined(name.qname@);
            match function(l, params.names@, body@) {
                Some(f) => match install(l, f, full_name, params.names.len()) {
                    Some((l1, id)) => publish(l1, id, full_name),
                    None => None,
                },
                None => None,
            }
        },
        Statement::ForEach { .. } => None,
        Statement::Break => None,
    }
}

/// Names with dots between them.
pub open spec fn joined(names: Seq<String>) -> Seq<char>
    decreases names.len(),
{
    if names.len() == 0 {
        Seq::empty()
    } else if names.len() == 1 {
        names[0]@
    } else {
        joined(names.drop_last()) + "."@ + names.last()@
    }
}

/// Statements, up to a return or a point that cannot be reached.
pub open spec fn block(l: Lowering, stmts: Seq<Statement>) -> Option<Lowering>
    decreases stmts, 0nat,
{
    if stmts.len() == 0 || l.terminated {
        Some(l)
    } else if ir::position(l.code) is None {
        None
    } else if ir::unreachable(l.code) {
        Some(l)
    } else {
        match statement(l, stmts[0]) {
            Some(l1) => block(l1, stmts.skip(1)),
            None => None,
        }
    }
}

/// Statements, all of them.
pub open spec fn every(l: Lowering, stmts: Seq<Statement>) -> Option<Lowering>
    decreases stmts, 0nat,
{
    if stmts.len() == 0 {
        Some(l)
    } else {
        match statement(l, stmts[0]) {
            Some(l1) => every(l1, stmts.skip(1)),
            None => None,
        }
    }
}

/// How far the branches of an `if` statement are lowered.
pub struct Fork {
    /// The block that the next condition goes to.
    pub test: Block,
    /// Whether some branch goes on after the statement.
    pub joined: bool,
    /// Whether all branches return.
    pub ended: bool,
}

/// The start of an `if` statement: a block is created for what comes after it.
pub open spec fn begin_if(l: Lowering) -> Option<(Lowering, Fork)> {
    match l.manager.current {
        Some(test) => with_fork(create_known(Some(l)), Fork { test, joined: false, ended: true }),
        None => None,
    }
}

pub open spec fn with_fork(s: Option<Lowering>, fork: Fork) -> Option<(Lowering, Fork)> {
    match s {
        Some(l) => Some((l, fork)),
        None => None,
    }
}

/// The start of the branch without a condition.
pub open spec fn begin_else(l: Lowering) -> Lowering {
    Lowering { terminated: false, ..enter_scope(l) }
}

/// The start of a branch with a condition, which decides between that branch
/// and the next.
#[verifier::opaque]
pub open spec fn begin_case(l: Lowering, cond: Origin, test: Block) -> Option<Lowering> {
    let then_block = new_block(Some(l));
    let else_block = new_block(create_block(Some(l)));
    let s = emit(
        create_known(create_known(Some(l))),
        Inst::Brif {
            cond,
            then_block,
            then_args: seq![],
            else_block,
            else_args: seq![],
        },
    );
    in_scope(set_terminated(switch_to(seal(s, test), then_block), false))
}

/// The end of a branch, which goes on after the statement unless it returns.
pub open spec fn join(l: Lowering, fork: Fork, merge: Block) -> Option<(Lowering, Fork)> {
    let s = exit_scope(Some(l));
    if l.terminated {
        with_fork(s, fork)
    } else if located(s) is Some && !is_unreachable(s) {
        with_fork(jump_to(s, merge), Fork { joined: true, ended: false, ..fork })
    } else {
        with_fork(located(s), Fork { ended: false, ..fork })
    }
}

/// The end of a branch with a condition; the next branch is opened.
#[verifier::opaque]
pub open spec fn end_case(
    l: Lowering,
    fork: Fork,
    then_block: Block,
    else_block: Block,
    merge: Block,
) -> Option<(Lowering, Fork)> {
    match join(l, fork, merge) {
        Some((l1, fork1)) => with_fork(
            switch_to(seal(Some(l1), then_block), else_block),
            Fork { test: else_block, ..fork1 },
        ),
        None => None,
    }
}

/// The branches with a condition.
pub open spec fn cases(
    l: Lowering,
    fork: Fork,
    merge: Block,
    ifcases: Seq<(Expression, Vec<Statement>)>,
) -> Option<(Lowering, Fork)>
    decreases ifcases, 0nat,
{
    if ifcases.len() == 0 {
        Some((l, fork))
    } else {
        match expression(l, ifcases[0].0) {
            Some((l1, v)) => {
                let then_block = new_block(Some(l1));
                let else_block = new_block(create_block(Some(l1)));
                match begin_case(l1, v, fork.test) {
                    Some(l2) => match block(l2, ifcases[0].1@) {
                        Some(l3) => match end_case(l3, fork, then_block, else_block, merge) {
                            Some((l4, fork4)) => cases(l4, fork4, merge, ifcases.skip(1)),
                            None => None,
                        },
                        None => None,
                    },
                    None => None,
                }
            },
            None => None,
        }
    }
}

/// The end of the last branch and of the `if` statement: what comes after it
/// goes to `merge`, if anything gets there.
#[verifier::opaque]
pub open spec fn end_if(l: Lowering, fork: Fork, merge: Block) -> Option<Lowering> {
    match join(l, fork, merge) {
        Some((l1, fork1)) => {
            let s = seal(Some(l1), fork1.test);
            if fork1.joined {
                set_terminated(seal(switch_to(s, merge), merge), false)
            } else {
                set_terminated(s, fork1.ended)
            }
        },
        None => None,
    }
}

/// Assignments, as long as there are targets and values.
pub open spec fn assign_all(l: Lowering, targets: Seq<Expression>, values: Seq<Origin>) -> Option<
    Lowering,
>
    decreases targets, 0nat,
{
    if targets.len() == 0 || values.len() == 0 {
        Some(l)
    } else {
        match assign(l, targets[0], values[0]) {
            Some(l1) => assign_all(l1, targets.skip(1), values.skip(1)),
            None => None,
        }
    }
}

/// The assignment of a value.
pub open spec fn assign(l: Lowering, target: Expression, v: Origin) -> Option<Lowering>
    decreases target, 1nat,
{
    match target {
        Expression::Var(name) => store_variable(l, name@, v),
        Expression::Field(table, field) => if is_globals_table(*table) {
            store_global(l, field@, v)
        } else {
            match expression(l, *table) {
                Some((l1, t)) => store_field(l1, t, field@, v),
                None => None,
            }
        },
        Expression::Index(table, index) => match expression(l, *table) {
            Some((l1, t)) => match expression(l1, *index) {
                Some((l2, i)) => store_entry(l2, t, i, v),
                None => None,
            },
            None => None,
        },
        _ => None,
    }
}

// ---------------------------------------------------------------------------
// Whole programs

/// The state in which the lowering of a program starts: a builder has been set
/// on the function that `code` was made for.
pub open spec fn blank(
    code: Seq<Request>,
    signature: Signature,
    module: ModuleState,
    globals: Map<Seq<char>, DataId>,
) -> Lowering {
    Lowering {
        word: signature.int,
        code: code.push(Request::Begin { signature }),
        manager: ManagerState::fresh(signature.int),
        locals: Map::empty(),
        scopes: Seq::empty(),
        next_var: 0,
        strings: 0,
        terminated: false,
        module,
        globals,
    }
}

/// A program, up to the point where its code is complete.
pub open spec fn program(l: Lowering, params: Seq<String>, stmts: Seq<Statement>) -> Option<
    Lowering,
> {
    match begin_program(l, params) {
        Some(l1) => match block(l1, stmts) {
            Some(l2) => end_program(l2),
            None => None,
        },
        None => None,
    }
}

/// The start of a program: it has a block, and its parameters have variables.
#[verifier::opaque]
pub open spec fn begin_program(l: Lowering, params: Seq<String>) -> Option<Lowering> {
    match start_block(l) {
        Some(l1) => if ir::signature(l.code).is_known() {
            bind_params(l1, new_block(Some(l)), params, 0)
        } else {
            None
        },
        None => None,
    }
}

/// The end of a program: where it does not return, zero is returned, and all
/// blocks are sealed.
#[verifier::opaque]
pub open spec fn end_program(l: Lowering) -> Option<Lowering> {
    let ended = if ir::position(l.code) is None {
        None
    } else if ir::unreachable(l.code) {
        Some(l)
    } else {
        return_zero(Some(l))
    };
    match ended {
        Some(l1) => match l1.with_cursor(l1.cursor().finalize()) {
            Some(l2) => if ir::complete(l2.code) {
                Some(l2)
            } else {
                None
            },
            None => None,
        },
        None => None,
    }
}

} // verus!
