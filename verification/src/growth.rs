//! What lowering leaves as it was.
//!
//! Code is only ever added to a function, and declarations and definitions to
//! the module; nothing is taken away again.
use vstd::prelude::*;

use crate::ast::{Expression, Field, FunctionCall, InfixOp, Statement, UnaryOp};
use crate::blocks;
use crate::blocks::Cursor;
use crate::ir;
use crate::ir::{
    limit,
    Block,
    DataId,
    FuncId,
    FuncRef,
    Inst,
    IntCC,
    Origin,
    Request,
    Signature,
    Type,
};
use crate::laws;
use crate::lowering;
use crate::lowering::{Fork, Lowering};
use crate::module::{Linkage, ModuleState, Symbol};

verus! {

broadcast use ir::group_orderly;

/// What becomes of all that functions share.
pub open spec fn carries(l: Lowering, l1: Lowering) -> bool {
    &&& l1.word == l.word
    &&& l.module.grows_to(l1.module)
    &&& l.globals.submap_of(l1.globals)
    &&& l.module.backs(l.globals) ==> l1.module.backs(l1.globals)
    &&& l.strings <= l1.strings
}

/// What lowering does to all that functions share.
pub open spec fn feeds(l: Lowering, l1: Lowering) -> bool {
    carries(l, l1) && reserves(l, l1)
}

/// The name that is made up for a string literal.
pub open spec fn title(k: nat) -> Seq<char> {
    "str_"@ + lowering::decimal(k)
}

/// Whether a data object is what a new global variable is.
pub open spec fn is_variable(m: ModuleState, id: DataId) -> bool {
    id.0 < m.data.len() && m.data[id.0 as int].contents == Some(lowering::initial(None))
}

/// Names that have not been made up for string literals yet are taken only by
/// global variables, and where they were taken before.
pub open spec fn reserves(l: Lowering, l1: Lowering) -> bool {
    forall|k: nat| #[trigger]
        l1.globals.contains_key(title(k)) && k >= l1.strings ==> l.globals.contains_key(title(k))
            || is_variable(l1.module, l1.globals[title(k)])
}

/// What lowering does within one function.
pub open spec fn advances(l: Lowering, l1: Lowering) -> bool {
    &&& feeds(l, l1)
    &&& l.code.is_prefix_of(l1.code)
    &&& ir::is_orderly(l.code) ==> ir::is_orderly(l1.code)
    &&& l1.manager.current matches Some(block) ==> l.manager.current == Some(block) || ir::created(
        l1.code,
        block,
    )
    &&& l.next_var <= l1.next_var
}

/// Whether no request was made of a block before it was created, and the open
/// block is there.
pub open spec fn is_sound(l: Lowering) -> bool {
    &&& ir::is_orderly(l.code)
    &&& l.manager.current matches Some(block) ==> ir::created(l.code, block)
}

/// What an expression does: it has no part in blocks, scopes and returns.
pub open spec fn computes(l: Lowering, l1: Lowering) -> bool {
    &&& advances(l, l1)
    &&& l1.manager == l.manager
    &&& l1.locals == l.locals
    &&& l1.scopes == l.scopes
    &&& l1.next_var == l.next_var
    &&& l1.terminated == l.terminated
}

/// What a data object does that may have any name and any contents.
pub open spec fn adds(l: Lowering, l1: Lowering) -> bool {
    &&& carries(l, l1)
    &&& l.code.is_prefix_of(l1.code)
    &&& ir::is_orderly(l.code) ==> ir::is_orderly(l1.code)
    &&& l1.manager == l.manager
    &&& l1.locals == l.locals
    &&& l1.scopes == l.scopes
    &&& l1.next_var == l.next_var
    &&& l1.terminated == l.terminated
}

/// Growth adds up.
pub proof fn lemma_grows(a: ModuleState, b: ModuleState, c: ModuleState)
    requires
        a.grows_to(b),
        b.grows_to(c),
    ensures
        a.grows_to(c),
{
    reveal(ModuleState::grows_to);
    vstd::map_lib::lemma_submap_of_trans(a.names, b.names, c.names);
    assert forall|i: int| 0 <= i < a.functions.len() implies a.functions[i].becomes(
        #[trigger] c.functions[i],
    ) by {
        assert(a.functions[i].becomes(b.functions[i]));
    }
    assert forall|i: int| 0 <= i < a.data.len() implies a.data[i].becomes(
        #[trigger] c.data[i],
    ) by {
        assert(a.data[i].becomes(b.data[i]));
    }
    assert forall|name: Seq<char>|
        !a.names.contains_key(name) && #[trigger] c.names.contains_key(name) implies c.knows(
        name,
    ) by {
        if b.names.contains_key(name) {
            assert(b.knows(name));
        }
    }
}

/// All names still stand for something.
pub proof fn lemma_consistent(a: ModuleState, b: ModuleState)
    requires
        a.is_consistent(),
        a.grows_to(b),
    ensures
        b.is_consistent(),
{
    reveal(ModuleState::grows_to);
    assert forall|name: Seq<char>| #[trigger] b.names.contains_key(name) implies b.knows(
        name,
    ) by {
        if a.names.contains_key(name) {
            assert(a.knows(name));
        }
    }
}

/// Growth leaves what global names stand for.
pub proof fn lemma_backs(a: ModuleState, b: ModuleState, globals: Map<Seq<char>, DataId>)
    requires
        a.grows_to(b),
        a.backs(globals),
    ensures
        b.backs(globals),
{
    reveal(ModuleState::grows_to);
    reveal(ModuleState::backs);
    assert forall|name: Seq<char>| #[trigger]
        globals.contains_key(name) implies b.names.contains_key(
        name,
    ) && b.names[name] == Symbol::Data(globals[name]) by {
        assert(a.names.dom().contains(name));
        assert(b.names.dom().contains(name));
    }
}

/// What stays as it is has grown.
pub proof fn lemma_same(m: ModuleState)
    ensures
        m.grows_to(m),
{
    reveal(ModuleState::grows_to);
}

pub proof fn lemma_feeds(a: Lowering, b: Lowering, c: Lowering)
    requires
        feeds(a, b),
        feeds(b, c),
    ensures
        feeds(a, c),
{
    lemma_grows(a.module, b.module, c.module);
    vstd::map_lib::lemma_submap_of_trans(a.globals, b.globals, c.globals);
    lemma_reserves(a, b, c);
}

/// What became of a global variable is still there.
proof fn lemma_reserves(a: Lowering, b: Lowering, c: Lowering)
    requires
        feeds(a, b),
        b.module.grows_to(c.module),
        b.globals.submap_of(c.globals),
        b.strings <= c.strings,
        reserves(b, c),
    ensures
        reserves(a, c),
{
    reveal(ModuleState::grows_to);
    assert forall|k: nat| #[trigger]
        c.globals.contains_key(title(k)) && k >= c.strings implies a.globals.contains_key(
        title(k),
    ) || is_variable(c.module, c.globals[title(k)]) by {
        if b.globals.contains_key(title(k)) && !a.globals.contains_key(title(k)) {
            let id = b.globals[title(k)];
            assert(b.globals.dom().contains(title(k)));
            assert(c.globals[title(k)] == id);
            assert(b.module.data[id.0 as int].becomes(c.module.data[id.0 as int]));
        }
    }
}

/// Lowering goes on to make requests only of blocks that were created.
pub proof fn lemma_sound(l: Lowering, l1: Lowering)
    requires
        advances(l, l1),
        is_sound(l),
    ensures
        is_sound(l1),
{
    ir::lemma_created(l.code, l1.code);
}

pub proof fn lemma_advances(a: Lowering, b: Lowering, c: Lowering)
    requires
        advances(a, b),
        advances(b, c),
    ensures
        advances(a, c),
        computes(a, b) && computes(b, c) ==> computes(a, c),
{
    lemma_feeds(a, b, c);
    ir::lemma_created(a.code, b.code);
    ir::lemma_created(b.code, c.code);
}

// ---------------------------------------------------------------------------
// The module

/// Declaring a function leaves what the module holds.
pub proof fn lemma_declare_function(
    m: ModuleState,
    name: Seq<char>,
    linkage: Linkage,
    signature: Signature,
)
    requires
        m.functions.len() < limit(),
    ensures
        m.grows_to(m.declare_function(name, linkage, signature)),
{
    reveal(ModuleState::grows_to);
}

/// Declaring a data object leaves what the module holds.
pub proof fn lemma_declare_data(m: ModuleState, name: Seq<char>, linkage: Linkage, writable: bool)
    requires
        m.data.len() < limit(),
    ensures
        m.grows_to(m.declare_data(name, linkage, writable)),
{
    reveal(ModuleState::grows_to);
}

/// Defining a data object that has no definition leaves the others.
pub proof fn lemma_define_data(m: ModuleState, id: DataId, contents: Seq<u8>)
    requires
        id.0 < m.data.len(),
        m.data_is_open(id),
    ensures
        m.grows_to(m.define_data(id, contents)),
        m.gets_data(m.define_data(id, contents), id.0 as int),
{
    reveal(ModuleState::grows_to);
}

/// Defining a function that has no definition leaves the others.
pub proof fn lemma_define_function(m: ModuleState, id: FuncId, made: Seq<Request>)
    requires
        id.0 < m.functions.len(),
        m.function_is_open(id),
    ensures
        m.grows_to(m.define_function(id, made)),
        m.gets_function(m.define_function(id, made), id.0 as int),
{
    reveal(ModuleState::grows_to);
}

/// Making code ready leaves what the module holds.
pub proof fn lemma_finish(m: ModuleState)
    ensures
        m.grows_to(m.finish()),
{
    reveal(ModuleState::grows_to);
}

/// What is defined later is still defined after that, and was not before.
pub proof fn lemma_gets_more(a: ModuleState, b: ModuleState, c: ModuleState, d: ModuleState)
    requires
        a.grows_to(b),
        b.gets_more(c),
        c.grows_to(d),
    ensures
        a.gets_more(d),
{
    reveal(ModuleState::grows_to);
    if exists|i: int| b.gets_function(c, i) {
        let i = choose|i: int| b.gets_function(c, i);
        assert(c.functions[i].becomes(d.functions[i]));
        if i < a.functions.len() {
            assert(a.functions[i].becomes(b.functions[i]));
        }
        assert(a.gets_function(d, i));
    } else {
        let i = choose|i: int| b.gets_data(c, i);
        assert(c.data[i].becomes(d.data[i]));
        if i < a.data.len() {
            assert(a.data[i].becomes(b.data[i]));
        }
        assert(a.gets_data(d, i));
    }
}

/// What all functions share.
pub struct Holdings {
    pub module: ModuleState,
    /// The data objects that global names stand for.
    pub globals: Map<Seq<char>, DataId>,
}

pub open spec fn holdings(l: Lowering) -> Holdings {
    Holdings { module: l.module, globals: l.globals }
}

/// Whether things may have been left as `after` on the way to a module `goal`,
/// for want of memory or because code could not be generated. They have only
/// grown, and there was something to define.
#[verifier::opaque]
pub open spec fn excused(before: Holdings, after: Holdings, goal: ModuleState) -> bool {
    &&& before.module.grows_to(after.module)
    &&& before.globals.submap_of(after.globals)
    &&& before.module.backs(before.globals) ==> after.module.backs(after.globals)
    &&& before.module.gets_more(goal)
}

/// A failure in a part is a failure of the whole.
pub proof fn lemma_excused(start: Lowering, before: Lowering, goal: ModuleState)
    requires
        start.module.grows_to(before.module),
        start.globals.submap_of(before.globals),
        start.module.backs(start.globals) ==> before.module.backs(before.globals),
    ensures
        forall|held: Holdings, after: Holdings, middle: ModuleState| #[trigger]
            excused(held, after, middle) && held == holdings(before) && middle.grows_to(goal)
                ==> excused(holdings(start), after, goal),
{
    reveal(excused);
    assert forall|held: Holdings, after: Holdings, middle: ModuleState| #[trigger]
        excused(held, after, middle) && held == holdings(before) && middle.grows_to(
            goal,
        ) implies excused(holdings(start), after, goal) by {
        lemma_grows(start.module, before.module, after.module);
        lemma_gets_more(start.module, before.module, middle, goal);
        vstd::map_lib::lemma_submap_of_trans(start.globals, before.globals, after.globals);
    }
}

// ---------------------------------------------------------------------------
// Blocks

/// The zeroes come after what is there.
proof fn lemma_zeroes(h: Seq<Request>, done: Seq<Origin>, types: Seq<Type>)
    ensures
        blocks::zeroes(h, done, types) matches Some((h1, _)) ==> h.is_prefix_of(h1) && (
        ir::is_orderly(h) ==> ir::is_orderly(h1)),
    decreases types.len(),
{
    if types.len() != 0 {
        let next = match types[0] {
            Type::Int(ty) => ir::emit(h, Inst::Iconst { ty, imm: 0 }),
            Type::Float { .. } => ir::emit(h, Inst::FloatZero),
            Type::Other => None,
        };
        if next is Some {
            lemma_zeroes(next->0, done.push(next->0), types.skip(1));
        }
    }
}

pub proof fn lemma_jump_with_zeroes(h: Seq<Request>, target: Block)
    ensures
        blocks::jump_with_zeroes(h, target) matches Some(h1) ==> h.is_prefix_of(h1) && (
        ir::is_orderly(h) ==> ir::is_orderly(h1)),
{
    lemma_zeroes(h, Seq::empty(), blocks::types_of(h, target));
}

pub proof fn lemma_jump_to(c: Cursor, target: Block)
    ensures
        c.jump_to(target) matches Some(c1) ==> c.code.is_prefix_of(c1.code)
        && (ir::is_orderly(c.code) ==> ir::is_orderly(c1.code)),
{
    lemma_jump_with_zeroes(c.code, target);
}

pub proof fn lemma_switch_to(c: Cursor, block: Block)
    ensures
        c.switch_to(block) matches Some(c1) ==> c.code.is_prefix_of(c1.code)
        && (ir::is_orderly(c.code) ==> ir::is_orderly(c1.code)) && ir::created(
            c1.code,
            block,
        ),
{
    lemma_jump_to(c, block);
    match c.jump_to(block) {
        Some(c1) => {
            ir::lemma_push(c1.code, Request::Switch { block });
        },
        None => {},
    }
}

pub proof fn lemma_seal(c: Cursor, block: Block)
    ensures
        c.seal(block) matches Some(c1) ==> c.code.is_prefix_of(c1.code)
        && (ir::is_orderly(c.code) ==> ir::is_orderly(c1.code)),
{
}

pub proof fn lemma_seal_all(c: Cursor, blocks: Seq<Block>)
    ensures
        c.seal_all(blocks) matches Some(c1) ==> c.code.is_prefix_of(c1.code)
        && (ir::is_orderly(c.code) ==> ir::is_orderly(c1.code)),
    decreases blocks.len(),
{
    if blocks.len() != 0 {
        lemma_seal(c, blocks[0]);
        match c.seal(blocks[0]) {
            Some(c1) => {
                lemma_seal_all(c1, blocks.skip(1));
            },
            None => {},
        }
    }
}

// ---------------------------------------------------------------------------
// Globals, helpers and operators

/// Whether a name may be given to a data object with the given contents: one
/// that is made up is used for a string literal alone.
pub open spec fn suits(l: Lowering, name: Seq<char>, initializer: Option<Seq<u8>>) -> bool {
    initializer is Some ==> l.strings > 0 && name == title((l.strings - 1) as nat)
}

pub proof fn lemma_declare_global(l: Lowering, name: Seq<char>, initializer: Option<Seq<u8>>)
    ensures
        lowering::declare_global(l, name, initializer) matches Some((l1, _)) ==> adds(l, l1) && (
        suits(l, name, initializer) ==> computes(l, l1)) && (
            !l.globals.contains_key(name) ==> l.module.gets_more(l1.module)
        ),
{
    lemma_same(l.module);
    match lowering::declare_global(l, name, initializer) {
        Some((l1, id)) => {
            if !l.globals.contains_key(name) {
                let declared = l.module.declare_data(name, Linkage::Export, true);
                let contents = lowering::initial(initializer);
                lemma_declare_data(l.module, name, Linkage::Export, true);
                lemma_define_data(declared, id, contents);
                lemma_grows(l.module, declared, l1.module);
                if l.module.backs(l.globals) {
                    lemma_backs(l.module, l1.module, l.globals);
                    reveal(ModuleState::backs);
                }
                assert(declared.gets_more(l1.module));
                lemma_same(l1.module);
                lemma_gets_more(l.module, declared, l1.module, l1.module);
                assert forall|k: nat| #[trigger]
                    l1.globals.contains_key(title(k)) && k >= l1.strings && suits(
                        l,
                        name,
                        initializer,
                    ) implies l.globals.contains_key(title(k)) || is_variable(
                    l1.module,
                    l1.globals[title(k)],
                ) by {
                    if initializer is Some && suits(l, name, initializer) {
                        laws::law_made_up_names_differ("str_"@, k, (l.strings - 1) as nat);
                    }
                }
            }
        },
        None => {},
    }
}

pub proof fn lemma_global_pointer(l: Lowering, name: Seq<char>, initializer: Option<Seq<u8>>)
    ensures
        lowering::global_pointer(l, name, initializer) matches Some((l1, _)) ==> adds(l, l1) && (
        suits(l, name, initializer) ==> computes(l, l1)),
{
    reveal(lowering::global_pointer);
    lemma_same(l.module);
    lemma_declare_global(l, name, initializer);
}

pub proof fn lemma_string_pointer(l: Lowering, bytes: Seq<u8>)
    ensures
        lowering::string_pointer(l, bytes) matches Some((l1, _)) ==> computes(l, l1),
{
    reveal(lowering::string_pointer);
    lemma_same(l.module);
    match lowering::made_up(l) {
        Some(l1) => {
            let name = "str_"@ + lowering::decimal(l.strings);
            lemma_global_pointer(l1, name, Some(bytes));
        },
        None => {},
    }
}

pub proof fn lemma_import_helper(l: Lowering, name: Seq<char>, params: usize)
    ensures
        lowering::import_helper(l, name, params) matches Some((l1, _)) ==> computes(l, l1),
{
    lemma_same(l.module);
    let signature = Signature { int: l.word, params, returns: 1 };
    if l.module.functions.len() < limit() {
        lemma_declare_function(l.module, name, Linkage::Import, signature);
    }
    match lowering::import_helper(l, name, params) {
        Some((l1, _)) => {
            if l.module.backs(l.globals) {
                lemma_backs(l.module, l1.module, l.globals);
            }
        },
        None => {},
    }
}

pub proof fn lemma_call_helper(l: Lowering, name: Seq<char>, args: Seq<Origin>)
    ensures
        lowering::call_helper(l, name, args) matches Some((l1, _)) ==> computes(l, l1),
{
    reveal(lowering::call_helper);
    lemma_same(l.module);
    lemma_import_helper(l, name, args.len() as usize);
}

pub proof fn lemma_call_chain(l: Lowering, callee: FuncRef, first: Origin, others: Seq<Origin>)
    ensures
        lowering::call_chain(l, callee, first, others) matches Some((l1, _)) ==> computes(l, l1),
    decreases others.len(),
{
    lemma_same(l.module);
    if others.len() != 0 {
        match lowering::emit(Some(l), Inst::Call { callee, args: seq![first, others[0]] }) {
            Some(l1) => {
                lemma_call_chain(l1, callee, l1.code, others.skip(1));
            },
            None => {},
        }
    }
}

pub proof fn lemma_apply_all(l: Lowering, op: InfixOp, first: Origin, others: Seq<Origin>)
    ensures
        lowering::apply_all(l, op, first, others) matches Some((l1, _)) ==> computes(l, l1),
    decreases others.len(),
{
    lemma_same(l.module);
    if others.len() != 0 {
        match lowering::apply(l, op, first, others[0]) {
            Some((l1, v)) => {
                lemma_apply_all(l1, op, v, others.skip(1));
            },
            None => {},
        }
    }
}

pub proof fn lemma_combine(l: Lowering, op: InfixOp, values: Seq<Origin>)
    ensures
        lowering::combine(l, op, values) matches Some((l1, _)) ==> computes(l, l1),
{
    reveal(lowering::combine);
    lemma_same(l.module);
    if values.len() != 0 {
        lemma_import_helper(l, "lua_concat"@, 2);
        match lowering::import_helper(l, "lua_concat"@, 2) {
            Some((l1, callee)) => {
                lemma_call_chain(l1, callee, values[0], values.skip(1));
                match lowering::call_chain(l1, callee, values[0], values.skip(1)) {
                    Some((l2, _)) => {
                        lemma_advances(l, l1, l2);
                    },
                    None => {},
                }
            },
            None => {},
        }
        lemma_apply_all(l, op, values[0], values.skip(1));
    }
}

pub proof fn lemma_apply_unary(l: Lowering, op: UnaryOp, arg: Origin)
    ensures
        lowering::apply_unary(l, op, arg) matches Some((l1, _)) ==> computes(l, l1),
{
    reveal(lowering::apply_unary);
    lemma_same(l.module);
    lemma_call_helper(l, "lua_len"@, seq![arg]);
}

pub proof fn lemma_call_value(l: Lowering, callee: Origin, args: Seq<Origin>)
    ensures
        lowering::call_value(l, callee, args) matches Some((l1, _)) ==> computes(l, l1),
{
    reveal(lowering::call_value);
    lemma_same(l.module);
}

pub proof fn lemma_variable(l: Lowering, name: Seq<char>)
    ensures
        lowering::variable(l, name) matches Some((l1, _)) ==> computes(l, l1),
{
    reveal(lowering::variable);
    lemma_same(l.module);
}

pub proof fn lemma_load_global(l: Lowering, name: Seq<char>)
    ensures
        lowering::load_global(l, name) matches Some((l1, _)) ==> computes(l, l1),
{
    reveal(lowering::load_global);
    lemma_same(l.module);
    lemma_global_pointer(l, name, None);
}

pub proof fn lemma_load_field(l: Lowering, table: Origin, field: Seq<char>)
    ensures
        lowering::load_field(l, table, field) matches Some((l1, _)) ==> computes(l, l1),
{
    reveal(lowering::load_field);
    lemma_same(l.module);
    lemma_string_pointer(l, vstd::utf8::encode_utf8(field));
    match lowering::string_pointer(l, vstd::utf8::encode_utf8(field)) {
        Some((l1, key)) => {
            lemma_call_helper(l1, "lua_gettable"@, seq![table, key]);
            match lowering::call_helper(l1, "lua_gettable"@, seq![table, key]) {
                Some((l2, _)) => {
                    lemma_advances(l, l1, l2);
                },
                None => {},
            }
        },
        None => {},
    }
}

pub proof fn lemma_store_entry(l: Lowering, table: Origin, key: Origin, v: Origin)
    ensures
        lowering::store_entry(l, table, key, v) matches Some(l1) ==> computes(l, l1),
{
    reveal(lowering::store_entry);
    lemma_same(l.module);
    lemma_call_helper(l, "lua_settable"@, seq![table, key, v]);
}

pub proof fn lemma_store_field(l: Lowering, table: Origin, field: Seq<char>, v: Origin)
    ensures
        lowering::store_field(l, table, field, v) matches Some(l1) ==> computes(l, l1),
{
    reveal(lowering::store_field);
    lemma_same(l.module);
    lemma_string_pointer(l, vstd::utf8::encode_utf8(field));
    match lowering::string_pointer(l, vstd::utf8::encode_utf8(field)) {
        Some((l1, key)) => {
            lemma_store_entry(l1, table, key, v);
            match lowering::store_entry(l1, table, key, v) {
                Some(l2) => {
                    lemma_advances(l, l1, l2);
                },
                None => {},
            }
        },
        None => {},
    }
}

pub proof fn lemma_store_global(l: Lowering, name: Seq<char>, v: Origin)
    ensures
        lowering::store_global(l, name, v) matches Some(l1) ==> computes(l, l1),
{
    reveal(lowering::store_global);
    lemma_same(l.module);
    lemma_global_pointer(l, name, None);
}

pub proof fn lemma_store_variable(l: Lowering, name: Seq<char>, v: Origin)
    ensures
        lowering::store_variable(l, name, v) matches Some(l1) ==> computes(l, l1),
{
    reveal(lowering::store_variable);
    lemma_same(l.module);
    lemma_store_global(l, name, v);
}

pub proof fn lemma_hand_over(l: Lowering, cc: IntCC, merge: Block, current: Origin)
    ensures
        lowering::hand_over(l, cc, merge, current) matches Some(l1) ==> computes(l, l1),
{
    reveal(lowering::hand_over);
    lemma_same(l.module);
}

pub proof fn lemma_merged(l: Lowering, current: Origin, merge: Block)
    ensures
        lowering::merged(l, current, merge) matches Some((l1, _)) ==> computes(l, l1),
{
    reveal(lowering::merged);
    lemma_same(l.module);
}

pub proof fn lemma_function_address(l: Lowering, id: FuncId)
    ensures
        lowering::function_address(l, id) matches Some((l1, _)) ==> computes(l, l1),
{
    reveal(lowering::function_address);
    lemma_same(l.module);
}

pub proof fn lemma_publish(l: Lowering, id: FuncId, name: Seq<char>)
    ensures
        lowering::publish(l, id, name) matches Some(l1) ==> computes(l, l1),
{
    reveal(lowering::publish);
    lemma_same(l.module);
    lemma_global_pointer(l, "__fn_ptr_"@ + name, None);
    match lowering::global_pointer(l, "__fn_ptr_"@ + name, None) {
        Some((l1, ptr)) => {
            lemma_function_address(l1, id);
            match lowering::function_address(l1, id) {
                Some((l2, _)) => {
                    lemma_advances(l, l1, l2);
                },
                None => {},
            }
        },
        None => {},
    }
}

// ---------------------------------------------------------------------------
// Variables and blocks

pub proof fn lemma_bind_local(l: Lowering, name: Seq<char>, v: Origin)
    ensures
        lowering::bind_local(l, name, v) matches Some(l1) ==> advances(l, l1),
{
    reveal(lowering::bind_local);
    lemma_same(l.module);
}

pub proof fn lemma_bind_locals(
    l: Lowering,
    vars: Seq<(String, Option<String>)>,
    values: Seq<Origin>,
)
    ensures
        lowering::bind_locals(l, vars, values) matches Some(l1) ==> advances(l, l1),
    decreases vars.len(),
{
    lemma_same(l.module);
    if vars.len() != 0 && values.len() != 0 {
        lemma_bind_local(l, vars[0].0@, values[0]);
        match lowering::bind_local(l, vars[0].0@, values[0]) {
            Some(l1) => {
                lemma_bind_locals(l1, vars.skip(1), values.skip(1));
                match lowering::bind_locals(l1, vars.skip(1), values.skip(1)) {
                    Some(l2) => {
                        lemma_advances(l, l1, l2);
                    },
                    None => {},
                }
            },
            None => {},
        }
    }
}

pub proof fn lemma_bind_params(l: Lowering, entry: Block, names: Seq<String>, i: nat)
    ensures
        lowering::bind_params(l, entry, names, i) matches Some(l1) ==> advances(l, l1),
    decreases names.len() - i,
{
    lemma_same(l.module);
    if i < names.len() && i < ir::params(l.code, entry).len() {
        let v = ir::params(l.code, entry)[i as int];
        lemma_bind_local(l, names[i as int]@, v);
        match lowering::bind_local(l, names[i as int]@, v) {
            Some(l1) => {
                lemma_bind_params(l1, entry, names, i + 1);
                match lowering::bind_params(l1, entry, names, i + 1) {
                    Some(l2) => {
                        lemma_advances(l, l1, l2);
                    },
                    None => {},
                }
            },
            None => {},
        }
    }
}

/// Leaving a block advances the function.
pub proof fn lemma_jump(l: Lowering, target: Block)
    ensures
        lowering::jump_to(Some(l), target) matches Some(l1) ==> advances(l, l1),
{
    lemma_same(l.module);
    lemma_jump_to(l.cursor(), target);
}

/// Going to another block advances the function.
pub proof fn lemma_switch(l: Lowering, block: Block)
    ensures
        lowering::switch_to(Some(l), block) matches Some(l1) ==> advances(l, l1),
{
    lemma_same(l.module);
    lemma_switch_to(l.cursor(), block);
}

/// Sealing a block advances the function.
pub proof fn lemma_close(l: Lowering, block: Block)
    ensures
        lowering::seal(Some(l), block) matches Some(l1) ==> advances(l, l1),
{
    lemma_same(l.module);
    lemma_seal(l.cursor(), block);
}

pub proof fn lemma_fresh_block(l: Lowering)
    ensures
        lowering::fresh_block(l) matches Some(l1) ==> advances(l, l1),
{
    reveal(lowering::fresh_block);
    lemma_same(l.module);
    let block = lowering::new_block(Some(l));
    match lowering::append_function_params(lowering::create_known(Some(l)), block) {
        Some(l1) => {
            lemma_switch(l1, block);
            match lowering::switch_to(Some(l1), block) {
                Some(l2) => {
                    lemma_advances(l, l1, l2);
                },
                None => {},
            }
        },
        None => {},
    }
}

pub proof fn lemma_begin_while(l: Lowering)
    ensures
        lowering::begin_while(l) matches Some(l1) ==> advances(l, l1),
{
    reveal(lowering::begin_while);
    lemma_same(l.module);
    let header = lowering::new_block(Some(l));
    match lowering::create_block(lowering::create_block(lowering::create_block(Some(l)))) {
        Some(l1) => {
            assert(advances(l, l1));
            lemma_jump(l1, header);
            match lowering::jump_if_reachable(Some(l1), header) {
                Some(l2) => {
                    if !ir::unreachable(l1.code) {
                        assert(advances(l1, l2));
                    }
                    lemma_advances(l, l1, l2);
                },
                None => {},
            }
        },
        None => {},
    }
}

pub proof fn lemma_test_while(l: Lowering, v: Origin, header: Block, body: Block, exit: Block)
    ensures
        lowering::test_while(l, v, header, body, exit) matches Some(l1) ==> advances(l, l1),
{
    reveal(lowering::test_while);
    lemma_same(l.module);
}

pub proof fn lemma_end_while(l: Lowering, header: Block, body: Block, exit: Block)
    ensures
        lowering::end_while(l, header, body, exit) matches Some(l1) ==> advances(l, l1),
{
    reveal(lowering::end_while);
    lemma_same(l.module);
}

pub proof fn lemma_begin_repeat(l: Lowering)
    ensures
        lowering::begin_repeat(l) matches Some(l1) ==> advances(l, l1),
{
    reveal(lowering::begin_repeat);
    lemma_same(l.module);
}

pub proof fn lemma_end_repeat(l: Lowering, v: Origin, body: Block, exit: Block)
    ensures
        lowering::end_repeat(l, v, body, exit) matches Some(l1) ==> advances(l, l1),
{
    reveal(lowering::end_repeat);
    lemma_same(l.module);
}

pub proof fn lemma_give_back(l: Lowering, v: Origin)
    ensures
        lowering::give_back(l, v) matches Some(l1) ==> advances(l, l1),
{
    reveal(lowering::give_back);
    lemma_same(l.module);
}

pub proof fn lemma_begin_case(l: Lowering, v: Origin, test: Block)
    ensures
        lowering::begin_case(l, v, test) matches Some(l1) ==> advances(l, l1),
{
    reveal(lowering::begin_case);
    lemma_same(l.module);
    let then_block = lowering::new_block(Some(l));
    let else_block = lowering::new_block(lowering::create_block(Some(l)));
    let s = lowering::emit(
        lowering::create_known(lowering::create_known(Some(l))),
        Inst::Brif { cond: v, then_block, then_args: seq![], else_block, else_args: seq![] },
    );
    match lowering::seal(s, test) {
        Some(l1) => {
            lemma_switch(l1, then_block);
            match lowering::switch_to(Some(l1), then_block) {
                Some(l2) => {
                    lemma_advances(l, l1, l2);
                },
                None => {},
            }
        },
        None => {},
    }
}

pub proof fn lemma_join(l: Lowering, fork: Fork, merge: Block)
    ensures
        lowering::join(l, fork, merge) matches Some((l1, _)) ==> advances(l, l1),
{
    lemma_same(l.module);
    match lowering::exit_scope(Some(l)) {
        Some(l1) => {
            lemma_jump(l1, merge);
            match lowering::jump_to(Some(l1), merge) {
                Some(l2) => {
                    lemma_advances(l, l1, l2);
                },
                None => {},
            }
        },
        None => {},
    }
}

pub proof fn lemma_end_case(
    l: Lowering,
    fork: Fork,
    then_block: Block,
    else_block: Block,
    merge: Block,
)
    ensures
        lowering::end_case(
            l,
            fork,
            then_block,
            else_block,
            merge,
        ) matches Some((l1, _)) ==> advances(l, l1),
{
    reveal(lowering::end_case);
    lemma_same(l.module);
    lemma_join(l, fork, merge);
    match lowering::join(l, fork, merge) {
        Some((l1, _)) => {
            lemma_close(l1, then_block);
            match lowering::seal(Some(l1), then_block) {
                Some(l2) => {
                    lemma_advances(l, l1, l2);
                    lemma_switch(l2, else_block);
                    match lowering::switch_to(Some(l2), else_block) {
                        Some(l3) => {
                            lemma_advances(l, l2, l3);
                        },
                        None => {},
                    }
                },
                None => {},
            }
        },
        None => {},
    }
}

pub proof fn lemma_end_if(l: Lowering, fork: Fork, merge: Block)
    ensures
        lowering::end_if(l, fork, merge) matches Some(l1) ==> advances(l, l1),
{
    reveal(lowering::end_if);
    lemma_same(l.module);
    lemma_join(l, fork, merge);
    match lowering::join(l, fork, merge) {
        Some((l1, fork1)) => {
            lemma_close(l1, fork1.test);
            match lowering::seal(Some(l1), fork1.test) {
                Some(l2) => {
                    lemma_advances(l, l1, l2);
                    lemma_switch(l2, merge);
                    match lowering::switch_to(Some(l2), merge) {
                        Some(l3) => {
                            lemma_advances(l, l2, l3);
                            lemma_close(l3, merge);
                            match lowering::seal(Some(l3), merge) {
                                Some(l4) => {
                                    lemma_advances(l, l3, l4);
                                },
                                None => {},
                            }
                        },
                        None => {},
                    }
                },
                None => {},
            }
        },
        None => {},
    }
}

// ---------------------------------------------------------------------------
// Functions in functions

/// A builder that is set on a function finds order where there was.
proof fn lemma_begun(code: Seq<Request>, signature: Signature)
    requires
        ir::is_orderly(code) || code.len() == 0,
    ensures
        ir::is_orderly(code.push(Request::Begin { signature })),
{
    reveal(ir::is_orderly);
    ir::lemma_push(code, Request::Begin { signature });
}

pub proof fn lemma_begin_function(l: Lowering, params: Seq<String>)
    ensures
        lowering::begin_function(l, params) matches Some(l1) ==> feeds(l, l1) && is_sound(l1),
{
    reveal(lowering::begin_function);
    lemma_same(l.module);
    match lowering::function_start(l, params.len() as usize) {
        Some(l1) => {
            lemma_begun(
                seq![],
                Signature { int: l.word, params: params.len() as usize, returns: 1 },
            );
            lemma_bind_params(l1, lowering::entry(), params, 0);
            match lowering::bind_params(l1, lowering::entry(), params, 0) {
                Some(l2) => {
                    lemma_sound(l1, l2);
                },
                None => {},
            }
        },
        None => {},
    }
}

pub proof fn lemma_end_function(l: Lowering)
    ensures
        lowering::end_function(l) matches Some(l1) ==> advances(l, l1),
{
    reveal(lowering::end_function);
    lemma_same(l.module);
}

pub proof fn lemma_install(l: Lowering, f: Lowering, name: Seq<char>, params: usize)
    requires
        feeds(l, f),
    ensures
        lowering::install(l, f, name, params) matches Some((l1, _)) ==> computes(l, l1)
            && l.module.gets_more(l1.module),
{
    reveal(lowering::install);
    match lowering::install(l, f, name, params) {
        Some((l1, id)) => {
            let signature = Signature { int: l.word, params, returns: 1 };
            let declared = f.module.declare_function(name, Linkage::Local, signature);
            let defined = declared.define_function(id, f.code);
            lemma_declare_function(f.module, name, Linkage::Local, signature);
            lemma_grows(l.module, f.module, declared);
            lemma_define_function(declared, id, f.code);
            lemma_grows(l.module, declared, defined);
            lemma_finish(defined);
            lemma_grows(l.module, defined, l1.module);
            lemma_grows(f.module, declared, defined);
            lemma_grows(f.module, defined, l1.module);
            if l.module.backs(l.globals) {
                lemma_backs(f.module, l1.module, f.globals);
            }
            assert(declared.gets_more(defined));
            lemma_gets_more(l.module, declared, defined, l1.module);
        },
        None => {},
    }
}

// ---------------------------------------------------------------------------
// Expressions and statements

/// An expression adds code, and what it needs to the module; it leaves the
/// blocks, the scopes and the variables in them as they are.
pub proof fn lemma_expression(l: Lowering, e: Expression)
    ensures
        lowering::expression(l, e) matches Some((l1, _)) ==> computes(l, l1),
    decreases e, 0nat,
{
    lemma_same(l.module);
    match e {
        Expression::Var(name) => {
            lemma_variable(l, name@);
        },
        Expression::Unary(op, arg) => {
            lemma_expression(l, *arg);
            match lowering::expression(l, *arg) {
                Some((l1, v)) => {
                    lemma_apply_unary(l1, op, v);
                    match lowering::apply_unary(l1, op, v) {
                        Some((l2, _)) => {
                            lemma_advances(l, l1, l2);
                        },
                        None => {},
                    }
                },
                None => {},
            }
        },
        Expression::Infix(op, exprs) => {
            lemma_short_circuit(l, IntCC::NotEqual, exprs@);
            lemma_short_circuit(l, IntCC::Equal, exprs@);
            lemma_expressions(l, Seq::empty(), exprs@);
            match lowering::expressions(l, Seq::empty(), exprs@) {
                Some((l1, values)) => {
                    lemma_combine(l1, op, values);
                    match lowering::combine(l1, op, values) {
                        Some((l2, _)) => {
                            lemma_advances(l, l1, l2);
                        },
                        None => {},
                    }
                },
                None => {},
            }
        },
        Expression::String(bytes) => {
            lemma_string_pointer(l, bytes@);
        },
        Expression::FunctCall(c) => {
            lemma_call(l, *c);
        },
        Expression::Field(table, field) => {
            lemma_load_global(l, field@);
        },
        Expression::Index(table, index) => {
            lemma_expression(l, *table);
            match lowering::expression(l, *table) {
                Some((l1, t)) => {
                    lemma_expression(l1, *index);
                    match lowering::expression(l1, *index) {
                        Some((l2, i)) => {
                            lemma_advances(l, l1, l2);
                            lemma_call_helper(l2, "lua_gettable"@, seq![t, i]);
                            match lowering::call_helper(l2, "lua_gettable"@, seq![t, i]) {
                                Some((l3, _)) => {
                                    lemma_advances(l, l2, l3);
                                },
                                None => {},
                            }
                        },
                        None => {},
                    }
                },
                None => {},
            }
        },
        Expression::Table(fields) => {
            lemma_call_helper(l, "lua_newtable"@, seq![]);
            match lowering::call_helper(l, "lua_newtable"@, seq![]) {
                Some((l1, t)) => {
                    lemma_table_fields(l1, t, fields@);
                    match lowering::table_fields(l1, t, fields@) {
                        Some(l2) => {
                            lemma_advances(l, l1, l2);
                        },
                        None => {},
                    }
                },
                None => {},
            }
        },
        Expression::FunctDef(params, body) => {
            match lowering::made_up(l) {
                Some(l1) => {
                    lemma_function(l1, params.names@, body@);
                    match lowering::function(l1, params.names@, body@) {
                        Some(f) => {
                            let name = "lambda_"@ + lowering::decimal(l.strings);
                            lemma_install(l1, f, name, params.names.len());
                            match lowering::install(l1, f, name, params.names.len()) {
                                Some((l2, id)) => {
                                    lemma_advances(l, l1, l2);
                                    lemma_function_address(l2, id);
                                    match lowering::function_address(l2, id) {
                                        Some((l3, _)) => {
                                            lemma_advances(l, l2, l3);
                                        },
                                        None => {},
                                    }
                                },
                                None => {},
                            }
                        },
                        None => {},
                    }
                },
                None => {},
            }
        },
        _ => {},
    }
}

pub proof fn lemma_expressions(l: Lowering, done: Seq<Origin>, exprs: Seq<Expression>)
    ensures
        lowering::expressions(l, done, exprs) matches Some((l1, _)) ==> computes(l, l1),
    decreases exprs, 0nat,
{
    lemma_same(l.module);
    if exprs.len() != 0 {
        lemma_expression(l, exprs[0]);
        match lowering::expression(l, exprs[0]) {
            Some((l1, v)) => {
                lemma_expressions(l1, done.push(v), exprs.skip(1));
                match lowering::expressions(l1, done.push(v), exprs.skip(1)) {
                    Some((l2, _)) => {
                        lemma_advances(l, l1, l2);
                    },
                    None => {},
                }
            },
            None => {},
        }
    }
}

pub proof fn lemma_short_circuit(l: Lowering, cc: IntCC, exprs: Seq<Expression>)
    ensures
        lowering::short_circuit(l, cc, exprs) matches Some((l1, _)) ==> computes(l, l1),
    decreases exprs, 1nat,
{
    if exprs.len() != 0 {
        lemma_expression(l, exprs[0]);
        match lowering::expression(l, exprs[0]) {
            Some((l1, v)) => {
                let merge = lowering::new_block(Some(l1));
                lemma_same(l1.module);
                match lowering::append_param(lowering::create_block(Some(l1)), merge) {
                    Some(l2) => {
                        assert(computes(l1, l2));
                        lemma_advances(l, l1, l2);
                        lemma_alternatives(l2, cc, merge, v, exprs.skip(1));
                        match lowering::alternatives(l2, cc, merge, v, exprs.skip(1)) {
                            Some((l3, v3)) => {
                                lemma_advances(l, l2, l3);
                                lemma_merged(l3, v3, merge);
                                match lowering::merged(l3, v3, merge) {
                                    Some((l4, _)) => {
                                        lemma_advances(l, l3, l4);
                                    },
                                    None => {},
                                }
                            },
                            None => {},
                        }
                    },
                    None => {},
                }
            },
            None => {},
        }
    }
}

pub proof fn lemma_alternatives(
    l: Lowering,
    cc: IntCC,
    merge: Block,
    current: Origin,
    exprs: Seq<Expression>,
)
    ensures
        lowering::alternatives(l, cc, merge, current, exprs) matches Some((l1, _)) ==> computes(
            l,
            l1,
        ),
    decreases exprs, 0nat,
{
    lemma_same(l.module);
    if exprs.len() != 0 {
        lemma_hand_over(l, cc, merge, current);
        match lowering::hand_over(l, cc, merge, current) {
            Some(l1) => {
                lemma_expression(l1, exprs[0]);
                match lowering::expression(l1, exprs[0]) {
                    Some((l2, v)) => {
                        lemma_advances(l, l1, l2);
                        lemma_alternatives(l2, cc, merge, v, exprs.skip(1));
                        match lowering::alternatives(l2, cc, merge, v, exprs.skip(1)) {
                            Some((l3, _)) => {
                                lemma_advances(l, l2, l3);
                            },
                            None => {},
                        }
                    },
                    None => {},
                }
            },
            None => {},
        }
    }
}

pub proof fn lemma_table_fields(l: Lowering, table: Origin, fields: Seq<Field>)
    ensures
        lowering::table_fields(l, table, fields) matches Some(l1) ==> computes(l, l1),
    decreases fields, 0nat,
{
    lemma_same(l.module);
    if fields.len() != 0 {
        match fields[0] {
            Field::Named(name, e) => {
                lemma_expression(l, e);
                match lowering::expression(l, e) {
                    Some((l1, v)) => {
                        lemma_store_field(l1, table, name@, v);
                        match lowering::store_field(l1, table, name@, v) {
                            Some(l2) => {
                                lemma_advances(l, l1, l2);
                                lemma_table_fields(l2, table, fields.skip(1));
                                match lowering::table_fields(l2, table, fields.skip(1)) {
                                    Some(l3) => {
                                        lemma_advances(l, l2, l3);
                                    },
                                    None => {},
                                }
                            },
                            None => {},
                        }
                    },
                    None => {},
                }
            },
            _ => {},
        }
    }
}

pub proof fn lemma_call(l: Lowering, c: FunctionCall)
    ensures
        lowering::call(l, c) matches Some((l1, _)) ==> computes(l, l1),
    decreases c, 1nat,
{
    lemma_callee(l, c.prefix);
    match lowering::callee(l, c.prefix) {
        Some((l1, func)) => {
            lemma_expressions(l1, Seq::empty(), c.args@);
            match lowering::expressions(l1, Seq::empty(), c.args@) {
                Some((l2, args)) => {
                    lemma_advances(l, l1, l2);
                    lemma_call_value(l2, func, args);
                    match lowering::call_value(l2, func, args) {
                        Some((l3, _)) => {
                            lemma_advances(l, l2, l3);
                        },
                        None => {},
                    }
                },
                None => {},
            }
        },
        None => {},
    }
}

pub proof fn lemma_callee(l: Lowering, prefix: Expression)
    ensures
        lowering::callee(l, prefix) matches Some((l1, _)) ==> computes(l, l1),
    decreases prefix, 1nat,
{
    match prefix {
        Expression::Field(table, field) => {
            lemma_expression(l, *table);
            match lowering::expression(l, *table) {
                Some((l1, t)) => {
                    lemma_load_field(l1, t, field@);
                    match lowering::load_field(l1, t, field@) {
                        Some((l2, _)) => {
                            lemma_advances(l, l1, l2);
                        },
                        None => {},
                    }
                },
                None => {},
            }
        },
        _ => {
            lemma_expression(l, prefix);
        },
    }
}

/// A function in a function adds what it needs to the module.
pub proof fn lemma_function(l: Lowering, params: Seq<String>, body: Seq<Statement>)
    ensures
        lowering::function(l, params, body) matches Some(f) ==> feeds(l, f),
    decreases body, 1nat,
{
    lemma_begin_function(l, params);
    match lowering::begin_function(l, params) {
        Some(l1) => {
            lemma_every(l1, body);
            match lowering::every(l1, body) {
                Some(l2) => {
                    lemma_feeds(l, l1, l2);
                    lemma_end_function(l2);
                    match lowering::end_function(l2) {
                        Some(l3) => {
                            lemma_feeds(l, l2, l3);
                        },
                        None => {},
                    }
                },
                None => {},
            }
        },
        None => {},
    }
}

/// A statement adds code, and what it needs to the module.
pub proof fn lemma_statement(l: Lowering, stmt: Statement)
    ensures
        lowering::statement(l, stmt) matches Some(l1) ==> advances(l, l1),
    decreases stmt, 1nat,
{
    lemma_same(l.module);
    lemma_fresh_block(l);
    match lowering::fresh_block(l) {
        Some(l1) => {
            lemma_live_statement(l1, stmt);
            match lowering::live_statement(l1, stmt) {
                Some(l2) => {
                    lemma_advances(l, l1, l2);
                },
                None => {},
            }
        },
        None => {},
    }
}

pub proof fn lemma_live_statement(l: Lowering, stmt: Statement)
    ensures
        lowering::live_statement(l, stmt) matches Some(l1) ==> advances(l, l1),
    decreases stmt, 0nat,
{
    lemma_same(l.module);
    match stmt {
        Statement::If { ifcases, elsecase } => {
            match lowering::begin_if(l) {
                Some((l1, fork)) => {
                    let merge = lowering::new_block(Some(l));
                    assert(advances(l, l1));
                    lemma_cases(l1, fork, merge, ifcases@);
                    match lowering::cases(l1, fork, merge, ifcases@) {
                        Some((l2, fork2)) => {
                            lemma_advances(l, l1, l2);
                            let l3 = lowering::begin_else(l2);
                            lemma_same(l2.module);
                            assert(advances(l2, l3));
                            lemma_advances(l, l2, l3);
                            lemma_block(l3, elsecase@);
                            match lowering::block(l3, elsecase@) {
                                Some(l4) => {
                                    lemma_advances(l, l3, l4);
                                    lemma_end_if(l4, fork2, merge);
                                    match lowering::end_if(l4, fork2, merge) {
                                        Some(l5) => {
                                            lemma_advances(l, l4, l5);
                                        },
                                        None => {},
                                    }
                                },
                                None => {},
                            }
                        },
                        None => {},
                    }
                },
                None => {},
            }
        },
        Statement::While { cond, block: body } => {
            let header_block = lowering::new_block(Some(l));
            let body_block = lowering::new_block(lowering::create_block(Some(l)));
            let exit_block = lowering::new_block(
                lowering::create_block(lowering::create_block(Some(l))),
            );
            lemma_begin_while(l);
            match lowering::begin_while(l) {
                Some(l1) => {
                    lemma_expression(l1, cond);
                    match lowering::expression(l1, cond) {
                        Some((l2, v)) => {
                            lemma_advances(l, l1, l2);
                            lemma_test_while(l2, v, header_block, body_block, exit_block);
                            match lowering::test_while(
                                l2,
                                v,
                                header_block,
                                body_block,
                                exit_block,
                            ) {
                                Some(l3) => {
                                    lemma_advances(l, l2, l3);
                                    lemma_block(l3, body@);
                                    match lowering::block(l3, body@) {
                                        Some(l4) => {
                                            lemma_advances(l, l3, l4);
                                            lemma_end_while(
                                                l4,
                                                header_block,
                                                body_block,
                                                exit_block,
                                            );
                                            match lowering::end_while(
                                                l4,
                                                header_block,
                                                body_block,
                                                exit_block,
                                            ) {
                                                Some(l5) => {
                                                    lemma_advances(l, l4, l5);
                                                },
                                                None => {},
                                            }
                                        },
                                        None => {},
                                    }
                                },
                                None => {},
                            }
                        },
                        None => {},
                    }
                },
                None => {},
            }
        },
        Statement::Repeat { block: body, cond } => {
            let body_block = lowering::new_block(Some(l));
            let exit_block = lowering::new_block(lowering::create_block(Some(l)));
            lemma_begin_repeat(l);
            match lowering::begin_repeat(l) {
                Some(l1) => {
                    lemma_block(l1, body@);
                    match lowering::block(l1, body@) {
                        Some(l2) => {
                            lemma_advances(l, l1, l2);
                            lemma_expression(l2, cond);
                            match lowering::expression(l2, cond) {
                                Some((l3, v)) => {
                                    lemma_advances(l, l2, l3);
                                    lemma_end_repeat(l3, v, body_block, exit_block);
                                    match lowering::end_repeat(l3, v, body_block, exit_block) {
                                        Some(l4) => {
                                            lemma_advances(l, l3, l4);
                                        },
                                        None => {},
                                    }
                                },
                                None => {},
                            }
                        },
                        None => {},
                    }
                },
                None => {},
            }
        },
        Statement::Local { vars, exprs } => {
            lemma_expressions(l, Seq::empty(), exprs@);
            match lowering::expressions(l, Seq::empty(), exprs@) {
                Some((l1, values)) => {
                    lemma_bind_locals(l1, vars@, values);
                    match lowering::bind_locals(l1, vars@, values) {
                        Some(l2) => {
                            lemma_advances(l, l1, l2);
                        },
                        None => {},
                    }
                },
                None => {},
            }
        },
        Statement::Assign { vars, exprs } => {
            lemma_expressions(l, Seq::empty(), exprs@);
            match lowering::expressions(l, Seq::empty(), exprs@) {
                Some((l1, values)) => {
                    lemma_assign_all(l1, vars@, values);
                    match lowering::assign_all(l1, vars@, values) {
                        Some(l2) => {
                            lemma_advances(l, l1, l2);
                        },
                        None => {},
                    }
                },
                None => {},
            }
        },
        Statement::Return(exprs) => {
            if exprs@.len() != 0 {
                lemma_expression(l, exprs@[0]);
            }
            let r = if exprs@.len() == 0 {
                lowering::constant(l, 0)
            } else {
                lowering::expression(l, exprs@[0])
            };
            match r {
                Some((l1, v)) => {
                    lemma_give_back(l1, v);
                    match lowering::give_back(l1, v) {
                        Some(l2) => {
                            lemma_advances(l, l1, l2);
                        },
                        None => {},
                    }
                },
                None => {},
            }
        },
        Statement::FunctCall(c) => {
            lemma_call(l, c);
        },
        Statement::Do(body) => {
            let l1 = lowering::enter_scope(l);
            assert(advances(l, l1));
            lemma_block(l1, body@);
            match lowering::block(l1, body@) {
                Some(l2) => {
                    lemma_advances(l, l1, l2);
                },
                None => {},
            }
        },
        Statement::Function { name, params, body } => {
            lemma_function(l, params.names@, body@);
            match lowering::function(l, params.names@, body@) {
                Some(f) => {
                    let full_name = lowering::joined(name.qname@);
                    lemma_install(l, f, full_name, params.names.len());
                    match lowering::install(l, f, full_name, params.names.len()) {
                        Some((l1, id)) => {
                            lemma_publish(l1, id, full_name);
                            match lowering::publish(l1, id, full_name) {
                                Some(l2) => {
                                    lemma_advances(l, l1, l2);
                                },
                                None => {},
                            }
                        },
                        None => {},
                    }
                },
                None => {},
            }
        },
        _ => {},
    }
}

pub proof fn lemma_block(l: Lowering, stmts: Seq<Statement>)
    ensures
        lowering::block(l, stmts) matches Some(l1) ==> advances(l, l1),
    decreases stmts, 0nat,
{
    lemma_same(l.module);
    if stmts.len() != 0 {
        lemma_statement(l, stmts[0]);
        match lowering::statement(l, stmts[0]) {
            Some(l1) => {
                lemma_block(l1, stmts.skip(1));
                match lowering::block(l1, stmts.skip(1)) {
                    Some(l2) => {
                        lemma_advances(l, l1, l2);
                    },
                    None => {},
                }
            },
            None => {},
        }
    }
}

pub proof fn lemma_every(l: Lowering, stmts: Seq<Statement>)
    ensures
        lowering::every(l, stmts) matches Some(l1) ==> advances(l, l1),
    decreases stmts, 0nat,
{
    lemma_same(l.module);
    if stmts.len() != 0 {
        lemma_statement(l, stmts[0]);
        match lowering::statement(l, stmts[0]) {
            Some(l1) => {
                lemma_every(l1, stmts.skip(1));
                match lowering::every(l1, stmts.skip(1)) {
                    Some(l2) => {
                        lemma_advances(l, l1, l2);
                    },
                    None => {},
                }
            },
            None => {},
        }
    }
}

pub proof fn lemma_cases(
    l: Lowering,
    fork: Fork,
    merge: Block,
    ifcases: Seq<(Expression, Vec<Statement>)>,
)
    ensures
        lowering::cases(l, fork, merge, ifcases) matches Some((l1, _)) ==> advances(l, l1),
    decreases ifcases, 0nat,
{
    lemma_same(l.module);
    if ifcases.len() != 0 {
        lemma_expression(l, ifcases[0].0);
        match lowering::expression(l, ifcases[0].0) {
            Some((l1, v)) => {
                let then_block = lowering::new_block(Some(l1));
                let else_block = lowering::new_block(lowering::create_block(Some(l1)));
                lemma_begin_case(l1, v, fork.test);
                match lowering::begin_case(l1, v, fork.test) {
                    Some(l2) => {
                        lemma_advances(l, l1, l2);
                        lemma_block(l2, ifcases[0].1@);
                        match lowering::block(l2, ifcases[0].1@) {
                            Some(l3) => {
                                lemma_advances(l, l2, l3);
                                lemma_end_case(l3, fork, then_block, else_block, merge);
                                match lowering::end_case(l3, fork, then_block, else_block, merge) {
                                    Some((l4, fork4)) => {
                                        lemma_advances(l, l3, l4);
                                        lemma_cases(l4, fork4, merge, ifcases.skip(1));
                                        match lowering::cases(l4, fork4, merge, ifcases.skip(1)) {
                                            Some((l5, _)) => {
                                                lemma_advances(l, l4, l5);
                                            },
                                            None => {},
                                        }
                                    },
                                    None => {},
                                }
                            },
                            None => {},
                        }
                    },
                    None => {},
                }
            },
            None => {},
        }
    }
}

pub proof fn lemma_assign_all(l: Lowering, targets: Seq<Expression>, values: Seq<Origin>)
    ensures
        lowering::assign_all(l, targets, values) matches Some(l1) ==> computes(l, l1),
    decreases targets, 0nat,
{
    lemma_same(l.module);
    if targets.len() != 0 && values.len() != 0 {
        lemma_assign(l, targets[0], values[0]);
        match lowering::assign(l, targets[0], values[0]) {
            Some(l1) => {
                lemma_assign_all(l1, targets.skip(1), values.skip(1));
                match lowering::assign_all(l1, targets.skip(1), values.skip(1)) {
                    Some(l2) => {
                        lemma_advances(l, l1, l2);
                    },
                    None => {},
                }
            },
            None => {},
        }
    }
}

pub proof fn lemma_assign(l: Lowering, target: Expression, v: Origin)
    ensures
        lowering::assign(l, target, v) matches Some(l1) ==> computes(l, l1),
    decreases target, 1nat,
{
    match target {
        Expression::Var(name) => {
            lemma_store_variable(l, name@, v);
        },
        Expression::Field(table, field) => {
            lemma_store_global(l, field@, v);
            lemma_expression(l, *table);
            match lowering::expression(l, *table) {
                Some((l1, t)) => {
                    lemma_store_field(l1, t, field@, v);
                    match lowering::store_field(l1, t, field@, v) {
                        Some(l2) => {
                            lemma_advances(l, l1, l2);
                        },
                        None => {},
                    }
                },
                None => {},
            }
        },
        Expression::Index(table, index) => {
            lemma_expression(l, *table);
            match lowering::expression(l, *table) {
                Some((l1, t)) => {
                    lemma_expression(l1, *index);
                    match lowering::expression(l1, *index) {
                        Some((l2, i)) => {
                            lemma_advances(l, l1, l2);
                            lemma_store_entry(l2, t, i, v);
                            match lowering::store_entry(l2, t, i, v) {
                                Some(l3) => {
                                    lemma_advances(l, l2, l3);
                                },
                                None => {},
                            }
                        },
                        None => {},
                    }
                },
                None => {},
            }
        },
        _ => {},
    }
}

// ---------------------------------------------------------------------------
// Whole programs

pub proof fn lemma_begin_program(l: Lowering, params: Seq<String>)
    ensures
        lowering::begin_program(l, params) matches Some(l1) ==> advances(l, l1),
{
    reveal(lowering::begin_program);
    lemma_same(l.module);
    let block = lowering::new_block(Some(l));
    match lowering::append_function_params(lowering::create_known(Some(l)), block) {
        Some(l1) => {
            lemma_switch(l1, block);
            match lowering::switch_to(Some(l1), block) {
                Some(l2) => {
                    lemma_advances(l, l1, l2);
                    lemma_bind_params(l2, block, params, 0);
                    match lowering::bind_params(l2, block, params, 0) {
                        Some(l3) => {
                            lemma_advances(l, l2, l3);
                        },
                        None => {},
                    }
                },
                None => {},
            }
        },
        None => {},
    }
}

pub proof fn lemma_end_program(l: Lowering)
    ensures
        lowering::end_program(l) matches Some(l1) ==> advances(l, l1) && l1.module == l.module
            && l1.globals == l.globals,
{
    reveal(lowering::end_program);
    lemma_same(l.module);
    let ended = if ir::unreachable(l.code) {
        Some(l)
    } else {
        lowering::return_zero(Some(l))
    };
    match ended {
        Some(l1) => {
            lemma_seal_all(l1.cursor(), l1.manager.stack);
        },
        None => {},
    }
}

/// A program starts with requests only of blocks that were created.
pub proof fn lemma_blank(
    code: Seq<Request>,
    signature: Signature,
    module: ModuleState,
    globals: Map<Seq<char>, DataId>,
)
    requires
        ir::is_orderly(code) || code.len() == 0,
    ensures
        is_sound(lowering::blank(code, signature, module, globals)),
{
    lemma_begun(code, signature);
}

/// A program adds code to its function, and what it needs to the module.
pub proof fn lemma_program(l: Lowering, params: Seq<String>, stmts: Seq<Statement>)
    ensures
        lowering::program(l, params, stmts) matches Some(l1) ==> advances(l, l1),
{
    lemma_begin_program(l, params);
    match lowering::begin_program(l, params) {
        Some(l1) => {
            lemma_block(l1, stmts);
            match lowering::block(l1, stmts) {
                Some(l2) => {
                    lemma_advances(l, l1, l2);
                    lemma_end_program(l2);
                    match lowering::end_program(l2) {
                        Some(l3) => {
                            lemma_advances(l, l2, l3);
                        },
                        None => {},
                    }
                },
                None => {},
            }
        },
        None => {},
    }
}

} // verus!
