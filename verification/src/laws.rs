//! What holds of the compiler as a whole.
use vstd::prelude::*;

use crate::ast::{Expression, Number, Statement};
use crate::blocks;
use crate::blocks::{Cursor, ManagerState};
use crate::growth;
use crate::ir;
use crate::ir::{limit, Block, DataId, DataRef, FuncId, Inst, Request, Signature};
use crate::jit::{JITState, Outcome};
use crate::lowering;
use crate::lowering::Lowering;
use crate::module::{Linkage, ModuleState, Symbol};

verus! {

/// The code of a program without statements: it returns zero.
pub open spec fn return_zero(signature: Signature) -> Seq<Request> {
    let block = Block(0);
    let begun = seq![Request::Begin { signature }, Request::CreateBlock, Request::Switch { block }];
    let zero = begun.push(
        Request::Emit { block, inst: Inst::Iconst { ty: signature.int, imm: 0 } },
    );
    zero.push(Request::Emit { block, inst: Inst::Return { args: seq![zero] } }).push(
        Request::Seal { block },
    )
}

/// A program that refers only to what has an address leaves a module linked.
proof fn lemma_define_main(m: ModuleState, signature: Signature, id: FuncId, code: Seq<Request>)
    requires
        m.is_linked(),
        m.is_consistent(),
        m.functions.len() < limit(),
        m.function_named("main"@, signature) == Some(id),
        forall|k: int| 0 <= k < code.len() ==> m.resolves(#[trigger] code[k]),
    ensures
        m.declare_function("main"@, Linkage::Export, signature).define_function(
            id,
            code,
        ).is_linked(),
{
    let declared = m.declare_function("main"@, Linkage::Export, signature);
    let defined = declared.define_function(id, code);
    assert(m.names.contains_key("main"@) ==> m.knows("main"@));
    assert forall|i: int, k: int|
        #![trigger (defined.functions[i].body->0)[k]]
        0 <= i < defined.functions.len() && defined.functions[i].body is Some && 0 <= k < (
        defined.functions[i].body->0).len() implies defined.resolves(
        (defined.functions[i].body->0)[k],
    ) by {
        let r = (defined.functions[i].body->0)[k];
        if i != id.0 {
            assert(m.functions[i].body == defined.functions[i].body);
            assert(r == (m.functions[i].body->0)[k]);
        } else {
            assert(r == code[k]);
        }
        assert(m.resolves(r));
    }
}

/// A new data object leaves a module linked.
proof fn lemma_new_data(m: ModuleState, name: Seq<char>, contents: Seq<u8>)
    requires
        m.is_linked(),
        m.data.len() < limit(),
        !m.names.contains_key(name),
    ensures
        m.declare_data(name, Linkage::Export, true).define_data(
            DataId(m.data.len() as u32),
            contents,
        ).is_linked(),
{
    let m1 = m.declare_data(name, Linkage::Export, true).define_data(
        DataId(m.data.len() as u32),
        contents,
    );
    assert forall|i: int, k: int|
        #![trigger (m1.functions[i].body->0)[k]]
        0 <= i < m1.functions.len() && m1.functions[i].body is Some && 0 <= k < (
        m1.functions[i].body->0).len() implies m1.resolves((m1.functions[i].body->0)[k]) by {
        assert(m.resolves((m.functions[i].body->0)[k]));
    }
}

/// A program without statements returns zero, and adds nothing to the module.
pub proof fn law_empty_program(s: JITState)
    requires
        s.is_ready(),
        s.draft == Seq::<Request>::empty(),
        s.params == 0,
        s.returns == 0,
    ensures
        s.lowered(Seq::empty(), Seq::empty()) matches Some(l) && l.code == return_zero(
            s.signature(Seq::empty()),
        ) && l.module == s.module && l.globals == s.globals,
        s.module.functions.len() < limit() && s.module.is_linked() ==> s.accepts(
            Seq::empty(),
            Seq::empty(),
        ),
{
    let signature = s.signature(Seq::empty());
    let block = Block(0);
    let h0 = Seq::<Request>::empty();
    let h1 = h0.push(Request::Begin { signature });
    let h2 = h1.push(Request::CreateBlock);
    let h3 = h2.push(Request::Switch { block });
    ir::lemma_push(h0, Request::Begin { signature });
    ir::lemma_push(h1, Request::CreateBlock);
    ir::lemma_push(h2, Request::Switch { block });
    let l1 = lowering::blank(h0, signature, s.module, s.globals);
    lemma_begin(l1, signature);
    let l3 = lowering::begin_program(l1, Seq::empty())->0;
    assert(l3.code =~= h3);
    ir::lemma_fits_all(h3, 5);
    ir::lemma_fits_less(h3, 5, 2);
    lemma_end(l3, block);
    let l = s.lowered(Seq::empty(), Seq::empty())->0;
    if s.module.functions.len() < limit() && s.module.is_linked() {
        match s.place(Seq::empty(), l) {
            Some(id) => {
                ir::lemma_fits_all(l.code, ir::made(l.code));
                lemma_define_main(s.module, signature, id, l.code);
            },
            None => {},
        }
    }
}

/// The code of a program that writes an integer to a global variable: the
/// integer is stored at the address of the variable's data object.
pub open spec fn store_integer(signature: Signature, i: i64, id: DataId) -> Seq<Request> {
    let block = Block(0);
    let ty = signature.int;
    let begun = seq![Request::Begin { signature }, Request::CreateBlock, Request::Switch { block }];
    let value = begun.push(Request::Emit { block, inst: Inst::Iconst { ty, imm: i } });
    let ptr = value.push(Request::ImportData { data: id }).push(
        Request::Emit { block, inst: Inst::SymbolValue { ty, data: DataRef(0) } },
    );
    let stored = ptr.push(Request::Emit { block, inst: Inst::Store { value, ptr, offset: 0 } });
    let zero = stored.push(Request::Emit { block, inst: Inst::Iconst { ty, imm: 0 } });
    zero.push(Request::Emit { block, inst: Inst::Return { args: seq![zero] } }).push(
        Request::Seal { block },
    )
}

/// A program that writes an integer to a new global variable defines a data
/// object of eight zeroes for it, and stores the integer there.
pub proof fn law_global_assignment(
    s: JITState,
    vars: Vec<Expression>,
    exprs: Vec<Expression>,
    name: String,
    i: i64,
)
    requires
        s.is_ready(),
        s.draft == Seq::<Request>::empty(),
        s.params == 0,
        s.returns == 0,
        s.module.data.len() < limit(),
        !s.module.names.contains_key(name@),
        !s.globals.contains_key(name@),
        vars@ == seq![Expression::Var(name)],
        exprs@ == seq![Expression::Number(Number::Integer(i))],
    ensures
        ({
            let id = DataId(s.module.data.len() as u32);
            s.lowered(Seq::empty(), seq![Statement::Assign { vars, exprs }]) matches Some(l) && {
                &&& l.code == store_integer(s.signature(Seq::empty()), i, id)
                &&& l.globals == s.globals.insert(name@, id)
                &&& l.module == s.module.declare_data(name@, Linkage::Export, true).define_data(
                    id,
                    Seq::new(8, |k: int| 0u8),
                )
            }
        }),
        s.module.functions.len() < limit() && s.module.is_linked() ==> s.accepts(
            Seq::empty(),
            seq![Statement::Assign { vars, exprs }],
        ),
{
    let stmt = Statement::Assign { vars, exprs };
    let signature = s.signature(Seq::empty());
    let block = Block(0);
    let id = DataId(s.module.data.len() as u32);
    let h0 = Seq::<Request>::empty();
    let h1 = h0.push(Request::Begin { signature });
    let h2 = h1.push(Request::CreateBlock);
    let h3 = h2.push(Request::Switch { block });
    ir::lemma_push(h0, Request::Begin { signature });
    ir::lemma_push(h1, Request::CreateBlock);
    ir::lemma_push(h2, Request::Switch { block });
    let l1 = lowering::blank(h0, signature, s.module, s.globals);
    lemma_begin(l1, signature);
    let l3 = lowering::begin_program(l1, Seq::empty())->0;
    assert(l3.code =~= h3);
    ir::lemma_fits_all(h3, 5);
    ir::lemma_fits_less(h3, 5, 2);
    assert(ir::data_imports(h3) == 0) by {
        reveal_with_fuel(ir::data_imports, 4);
        assert(h3.drop_last() =~= h2);
        assert(h2.drop_last() =~= h1);
        assert(h1.drop_last() =~= h0);
    }
    lemma_store_integer(l3, block, vars, exprs, name, i);
    let l7 = lowering::live_statement(l3, stmt)->0;
    assert(lowering::fresh_block(l3) == Some(l3)) by {
        reveal(lowering::fresh_block);
    }
    assert(lowering::statement(l3, stmt) == Some(l7));
    lemma_one_statement(l3, stmt, l7);
    lemma_end(l7, block);
    assert(lowering::initial(None) =~= Seq::new(8, |k: int| 0u8));
    if s.module.functions.len() < limit() && s.module.is_linked() {
        let l = s.lowered(Seq::empty(), seq![stmt])->0;
        lemma_new_data(s.module, name@, lowering::initial(None));
        growth::lemma_declare_data(s.module, name@, Linkage::Export, true);
        growth::lemma_define_data(
            s.module.declare_data(name@, Linkage::Export, true),
            id,
            lowering::initial(None),
        );
        growth::lemma_grows(
            s.module,
            s.module.declare_data(name@, Linkage::Export, true),
            l.module,
        );
        growth::lemma_consistent(s.module, l.module);
        match s.place(Seq::empty(), l) {
            Some(main) => {
                ir::lemma_fits_all(l.code, ir::made(l.code));
                lemma_define_main(l.module, signature, main, l.code);
            },
            None => {},
        }
    }
}

proof fn lemma_one_statement(l: Lowering, stmt: Statement, l1: Lowering)
    requires
        !l.terminated,
        ir::position(l.code) is Some,
        !ir::unreachable(l.code),
        lowering::statement(l, stmt) == Some(l1),
    ensures
        lowering::block(l, seq![stmt]) == Some(l1),
{
    let stmts = seq![stmt];
    assert(stmts.skip(1) =~= Seq::empty());
    reveal_with_fuel(lowering::block, 2);
}

/// An integer is stored at the address of a new global variable.
proof fn lemma_store_integer(
    l: Lowering,
    block: Block,
    vars: Vec<Expression>,
    exprs: Vec<Expression>,
    name: String,
    i: i64,
)
    requires
        l.word.is_known(),
        l.module.is_static(),
        l.module.data.len() < limit(),
        !l.module.names.contains_key(name@),
        !l.globals.contains_key(name@),
        !l.locals.contains_key(name@),
        vars@ == seq![Expression::Var(name)],
        exprs@ == seq![Expression::Number(Number::Integer(i))],
        ir::position(l.code) == Some(block),
        !ir::filled(l.code, block),
        !ir::terminated(l.code, block),
        !ir::sealed(l.code, block),
        ir::created(l.code, block),
        ir::has_room(l.code),
        ir::fits(l.code, 5),
        ir::data_imports(l.code) == 0,
        l.code.len() + 1 < limit(),
        forall|b: Block| #[trigger] ir::touched(l.code, b) ==> b == block,
    ensures
        ({
            let id = DataId(l.module.data.len() as u32);
            let ty = l.word;
            let value = l.code.push(Request::Emit { block, inst: Inst::Iconst { ty, imm: i } });
            let ptr = value.push(Request::ImportData { data: id }).push(
                Request::Emit { block, inst: Inst::SymbolValue { ty, data: DataRef(0) } },
            );
            let code = ptr.push(
                Request::Emit { block, inst: Inst::Store { value, ptr, offset: 0 } },
            );
            &&& lowering::live_statement(l, Statement::Assign { vars, exprs }) == Some(
                Lowering {
                    code,
                    module: l.module.declare_data(name@, Linkage::Export, true).define_data(
                        id,
                        lowering::initial(None),
                    ),
                    globals: l.globals.insert(name@, id),
                    ..l
                },
            )
            &&& ir::position(code) == Some(block)
            &&& !ir::filled(code, block)
            &&& !ir::terminated(code, block)
            &&& !ir::sealed(code, block)
            &&& ir::created(code, block)
            &&& ir::has_room(code)
            &&& ir::fits(code, 2)
            &&& ir::made(code) == ir::made(l.code) + 3
            &&& ir::variables(code) == ir::variables(l.code)
            &&& ir::block_count(code) == ir::block_count(l.code)
            &&& forall|b: Block| #[trigger] ir::touched(code, b) ==> b == block
        }),
{
    let ty = l.word;
    let id = DataId(l.module.data.len() as u32);
    let h3 = l.code;
    let r3 = Request::Emit { block, inst: Inst::Iconst { ty, imm: i } };
    let r4 = Request::ImportData { data: id };
    let r5 = Request::Emit { block, inst: Inst::SymbolValue { ty, data: DataRef(0) } };
    let h4 = h3.push(r3);
    let h5 = h4.push(r4);
    let h6 = h5.push(r5);
    let r6 = Request::Emit { block, inst: Inst::Store { value: h4, ptr: h6, offset: 0 } };
    let h7 = h6.push(r6);
    ir::lemma_push(h3, r3);
    ir::lemma_push(h4, r4);
    ir::lemma_push(h5, r5);
    ir::lemma_push(h6, r6);
    ir::lemma_fits(h3, 5, r3);
    ir::lemma_fits(h4, 4, r4);
    ir::lemma_fits(h5, 4, r5);
    ir::lemma_fits(h6, 3, r6);
    ir::lemma_fits_less(h3, 5, 1);
    ir::lemma_fits_less(h5, 4, 1);
    ir::lemma_fits_less(h6, 3, 1);
    assert(h4.drop_last() =~= h3);
    assert(h6.drop_last() =~= h5);
    // The value.
    let l4 = Lowering { code: h4, ..l };
    assert(lowering::expression(l, exprs@[0]) == Some((l4, h4)));
    assert(lowering::expressions(l, Seq::empty(), exprs@) == Some((l4, seq![h4]))) by {
        assert(exprs@.skip(1) =~= Seq::empty());
        assert(Seq::<ir::Origin>::empty().push(h4) =~= seq![h4]);
        reveal_with_fuel(lowering::expressions, 2);
    }
    // The address.
    let m = l.module.declare_data(name@, Linkage::Export, true).define_data(
        id,
        lowering::initial(None),
    );
    let l6 = Lowering { code: h6, module: m, globals: l.globals.insert(name@, id), ..l };
    assert(ir::data_imports(h4) == 0);
    assert(lowering::global_pointer(l4, name@, None) == Some((l6, h6))) by {
        reveal(lowering::global_pointer);
    }
    // The store.
    let l7 = Lowering { code: h7, ..l6 };
    assert(ir::emit(h6, Inst::Store { value: h4, ptr: h6, offset: 0 }) == Some(h7)) by {
        assert(h4 =~= h6.subrange(0, h4.len() as int));
    }
    assert(lowering::store_variable(l4, name@, h4) == Some(l7)) by {
        reveal(lowering::store_variable);
        reveal(lowering::store_global);
    }
    assert(lowering::assign_all(l4, vars@, seq![h4]) == Some(l7)) by {
        assert(lowering::assign(l4, vars@[0], h4) == Some(l7));
        assert(vars@.skip(1) =~= Seq::empty());
        reveal_with_fuel(lowering::assign_all, 2);
    }
}

/// A program starts with one block, which is open.
proof fn lemma_begin(l: Lowering, signature: Signature)
    requires
        l == lowering::blank(Seq::empty(), signature, l.module, l.globals),
        signature.params == 0,
        signature.is_known(),
    ensures
        lowering::begin_program(l, Seq::empty()) == Some(
            Lowering {
                code: seq![
                    Request::Begin { signature },
                    Request::CreateBlock,
                    Request::Switch { block: Block(0) },
                ],
                manager: ManagerState {
                    stack: seq![Block(0)],
                    current: Some(Block(0)),
                    ..l.manager
                },
                ..l
            },
        ),
{
    let block = Block(0);
    let h0 = Seq::<Request>::empty();
    let h1 = h0.push(Request::Begin { signature });
    let h2 = h1.push(Request::CreateBlock);
    let h3 = h2.push(Request::Switch { block });
    ir::lemma_push(h0, Request::Begin { signature });
    ir::lemma_push(h1, Request::CreateBlock);
    ir::lemma_push(h2, Request::Switch { block });
    ir::lemma_fits_all(h2, 0);
    reveal(lowering::begin_program);
    assert(l.code == h1);
    let none = Seq::new(
        0,
        |i: int| Request::AppendParam { block, ty: ir::Type::Int(signature.int) },
    );
    assert(h2 + none =~= h2);
    assert(ir::append_function_params(h2, block) == Some(h2));
    assert(ir::switch_to(h2, block) == Some(h3));
    let l3 = lowering::start_block(l)->0;
    assert(Seq::<Block>::empty().push(block) =~= seq![block]);
    assert(seq![block][0] == block);
    assert(l3.manager.stack =~= seq![block]);
    assert(
        h3 =~= seq![Request::Begin { signature }, Request::CreateBlock, Request::Switch { block }]
    );
}

/// A program in one open block ends with a return of zero.
proof fn lemma_end(l: Lowering, block: Block)
    requires
        l.word.is_known(),
        l.manager.stack == seq![block],
        l.manager.current == Some(block),
        l.manager.sealed == Set::<u32>::empty(),
        ir::position(l.code) == Some(block),
        !ir::filled(l.code, block),
        !ir::terminated(l.code, block),
        !ir::sealed(l.code, block),
        ir::created(l.code, block),
        ir::has_room(l.code),
        ir::fits(l.code, 2),
        forall|b: Block| #[trigger] ir::touched(l.code, b) ==> b == block,
    ensures
        lowering::end_program(l) matches Some(l1) && l1.module == l.module && l1.globals
            == l.globals && ir::entry(l1.code) is Some && ir::made(l1.code) == ir::made(l.code) + 2
            && ir::variables(l1.code) == ir::variables(l.code) && ir::block_count(l1.code)
            == ir::block_count(l.code) && ({
            let zero = l.code.push(
                Request::Emit { block, inst: Inst::Iconst { ty: l.word, imm: 0 } },
            );
            l1.code == zero.push(
                Request::Emit { block, inst: Inst::Return { args: seq![zero] } },
            ).push(
                Request::Seal { block },
            )
        }),
{
    let h = l.code;
    let r0 = Request::Emit { block, inst: Inst::Iconst { ty: l.word, imm: 0 } };
    let h1 = h.push(r0);
    let r1 = Request::Emit { block, inst: Inst::Return { args: seq![h1] } };
    let h2 = h1.push(r1);
    let h3 = h2.push(Request::Seal { block });
    ir::lemma_push(h, r0);
    ir::lemma_push(h1, r1);
    ir::lemma_push(h2, Request::Seal { block });
    ir::lemma_fits_less(h, 2, 1);
    ir::lemma_fits(h, 2, r0);
    ir::lemma_fits(h1, 1, r1);
    reveal(lowering::end_program);
    assert(ir::emit(h, Inst::Iconst { ty: l.word, imm: 0 }) == Some(h1));
    assert(h1.drop_last() =~= h);
    assert(ir::value_type(h1, h1) is Some);
    assert(ir::emit(h1, Inst::Return { args: seq![h1] }) == Some(h2));
    let c = Cursor { code: h2, manager: l.manager };
    assert(c.seal(block) is Some);
    assert(seq![block].skip(1) =~= Seq::empty());
    reveal_with_fuel(Cursor::seal_all, 2);
    assert(c.seal_all(seq![block]) is Some);
    assert(ir::complete(h3));
}

// ---------------------------------------------------------------------------
// Blocks

/// Whether the manager knows of no block as sealed that is not.
pub open spec fn is_honest(c: Cursor) -> bool {
    forall|n: u32| #[trigger] c.manager.sealed.contains(n) ==> ir::sealed(c.code, Block(n))
}

/// A sealed block stays sealed as long as there is one builder.
proof fn lemma_stays_sealed(h: Seq<Request>, h1: Seq<Request>, block: Block)
    requires
        ir::sealed(h, block),
        h.is_prefix_of(h1),
        forall|i: int| h.len() <= i < h1.len() ==> !(#[trigger] h1[i] is Begin),
    ensures
        ir::sealed(h1, block),
    decreases h1.len(),
{
    if h1.len() == h.len() {
        assert(h1 =~= h);
    } else {
        let h2 = h1.drop_last();
        assert(h =~= h2.subrange(0, h.len() as int));
        lemma_stays_sealed(h, h2, block);
    }
}

/// What is added to the code of a cursor: neither a new builder nor a new block.
pub open spec fn continues(c: Cursor, c1: Cursor) -> bool {
    &&& c.code.is_prefix_of(c1.code)
    &&& forall|i: int|
        c.code.len() <= i < c1.code.len() ==> !(#[trigger] c1.code[i] is Begin) && !(
        c1.code[i] is CreateBlock)
}

/// Whether the manager knows all blocks that were created.
pub open spec fn tracks_all(c: Cursor) -> bool {
    forall|b: Block| #[trigger] ir::created(c.code, b) ==> c.manager.stack.contains(b)
}

proof fn lemma_same_count(h: Seq<Request>, h1: Seq<Request>)
    requires
        h.is_prefix_of(h1),
        forall|i: int| h.len() <= i < h1.len() ==> !(#[trigger] h1[i] is CreateBlock),
    ensures
        ir::block_count(h1) == ir::block_count(h),
    decreases h1.len(),
{
    if h1.len() == h.len() {
        assert(h1 =~= h);
    } else {
        let h2 = h1.drop_last();
        assert(h =~= h2.subrange(0, h.len() as int));
        assert(h1[h1.len() - 1] == h1.last());
        lemma_same_count(h, h2);
    }
}

/// A manager that knows all blocks goes on to do so, as long as it forgets none.
proof fn lemma_tracks_all(c: Cursor, c1: Cursor)
    requires
        tracks_all(c),
        continues(c, c1),
        forall|b: Block| #[trigger]
            c.manager.stack.contains(b) ==> c1.manager.stack.contains(b),
    ensures
        tracks_all(c1),
{
    lemma_same_count(c.code, c1.code);
    assert forall|b: Block| #[trigger] ir::created(c1.code, b) implies c1.manager.stack.contains(
        b,
    ) by {
        assert(ir::created(c.code, b));
    }
}

/// A block that is created is known to the manager, and is not sealed by that.
pub proof fn law_create(c: Cursor)
    requires
        is_honest(c),
    ensures
        c.create() matches Some(c1) ==> {
            &&& is_honest(c1)
            &&& tracks_all(c) ==> tracks_all(c1)
            &&& c1.manager.stack == c.manager.stack.push(ir::next_block(c.code))
            &&& c1.manager.sealed == c.manager.sealed
            &&& c1.manager.current == c.manager.current
            &&& ir::created(c1.code, ir::next_block(c.code))
            &&& !ir::created(c.code, ir::next_block(c.code))
        },
{
    match c.create() {
        Some(c1) => {
            ir::lemma_push(c.code, Request::CreateBlock);
            ir::lemma_fits_less(c1.code, 0, 0);
            let new = ir::next_block(c.code);
            if tracks_all(c) {
                assert forall|b: Block| #[trigger]
                    ir::created(c1.code, b) implies c1.manager.stack.contains(b) by {
                    if b == new {
                        assert(c1.manager.stack.last() == new);
                    } else {
                        assert(ir::created(c.code, b));
                        let i = choose|i: int|
                            0 <= i < c.manager.stack.len() && c.manager.stack[i] == b;
                        assert(c1.manager.stack[i] == b);
                    }
                }
            }
        },
        None => {},
    }
}

proof fn lemma_zeroes(h: Seq<Request>, done: Seq<ir::Origin>, types: Seq<ir::Type>)
    ensures
        blocks::zeroes(
            h,
            done,
            types,
        ) matches Some((h1, _)) ==> {
            &&& h.is_prefix_of(h1)
            &&& forall|i: int|
                h.len() <= i < h1.len() ==> !(#[trigger] h1[i] is Begin) && !(h1[i] is CreateBlock)
            &&& ir::position(h1) == ir::position(h)
            &&& forall|b: Block| #[trigger] ir::sealed(h1, b) == ir::sealed(h, b)
            &&& forall|b: Block| #[trigger]
                ir::inserted(h1, b) ==> ir::inserted(h, b) || ir::position(h) == Some(b)
        },
    decreases types.len(),
{
    if types.len() != 0 {
        if ir::position(h) is Some {
            let inst = match types[0] {
                ir::Type::Int(ty) => Inst::Iconst { ty, imm: 0 },
                _ => Inst::FloatZero,
            };
            ir::lemma_push(h, Request::Emit { block: ir::position(h)->0, inst });
        }
        let next = match types[0] {
            ir::Type::Int(ty) => ir::emit(h, Inst::Iconst { ty, imm: 0 }),
            ir::Type::Float { .. } => ir::emit(h, Inst::FloatZero),
            ir::Type::Other => None,
        };
        if next is Some {
            lemma_zeroes(next->0, done.push(next->0), types.skip(1));
        }
    }
}

/// Leaving the block that instructions are added to makes it end, unless it does
/// already, and leaving a block seals it, unless it is already.
pub proof fn law_jump_to(c: Cursor, target: Block)
    requires
        is_honest(c),
    ensures
        c.jump_to(target) matches Some(c1) ==> {
            &&& continues(c, c1)
            &&& is_honest(c1)
            &&& c1.manager.current is None
            &&& c1.manager.stack == c.manager.stack
            &&& c.manager.sealed.subset_of(c1.manager.sealed)
            &&& tracks_all(c) ==> tracks_all(c1)
            &&& c.manager.current matches Some(b) ==> c1.manager.sealed.contains(b.0)
                && ir::sealed(c1.code, b)
            &&& c.manager.current matches Some(b) ==> (ir::position(c.code) == Some(b)
                ==> ir::terminated(c1.code, b))
        },
{
    match c.jump_to(target) {
        Some(c1) => {
            let types = blocks::types_of(c.code, target);
            lemma_zeroes(c.code, Seq::empty(), types);
            assert(continues(c, c1));
            if tracks_all(c) {
                lemma_tracks_all(c, c1);
            }
            if c.manager.current is Some {
                let b = c.manager.current->0;
                let left = if ir::terminated(c.code, b) {
                    c.code
                } else {
                    let (h, args) = blocks::zeroes(c.code, Seq::empty(), types)->0;
                    let inst = Inst::Jump { target, args };
                    ir::lemma_push(h, Request::Emit { block: ir::position(h)->0, inst });
                    blocks::jump_with_zeroes(c.code, target)->0
                };
                ir::lemma_push(left, Request::Seal { block: b });
            }
            assert forall|n: u32| #[trigger] c1.manager.sealed.contains(n) implies ir::sealed(
                c1.code,
                Block(n),
            ) by {
                if c.manager.sealed.contains(n) {
                    lemma_stays_sealed(c.code, c1.code, Block(n));
                } else {
                    assert(Block(n) == c.manager.current->0);
                }
            }
        },
        None => {},
    }
}

/// Going to another block makes the open one end, unless it does already, and
/// seals it, unless it is already.
pub proof fn law_switch_to(c: Cursor, block: Block)
    requires
        is_honest(c),
    ensures
        c.switch_to(block) matches Some(c1) ==> {
            &&& continues(c, c1)
            &&& is_honest(c1)
            &&& c1.manager.current == Some(block)
            &&& c1.manager.stack.contains(block)
            &&& c.manager.sealed.subset_of(c1.manager.sealed)
            &&& tracks_all(c) ==> tracks_all(c1)
            &&& ir::position(c1.code) == Some(block)
            &&& c.manager.current matches Some(b) ==> ir::sealed(c1.code, b)
            &&& c.manager.current matches Some(b) ==> (ir::position(c.code) == Some(b)
                ==> ir::terminated(c1.code, b))
        },
{
    law_jump_to(c, block);
    match c.jump_to(block) {
        Some(c1) => {
            ir::lemma_push(c1.code, Request::Switch { block });
            match c.switch_to(block) {
                Some(c2) => {
                    assert(c2.code == c1.code.push(Request::Switch { block }));
                    if !c1.manager.stack.contains(block) {
                        assert(c2.manager.stack.last() == block);
                        assert forall|b: Block| #[trigger]
                            c1.manager.stack.contains(b) implies c2.manager.stack.contains(b) by {
                            let i = choose|i: int|
                                0 <= i < c1.manager.stack.len() && c1.manager.stack[i] == b;
                            assert(c2.manager.stack[i] == b);
                        }
                    }
                    if tracks_all(c) {
                        lemma_tracks_all(c, c2);
                    }
                },
                None => {},
            }
        },
        None => {},
    }
}

/// After a block was sealed it is sealed, once; sealing it again does nothing.
pub proof fn law_seal(c: Cursor, block: Block)
    requires
        is_honest(c),
    ensures
        c.seal(block) matches Some(c1) ==> {
            &&& continues(c, c1)
            &&& is_honest(c1)
            &&& c1.manager.sealed == c.manager.sealed.insert(block.0)
            &&& c1.manager.stack == c.manager.stack
            &&& tracks_all(c) ==> tracks_all(c1)
            &&& ir::sealed(c1.code, block)
            &&& c1.manager.current != Some(block) || c.manager.sealed.contains(block.0)
            &&& c1.seal(block) == Some(c1)
        },
{
    match c.seal(block) {
        Some(c1) => {
            if !c.manager.sealed.contains(block.0) {
                let ended = if c.manager.current == Some(block) && !ir::terminated(c.code, block) {
                    blocks::return_zero(c.code, c.manager.int)
                } else {
                    Some(c.code)
                };
                ir::lemma_push(ended->0, Request::Seal { block });
                assert(continues(c, c1));
                if tracks_all(c) {
                    lemma_tracks_all(c, c1);
                }
                assert forall|n: u32| #[trigger] c1.manager.sealed.contains(n) implies ir::sealed(
                    c1.code,
                    Block(n),
                ) by {
                    if n != block.0 {
                        lemma_stays_sealed(c.code, c1.code, Block(n));
                    }
                }
            } else {
                assert(c1.manager.sealed =~= c.manager.sealed.insert(block.0));
                assert(Block(block.0) == block);
            }
        },
        None => {},
    }
}

proof fn lemma_sealed_too(c: Cursor, c1: Cursor, c2: Cursor, stack: Seq<Block>)
    requires
        stack.len() != 0,
        continues(c, c1),
        continues(c1, c2),
        ir::sealed(c1.code, stack[0]),
        forall|i: int|
            0 <= i < stack.skip(1).len() ==> ir::sealed(c2.code, #[trigger] stack.skip(1)[i]),
    ensures
        continues(c, c2),
        forall|i: int| 0 <= i < stack.len() ==> ir::sealed(c2.code, #[trigger] stack[i]),
{
    lemma_stays_sealed(c1.code, c2.code, stack[0]);
    assert(c.code =~= c2.code.subrange(0, c.code.len() as int)) by {
        assert(c.code =~= c1.code.subrange(0, c.code.len() as int));
        assert forall|i: int| 0 <= i < c.code.len() implies c.code[i] == c2.code[i] by {
            assert(c.code[i] == c1.code.subrange(0, c.code.len() as int)[i]);
            assert(c1.code[i] == c2.code.subrange(0, c1.code.len() as int)[i]);
        }
    }
    assert forall|i: int| c.code.len() <= i < c2.code.len() implies !(
    #[trigger] c2.code[i] is Begin) && !(c2.code[i] is CreateBlock) by {
        if i < c1.code.len() {
            assert(c1.code[i] == c2.code.subrange(0, c1.code.len() as int)[i]);
        }
    }
    assert forall|i: int| 0 <= i < stack.len() implies ir::sealed(
        c2.code,
        #[trigger] stack[i],
    ) by {
        if i != 0 {
            assert(stack.skip(1)[i - 1] == stack[i]);
        }
    }
}

proof fn lemma_seal_all(c: Cursor, stack: Seq<Block>)
    requires
        is_honest(c),
    ensures
        c.seal_all(stack) matches Some(c1) ==> {
            &&& continues(c, c1)
            &&& is_honest(c1)
            &&& forall|i: int| 0 <= i < stack.len() ==> ir::sealed(c1.code, #[trigger] stack[i])
        },
    decreases stack.len(),
{
    if stack.len() != 0 {
        law_seal(c, stack[0]);
        match c.seal(stack[0]) {
            Some(c1) => {
                lemma_seal_all(c1, stack.skip(1));
                match c1.seal_all(stack.skip(1)) {
                    Some(c2) => {
                        lemma_sealed_too(c, c1, c2, stack);
                    },
                    None => {},
                }
            },
            None => {},
        }
    }
}

proof fn lemma_same_int(c: Cursor, stack: Seq<Block>)
    ensures
        c.seal_all(stack) matches Some(c1) ==> c1.manager.int == c.manager.int,
    decreases stack.len(),
{
    if stack.len() != 0 {
        match c.seal(stack[0]) {
            Some(c1) => {
                lemma_same_int(c1, stack.skip(1));
            },
            None => {},
        }
    }
}

/// After finalization every block that the manager knew is sealed, what was
/// sealed before still is, and the manager is like a new one, so that to finalize
/// again changes nothing. If it knew all blocks that were created, all are sealed.
pub proof fn law_finalize(c: Cursor)
    requires
        is_honest(c),
    ensures
        c.finalize() matches Some(c1) ==> {
            &&& continues(c, c1)
            &&& is_honest(c1)
            &&& forall|i: int|
                0 <= i < c.manager.stack.len() ==> ir::sealed(
                    c1.code,
                    #[trigger] c.manager.stack[i],
                )
            &&& tracks_all(c) ==> forall|b: Block| #[trigger]
                ir::created(c1.code, b) ==> ir::sealed(c1.code, b)
            &&& forall|n: u32| #[trigger]
                c.manager.sealed.contains(n) ==> ir::sealed(c1.code, Block(n))
            &&& c1.manager == ManagerState::fresh(c.manager.int)
            &&& c1.finalize() == Some(c1)
        },
{
    lemma_seal_all(c, c.manager.stack);
    lemma_same_int(c, c.manager.stack);
    match c.finalize() {
        Some(c1) => {
            lemma_same_count(c.code, c1.code);
            if tracks_all(c) {
                assert forall|b: Block| #[trigger] ir::created(c1.code, b) implies ir::sealed(
                    c1.code,
                    b,
                ) by {
                    assert(ir::created(c.code, b));
                    let i = choose|i: int|
                        0 <= i < c.manager.stack.len() && c.manager.stack[i] == b;
                    assert(ir::sealed(c1.code, c.manager.stack[i]));
                }
            }
            assert forall|n: u32| #[trigger] c.manager.sealed.contains(n) implies ir::sealed(
                c1.code,
                Block(n),
            ) by {
                lemma_stays_sealed(c.code, c1.code, Block(n));
            }
        },
        None => {},
    }
}

/// A call of a block manager.
pub enum Call {
    Create,
    Switch(Block),
    Jump(Block),
    Seal(Block),
    Finalize,
}

/// What a call leads to.
pub open spec fn step(c: Cursor, call: Call) -> Option<Cursor> {
    match call {
        Call::Create => c.create(),
        Call::Switch(block) => c.switch_to(block),
        Call::Jump(target) => c.jump_to(target),
        Call::Seal(block) => c.seal(block),
        Call::Finalize => c.finalize(),
    }
}

/// What calls lead to, one after the other.
pub open spec fn steps(c: Cursor, calls: Seq<Call>) -> Option<Cursor>
    decreases calls.len(),
{
    if calls.len() == 0 {
        Some(c)
    } else {
        match steps(c, calls.drop_last()) {
            Some(c1) => step(c1, calls.last()),
            None => None,
        }
    }
}

/// Whether the call at `j` leaves `block` open: it is no switch, jump or
/// finalization, and not the one that seals `block`.
pub open spec fn leaves_open(c: Cursor, calls: Seq<Call>, j: int, block: Block) -> bool {
    match calls[j] {
        Call::Create => true,
        Call::Seal(b) => b != block || (steps(
            c,
            calls.take(j),
        )->0).manager.sealed.contains(b.0),
        _ => false,
    }
}

/// Whether the call at `i` switches to `block`, and all later calls leave it open.
pub open spec fn opens(c: Cursor, calls: Seq<Call>, i: int, block: Block) -> bool {
    &&& 0 <= i < calls.len()
    &&& calls[i] == Call::Switch(block)
    &&& forall|j: int| i < j < calls.len() ==> #[trigger] leaves_open(c, calls, j, block)
}

/// After any calls of a new manager, a block is open if and only if it is the one
/// that was switched to last, and since then there was no jump, no finalization
/// and no call that sealed it.
pub proof fn law_open_block(c: Cursor, calls: Seq<Call>, block: Block)
    requires
        c.manager == ManagerState::fresh(c.manager.int),
        steps(c, calls) is Some,
    ensures
        (steps(c, calls)->0).manager.current == Some(block) <==> exists|i: int|
            opens(c, calls, i, block),
    decreases calls.len(),
{
    if calls.len() != 0 {
        let less = calls.drop_last();
        let last = calls.len() - 1;
        let c1 = steps(c, less)->0;
        law_open_block(c, less, block);
        assert(calls.take(last) =~= less);
        assert forall|j: int| 0 <= j < last implies #[trigger] leaves_open(c, calls, j, block)
            == leaves_open(c, less, j, block) by {
            assert(calls.take(j) =~= less.take(j));
        }
        if (steps(c, calls)->0).manager.current == Some(block) {
            if calls[last] == Call::Switch(block) {
                assert(opens(c, calls, last, block));
            } else {
                let i = choose|i: int| opens(c, less, i, block);
                assert(leaves_open(c, calls, last, block));
                assert forall|j: int| i < j < calls.len() implies #[trigger] leaves_open(
                    c,
                    calls,
                    j,
                    block,
                ) by {
                    if j < last {
                        assert(leaves_open(c, less, j, block));
                    }
                }
                assert(opens(c, calls, i, block));
            }
        }
        if exists|i: int| opens(c, calls, i, block) {
            let i = choose|i: int| opens(c, calls, i, block);
            if i < last {
                assert(leaves_open(c, calls, last, block));
                assert forall|j: int| i < j < less.len() implies #[trigger] leaves_open(
                    c,
                    less,
                    j,
                    block,
                ) by {
                    assert(leaves_open(c, calls, j, block));
                }
                assert(opens(c, less, i, block));
            }
        }
    }
}

/// Parameters change nothing about where instructions go.
proof fn lemma_params(h: Seq<Request>, r: Request, n: nat)
    requires
        r is AppendParam,
    ensures
        ({
            let h1 = h + Seq::new(n, |i: int| r);
            &&& ir::position(h1) == ir::position(h)
            &&& ir::block_count(h1) == ir::block_count(h)
            &&& forall|b: Block| #[trigger] ir::sealed(h1, b) == ir::sealed(h, b)
            &&& forall|b: Block| #[trigger] ir::inserted(h1, b) == ir::inserted(h, b)
        }),
    decreases n,
{
    if n == 0 {
        assert(h + Seq::new(n, |i: int| r) =~= h);
    } else {
        let h1 = h + Seq::new((n - 1) as nat, |i: int| r);
        lemma_params(h, r, (n - 1) as nat);
        ir::lemma_push(h1, r);
        assert(h1.push(r) =~= h + Seq::new(n, |i: int| r));
    }
}

/// Going to a block to which nothing was added yet, and which is not sealed,
/// leaves it so.
proof fn lemma_goes_to(c: Cursor, block: Block)
    requires
        !ir::inserted(c.code, block),
        !ir::sealed(c.code, block),
        ir::position(c.code) != Some(block),
        c.manager.current != Some(block),
    ensures
        c.switch_to(block) matches Some(c1) ==> {
            &&& c1.manager.current == Some(block)
            &&& ir::position(c1.code) == Some(block)
            &&& !ir::inserted(c1.code, block)
            &&& !ir::sealed(c1.code, block)
            &&& ir::block_count(c1.code) == ir::block_count(c.code)
        },
{
    match c.jump_to(block) {
        Some(c1) => {
            let types = blocks::types_of(c.code, block);
            lemma_zeroes(c.code, Seq::empty(), types);
            if c.manager.current is Some {
                let b = c.manager.current->0;
                let left = if ir::terminated(c.code, b) {
                    c.code
                } else {
                    let (h, args) = blocks::zeroes(c.code, Seq::empty(), types)->0;
                    let inst = Inst::Jump { target: block, args };
                    ir::lemma_push(h, Request::Emit { block: ir::position(h)->0, inst });
                    blocks::jump_with_zeroes(c.code, block)->0
                };
                ir::lemma_push(left, Request::Seal { block: b });
            }
            assert(continues(c, c1));
            lemma_same_count(c.code, c1.code);
            ir::lemma_push(c1.code, Request::Switch { block });
        },
        None => {},
    }
}

/// The next statement goes to an open block to which nothing was added yet and
/// which can be reached. A block is created for it only if there is none such;
/// doing so again changes nothing.
pub proof fn law_fresh_block(l: Lowering)
    requires
        growth::is_sound(l),
    ensures
        lowering::fresh_block(l) matches Some(l1) ==> {
            let is_there = l.manager.current matches Some(b) && !ir::inserted(l.code, b)
                && !ir::unreachable(l.code);
            &&& growth::is_sound(l1)
            &&& l1.manager.current matches Some(b)
            &&& !ir::inserted(l1.code, b)
            &&& ir::position(l1.code) is Some
            &&& !ir::unreachable(l1.code)
            &&& is_there ==> l1 == l
            &&& !is_there ==> ir::block_count(l1.code) == ir::block_count(l.code) + 1 && b
                == ir::next_block(l.code)
            &&& lowering::fresh_block(l1) == Some(l1)
        },
{
    growth::lemma_fresh_block(l);
    reveal(lowering::fresh_block);
    reveal(ir::is_orderly);
    let block = ir::next_block(l.code);
    let s = lowering::create_known(Some(l));
    match lowering::append_function_params(s, block) {
        Some(l2) => {
            let h1 = (s->0).code;
            let signature = ir::signature(h1);
            let r = Request::AppendParam { block, ty: ir::Type::Int(signature.int) };
            let n = signature.params as nat;
            ir::lemma_push(l.code, Request::CreateBlock);
            ir::lemma_fits_less(h1, 0, 0);
            lemma_params(h1, r, n);
            assert(Seq::new(n, |i: int| r) =~= Seq::new(
                n,
                |i: int| Request::AppendParam { block, ty: ir::Type::Int(signature.int) },
            ));
            assert(!ir::created(l.code, block));
            lemma_goes_to(l2.cursor(), block);
            match lowering::fresh_block(l) {
                Some(l1) => {
                    ir::lemma_created(l.code, l1.code);
                },
                None => {},
            }
        },
        None => {},
    }
}

// ---------------------------------------------------------------------------
// Returns

/// Nothing is lowered after a return: the statements that follow it in a block
/// make no difference.
pub proof fn law_nothing_after_return(l: Lowering, exprs: Vec<Expression>, rest: Seq<Statement>)
    requires
        lowering::statement(l, Statement::Return(exprs)) is Some,
    ensures
        lowering::statement(l, Statement::Return(exprs))->0.terminated,
        lowering::block(l, seq![Statement::Return(exprs)] + rest) == lowering::block(
            l,
            seq![Statement::Return(exprs)],
        ),
{
    let stmt = Statement::Return(exprs);
    let one = seq![stmt];
    let all = one + rest;
    reveal(lowering::give_back);
    assert(all[0] == stmt);
    assert(all.skip(1) =~= rest);
    assert(one.skip(1) =~= Seq::empty());
    let l1 = lowering::statement(l, stmt)->0;
    assert(l1.terminated);
    assert(lowering::block(l1, rest) == Some(l1));
    assert(lowering::block(l1, Seq::empty()) == Some(l1));
}

// ---------------------------------------------------------------------------
// Globals

/// A global name stands for one data object, whose contents are those that it
/// was given first.
pub proof fn law_globals_are_kept(
    l: Lowering,
    name: Seq<char>,
    first: Option<Seq<u8>>,
    l2: Lowering,
    second: Option<Seq<u8>>,
)
    requires
        lowering::declare_global(l, name, first) is Some,
        growth::feeds((lowering::declare_global(l, name, first)->0).0, l2),
        ({
            let (l1, id) = lowering::declare_global(l, name, first)->0;
            id.0 < l1.module.data.len()
        }),
    ensures
        ({
            let (l1, id) = lowering::declare_global(l, name, first)->0;
            &&& lowering::declare_global(l2, name, second) == Some((l2, id))
            &&& l1.module.data[id.0 as int].contents is Some
                ==> l2.module.data[id.0 as int].contents == l1.module.data[id.0 as int].contents
            &&& !l.globals.contains_key(name) ==> l2.module.data[id.0 as int].contents == Some(
                lowering::initial(first),
            )
        }),
{
    let (l1, id) = lowering::declare_global(l, name, first)->0;
    assert(l1.globals.dom().contains(name));
    assert(l2.globals.dom().contains(name));
    reveal(ModuleState::grows_to);
    assert(l1.module.data[id.0 as int].becomes(l2.module.data[id.0 as int]));
}

/// A number has a last digit, and a rest.
proof fn lemma_decimal(n: nat)
    ensures
        lowering::decimal(n).len() != 0,
        lowering::decimal(n).last() == ((48 + n % 10) as u8) as char,
        n >= 10 ==> lowering::decimal(n).drop_last() == lowering::decimal(n / 10),
        lowering::decimal(n).len() == 1 <==> n < 10,
    decreases n,
{
    if n >= 10 {
        lemma_decimal(n / 10);
        assert(lowering::decimal(n).drop_last() =~= lowering::decimal(n / 10));
    }
}

proof fn lemma_decimal_differs(m: nat, n: nat)
    requires
        lowering::decimal(m) == lowering::decimal(n),
    ensures
        m == n,
    decreases m,
{
    lemma_decimal(m);
    lemma_decimal(n);
    let x = (48 + m % 10) as u8;
    let y = (48 + n % 10) as u8;
    assert(x as char == y as char);
    assert(x == y);
    if m >= 10 {
        lemma_decimal_differs(m / 10, n / 10);
    }
}

/// The names that are made up for data objects differ from each other.
pub proof fn law_made_up_names_differ(prefix: Seq<char>, m: nat, n: nat)
    requires
        m != n,
    ensures
        prefix + lowering::decimal(m) != prefix + lowering::decimal(n),
{
    let a = prefix + lowering::decimal(m);
    let b = prefix + lowering::decimal(n);
    if a == b {
        assert(a.skip(prefix.len() as int) =~= lowering::decimal(m));
        assert(b.skip(prefix.len() as int) =~= lowering::decimal(n));
        lemma_decimal_differs(m, n);
    }
}

/// Global names stand for data objects of the module, different names for
/// different ones.
pub proof fn law_globals_differ(s: JITState, a: Seq<char>, b: Seq<char>)
    requires
        s.is_ready(),
        s.globals.contains_key(a),
        s.globals.contains_key(b),
        a != b,
    ensures
        s.globals[a].0 < s.module.data.len(),
        s.globals[b].0 < s.module.data.len(),
        s.globals[a] != s.globals[b],
{
    reveal(ModuleState::backs);
    assert(s.module.knows(a));
    assert(s.module.knows(b));
}

/// What a string literal adds: a data object with exactly its bytes, and a
/// pointer to that.
pub open spec fn holds_string(l: Lowering, l1: Lowering, v: ir::Origin, bytes: Seq<u8>) -> bool {
    let name = "str_"@ + lowering::decimal(l.strings);
    let id = l1.globals[name];
    &&& l1.strings == l.strings + 1
    &&& l1.globals == l.globals.insert(name, id)
    &&& l1.module.names.contains_key(name)
    &&& l1.module.names[name] == Symbol::Data(id)
    &&& id.0 < l1.module.data.len()
    &&& l1.module.data[id.0 as int].contents == Some(bytes)
    &&& l1.code == l.code.push(Request::ImportData { data: id }).push(
        Request::Emit {
            block: ir::position(l.code)->0,
            inst: Inst::SymbolValue {
                ty: l.word,
                data: DataRef(ir::data_imports(l.code) as u32),
            },
        },
    )
    &&& v == l1.code
}

proof fn lemma_string(l: Lowering, bytes: Seq<u8>)
    requires
        !l.globals.contains_key("str_"@ + lowering::decimal(l.strings)),
    ensures
        lowering::string_pointer(l, bytes) matches Some((l1, v)) ==> holds_string(l, l1, v, bytes),
{
    reveal(lowering::string_pointer);
    reveal(lowering::global_pointer);
    match lowering::string_pointer(l, bytes) {
        Some((l1, v)) => {
            let name = "str_"@ + lowering::decimal(l.strings);
            let id = l1.globals[name];
            ir::lemma_push(l.code, Request::ImportData { data: id });
            assert(lowering::initial(Some(bytes)) == bytes);
        },
        None => {},
    }
}

/// Two string literals have two data objects, each with exactly its bytes, even
/// if they are the same.
pub proof fn law_string_literals(l: Lowering, first: Vec<u8>, second: Vec<u8>)
    requires
        l.module.is_consistent(),
        !l.globals.contains_key("str_"@ + lowering::decimal(l.strings)),
        !l.globals.contains_key("str_"@ + lowering::decimal(l.strings + 1)),
        lowering::expression(l, Expression::String(first)) is Some,
        lowering::expression(
            (lowering::expression(l, Expression::String(first))->0).0,
            Expression::String(second),
        ) is Some,
    ensures
        ({
            let (l1, v1) = lowering::expression(l, Expression::String(first))->0;
            let (l2, v2) = lowering::expression(l1, Expression::String(second))->0;
            let id1 = l2.globals["str_"@ + lowering::decimal(l.strings)];
            let id2 = l2.globals["str_"@ + lowering::decimal(l.strings + 1)];
            &&& holds_string(l, l1, v1, first@)
            &&& holds_string(l1, l2, v2, second@)
            &&& l2.strings == l.strings + 2
            &&& l2.globals == l.globals.insert(
                "str_"@ + lowering::decimal(l.strings),
                id1,
            ).insert("str_"@ + lowering::decimal(l.strings + 1), id2)
            &&& id1 != id2
            &&& l2.module.data[id1.0 as int].contents == Some(first@)
            &&& l2.module.data[id2.0 as int].contents == Some(second@)
        }),
{
    let (l1, v1) = lowering::expression(l, Expression::String(first))->0;
    let (l2, v2) = lowering::expression(l1, Expression::String(second))->0;
    let name1 = "str_"@ + lowering::decimal(l.strings);
    let name2 = "str_"@ + lowering::decimal(l.strings + 1);
    law_made_up_names_differ("str_"@, l.strings, l.strings + 1);
    lemma_string(l, first@);
    lemma_string(l1, second@);
    growth::lemma_string_pointer(l, first@);
    growth::lemma_string_pointer(l1, second@);
    growth::lemma_grows(l.module, l1.module, l2.module);
    growth::lemma_consistent(l.module, l2.module);
    let id1 = l1.globals[name1];
    assert(l2.globals[name1] == id1);
    reveal(ModuleState::grows_to);
    assert(l1.module.names.dom().contains(name1));
    assert(l2.module.names.dom().contains(name1));
    assert(l2.module.knows(name1));
    assert(l2.module.knows(name2));
    assert(l1.module.data[id1.0 as int].becomes(l2.module.data[id1.0 as int]));
}

// ---------------------------------------------------------------------------
// Programs

/// When the code of a program is handed over, every block that anything was
/// added to is sealed and ends.
pub proof fn law_program_is_complete(s: JITState, params: Seq<String>, block: Seq<Statement>)
    ensures
        s.lowered(params, block) matches Some(l) ==> ir::complete(l.code),
{
    reveal(lowering::end_program);
}

/// A function in a function is ready to be run as soon as it is in the module,
/// so its address can be taken.
pub proof fn law_functions_are_ready(l: Lowering, f: Lowering, name: Seq<char>, params: usize)
    ensures
        lowering::install(l, f, name, params) matches Some((l1, id)) ==> l1.module.is_finished(id)
            && l1.module.functions[id.0 as int].body == Some(f.code),
{
    reveal(lowering::install);
}

/// To compile a program is to compile it without parameters and to drop the
/// address: the same errors can come, and the compiler can be left the same.
pub proof fn law_compile(s: JITState, block: Seq<Statement>, after: JITState)
    ensures
        s.may_end(block, after, Ok(())) <==> exists|address: usize|
            s.may_return(Seq::empty(), block, after, Ok(address)),
        forall|text: Seq<char>|
            s.may_end(block, after, Err(text)) <==> #[trigger] s.may_return(
                Seq::empty(),
                block,
                after,
                Err(text),
            ),
{
    if s.may_end(block, after, Ok(())) {
        let outcome = choose|outcome: Outcome| #[trigger]
            s.compiles(Seq::empty(), block, after, outcome) && outcome is Finished;
        let address = outcome->Finished_0;
        assert(outcome.gives(Ok(address)));
        assert(s.may_return(Seq::empty(), block, after, Ok(address)));
    }
    if exists|address: usize| s.may_return(Seq::empty(), block, after, Ok(address)) {
        let address = choose|address: usize|
            s.may_return(Seq::empty(), block, after, Ok(address));
        let outcome = choose|outcome: Outcome| #[trigger]
            s.compiles(Seq::empty(), block, after, outcome) && outcome.gives(Ok(address));
        assert(outcome is Finished);
    }
    assert forall|text: Seq<char>|
        s.may_end(block, after, Err(text)) <==> #[trigger] s.may_return(
            Seq::empty(),
            block,
            after,
            Err(text),
        ) by {
        if s.may_end(block, after, Err(text)) {
            let outcome = choose|outcome: Outcome| #[trigger]
                s.compiles(Seq::empty(), block, after, outcome) && outcome.gives(Err(text));
            assert(s.compiles(Seq::empty(), block, after, outcome));
        }
        if s.may_return(Seq::empty(), block, after, Err(text)) {
            let outcome = choose|outcome: Outcome| #[trigger]
                s.compiles(Seq::empty(), block, after, outcome) && outcome.gives(Err(text));
            assert(s.compiles(Seq::empty(), block, after, outcome));
        }
    }
}

/// A compiler takes one program: once it has compiled one, and whatever is
/// added to its module after that, no other program finds a place.
pub proof fn law_one_program(
    s: JITState,
    params: Seq<String>,
    block: Seq<Statement>,
    s1: JITState,
    address: usize,
    later: JITState,
    params2: Seq<String>,
    block2: Seq<Statement>,
)
    requires
        s.is_ready(),
        s.accepts(params, block),
        s.compiles(params, block, s1, Outcome::Finished(address)),
        s1.module.grows_to(later.module),
        later.is_ready(),
        later.accepts(params2, block2),
    ensures
        later.place(params2, later.lowered(params2, block2)->0) is None,
{
    let l = s.lowered(params, block)->0;
    let id = s.place(params, l)->0;
    s.lemma_outcomes(params, block);
    later.lemma_outcomes(params2, block2);
    let l2 = later.lowered(params2, block2)->0;
    growth::lemma_grows(s1.module, later.module, l2.module);
    reveal(ModuleState::grows_to);
    assert(s.declared(params, l).module.names.dom().contains("main"@));
    assert(l2.module.names.dom().contains("main"@));
    assert(s1.module.functions[id.0 as int].becomes(l2.module.functions[id.0 as int]));
}

/// What is ready to be run refers to nothing that has no address.
pub proof fn law_finished_is_linked(
    s: JITState,
    params: Seq<String>,
    block: Seq<Statement>,
    s1: JITState,
    address: usize,
)
    requires
        s.is_ready(),
        s.accepts(params, block),
        s.compiles(params, block, s1, Outcome::Finished(address)),
    ensures
        s1.module.is_linked(),
        s1.module.is_finished(s.place(params, s.lowered(params, block)->0)->0),
{
    let l = s.lowered(params, block)->0;
    let id = s.place(params, l)->0;
    s.lemma_outcomes(params, block);
    let defined = s.declared(params, l).module.define_function(id, l.code);
    let m = s1.module;
    assert forall|i: int, k: int|
        #![trigger (m.functions[i].body->0)[k]]
        0 <= i < m.functions.len() && m.functions[i].body is Some && 0 <= k < (
        m.functions[i].body->0).len() implies m.resolves((m.functions[i].body->0)[k]) by {
        assert(m.functions[i].body == defined.functions[i].body);
        assert(defined.resolves((defined.functions[i].body->0)[k]));
    }
}

} // verus!
