//! The function builder of Cranelift.
//!
//! Every `external_body` function here makes one call into Cranelift. Its
//! contract says what the call adds to the history of the builder. Cranelift
//! asserts a number of things about the order of calls; the `requires` clauses
//! ask for them.
use cranelift::codegen::ir::immediates::Ieee64;
use cranelift::codegen::ir::GlobalValueData;
use cranelift::codegen::Context;
use cranelift::prelude::{AbiParam, FunctionBuilder, FunctionBuilderContext, InstBuilder, MemFlags};
use cranelift_jit::JITModule;
use cranelift_module::Module;
use vstd::prelude::*;

use crate::ir;
use crate::ir::{
    BinaryInst, Block, DataId, DataRef, FuncId, FuncRef, Inst, IntCC, IntType, LastInst, Request,
    SigRef, Signature, Type, UnaryInst, Value, Variable,
};
use crate::module::module_state;

verus! {

/// `cranelift::prelude::FunctionBuilder`, which builds one function.
#[verifier::external_type_specification]
#[verifier::external_body]
pub struct ExFunctionBuilder<'a>(FunctionBuilder<'a>);

/// `cranelift::codegen::Context`, which holds a function.
#[verifier::external_type_specification]
#[verifier::external_body]
pub struct ExContext(Context);

/// `cranelift::prelude::FunctionBuilderContext`, the working memory of a builder.
#[verifier::external_type_specification]
#[verifier::external_body]
pub struct ExFunctionBuilderContext(FunctionBuilderContext);

/// The requests from which the function that `builder` is set on was made so far.
pub uninterp spec fn history(builder: FunctionBuilder<'_>) -> Seq<Request>;

/// The requests from which that function will have been made when `builder`
/// lets go of it.
pub uninterp spec fn goal(builder: FunctionBuilder<'_>) -> Seq<Request>;

/// The requests from which the function in `ctx` was made.
pub uninterp spec fn body(ctx: Context) -> Seq<Request>;

/// What an earlier builder has left behind in its working memory.
pub uninterp spec fn remnants(scratch: FunctionBuilderContext) -> Seq<Request>;

/// Whether `after` is `before` with its history grown to `h`.
pub open spec fn grown(
    before: FunctionBuilder<'_>,
    after: FunctionBuilder<'_>,
    h: Option<Seq<Request>>,
) -> bool {
    h == Some(history(after)) && goal(after) == goal(before)
}

/// `FunctionBuilderContext::new`: nothing is left behind in a new one.
#[verifier::external_body]
pub(crate) fn new_scratch() -> (scratch: FunctionBuilderContext)
    ensures
        remnants(scratch).len() == 0,
{
    FunctionBuilderContext::new()
}

/// `FunctionBuilder::new`, on the function in `ctx`, which is first given a
/// signature of the module's calling convention. When the builder is done, the
/// function is what the builder made of it.
#[verifier::external_body]
pub(crate) fn begin<'a>(
    module: &JITModule,
    ctx: &'a mut Context,
    scratch: &'a mut FunctionBuilderContext,
    signature: Signature,
) -> (builder: FunctionBuilder<'a>)
    requires
        signature.is_known(),
        remnants(*old(scratch)).len() == 0,
    ensures
        history(builder) == body(*old(ctx)).push(Request::Begin { signature }),
        body(*final(ctx)) == goal(builder),
{
    let word = AbiParam::new(cranelift::prelude::Type::int(signature.int.bits).unwrap());
    ctx.func.signature = module.make_signature();
    ctx.func.signature.params = vec![word; signature.params];
    ctx.func.signature.returns = vec![word; signature.returns];
    FunctionBuilder::new(&mut ctx.func, scratch)
}

/// `FunctionBuilder::finalize`, after which the function is made from the
/// requests in the builder's history. They are handed back for the proofs.
#[verifier::external_body]
pub(crate) fn finalize(builder: FunctionBuilder<'_>) -> (made: Ghost<Seq<Request>>)
    requires
        ir::complete(history(builder)),
    ensures
        made@ == history(builder),
        made@ == goal(builder),
{
    let ghost requests = history(builder);
    builder.finalize();
    Ghost(requests)
}

/// `FunctionBuilder::create_block`: blocks are numbered as they are created.
#[verifier::external_body]
pub(crate) fn create_block(builder: &mut FunctionBuilder<'_>) -> (block: Block)
    requires
        ir::create_block(history(*old(builder))) is Some,
    ensures
        grown(*old(builder), *final(builder), ir::create_block(history(*old(builder)))),
        block == ir::next_block(history(*old(builder))),
        block.0 == ir::block_count(history(*old(builder))),
{
    Block(builder.create_block().as_u32())
}

/// `FunctionBuilder::append_block_param`.
#[verifier::external_body]
pub(crate) fn append_block_param(
    builder: &mut FunctionBuilder<'_>,
    block: Block,
    ty: IntType,
) -> (param: Value)
    requires
        ir::append_param(history(*old(builder)), block, ty) is Some,
    ensures
        grown(*old(builder), *final(builder), ir::append_param(history(*old(builder)), block, ty)),
        param@ == history(*final(builder)),
{
    let ty = cranelift::prelude::Type::int(ty.bits).unwrap();
    let number: u32 = builder.append_block_param(
        cranelift::prelude::Block::from_bits(block.0),
        ty,
    ).as_u32();
    let ghost made = history(*builder);
    Value::new(number, Ghost(made))
}

/// `FunctionBuilder::append_block_params_for_function_params`: one parameter
/// for each parameter of the function's signature.
#[verifier::external_body]
pub(crate) fn append_function_params(builder: &mut FunctionBuilder<'_>, block: Block)
    requires
        ir::append_function_params(history(*old(builder)), block) is Some,
    ensures
        grown(
            *old(builder),
            *final(builder),
            ir::append_function_params(history(*old(builder)), block),
        ),
{
    builder.append_block_params_for_function_params(cranelift::prelude::Block::from_bits(block.0))
}

/// `FunctionBuilder::switch_to_block`.
#[verifier::external_body]
pub(crate) fn switch_to_block(builder: &mut FunctionBuilder<'_>, block: Block)
    requires
        ir::switch_to(history(*old(builder)), block) is Some,
    ensures
        grown(*old(builder), *final(builder), ir::switch_to(history(*old(builder)), block)),
{
    builder.switch_to_block(cranelift::prelude::Block::from_bits(block.0))
}

/// `FunctionBuilder::seal_block`.
#[verifier::external_body]
pub(crate) fn seal_block(builder: &mut FunctionBuilder<'_>, block: Block)
    requires
        ir::seal(history(*old(builder)), block) is Some,
    ensures
        grown(*old(builder), *final(builder), ir::seal(history(*old(builder)), block)),
{
    builder.seal_block(cranelift::prelude::Block::from_bits(block.0))
}

/// `FunctionBuilder::is_unreachable`: whether the current block is sealed, has
/// no predecessor and is not the entry block.
#[verifier::external_body]
pub(crate) fn is_unreachable(builder: &FunctionBuilder<'_>) -> (yes: bool)
    requires
        ir::position(history(*builder)) is Some,
    ensures
        yes == ir::unreachable(history(*builder)),
{
    builder.is_unreachable()
}

/// `Layout::is_block_inserted`.
#[verifier::external_body]
pub(crate) fn is_block_inserted(builder: &FunctionBuilder<'_>, block: Block) -> (yes: bool)
    ensures
        yes == ir::inserted(history(*builder), block),
{
    builder.func.layout.is_block_inserted(cranelift::prelude::Block::from_bits(block.0))
}

/// `Layout::last_inst`. A block without instructions has none. The builder's own
/// instructions, which are constants, stand before all others.
#[verifier::external_body]
pub(crate) fn last_inst(builder: &FunctionBuilder<'_>, block: Block) -> (last: Option<LastInst>)
    ensures
        last is None ==> ir::last_inst(history(*builder), block) is None,
        last matches Some(inst) ==> inst@ == (history(*builder), block),
{
    let ghost made = (history(*builder), block);
    let last = builder.func.layout.last_inst(cranelift::prelude::Block::from_bits(block.0));
    last.map(|inst| LastInst::new(inst.as_u32(), Ghost(made)))
}

/// `InstructionData::opcode` and `Opcode::is_terminator`. A constant is no
/// terminator.
#[verifier::external_body]
pub(crate) fn is_terminator(builder: &FunctionBuilder<'_>, inst: LastInst) -> (yes: bool)
    requires
        inst@.0 == history(*builder),
    ensures
        yes == (ir::last_inst(inst@.0, inst@.1) matches Some(i) && i.is_terminator()),
{
    let inst = cranelift::codegen::ir::Inst::from_bits(inst.number);
    builder.func.dfg.insts[inst].opcode().is_terminator()
}

/// `FunctionBuilder::block_params`, one of them: those given by request come
/// first, in their order.
#[verifier::external_body]
pub(crate) fn block_param(builder: &FunctionBuilder<'_>, block: Block, i: usize) -> (param: Value)
    requires
        i < ir::params(history(*builder), block).len(),
    ensures
        param@ == ir::params(history(*builder), block)[i as int],
{
    let number: u32 = builder.block_params(
        cranelift::prelude::Block::from_bits(block.0),
    )[i].as_u32();
    let ghost made = ir::params(history(*builder), block)[i as int];
    Value::new(number, Ghost(made))
}

/// `DataFlowGraph::block_params`, their number. A block to which nothing was
/// ever added has the parameters given to it by request and no others; another
/// has at most one more for each variable.
#[verifier::external_body]
pub(crate) fn block_param_count(builder: &FunctionBuilder<'_>, block: Block) -> (n: usize)
    requires
        block.0 < ir::block_count(history(*builder)),
    ensures
        n == ir::all_param_types(history(*builder), block).len(),
        !ir::inserted(history(*builder), block) ==> n == ir::param_types(
            history(*builder),
            block,
        ).len(),
        ir::has_room(history(*builder)) ==> n <= ir::width(),
{
    builder.func.dfg.block_params(cranelift::prelude::Block::from_bits(block.0)).len()
}

/// `DataFlowGraph::block_params` and `DataFlowGraph::value_type`: the type of
/// one parameter.
#[verifier::external_body]
pub(crate) fn block_param_type(builder: &FunctionBuilder<'_>, block: Block, i: usize) -> (ty: Type)
    requires
        block.0 < ir::block_count(history(*builder)),
        i < ir::all_param_types(history(*builder), block).len(),
    ensures
        ty == ir::all_param_types(history(*builder), block)[i as int],
        !ir::inserted(history(*builder), block) ==> ty == ir::param_types(
            history(*builder),
            block,
        )[i as int],
{
    let dfg = &builder.func.dfg;
    let ty = dfg.value_type(dfg.block_params(cranelift::prelude::Block::from_bits(block.0))[i]);
    if ty.is_int() {
        Type::Int(IntType { bits: ty.bits() as u16 })
    } else if ty.is_float() {
        Type::Float { bits: ty.bits() as u16 }
    } else {
        Type::Other
    }
}

/// `FunctionBuilder::declare_var`.
#[verifier::external_body]
pub(crate) fn declare_var(builder: &mut FunctionBuilder<'_>, var: Variable, ty: IntType)
    requires
        ir::declare_var(history(*old(builder)), var, ty) is Some,
    ensures
        grown(*old(builder), *final(builder), ir::declare_var(history(*old(builder)), var, ty)),
{
    let ty = cranelift::prelude::Type::int(ty.bits).unwrap();
    builder.declare_var(cranelift::prelude::Variable::from_u32(var.0), ty)
}

/// `FunctionBuilder::def_var`.
#[verifier::external_body]
pub(crate) fn def_var(builder: &mut FunctionBuilder<'_>, var: Variable, value: Value)
    requires
        ir::def_var(history(*old(builder)), var, value@) is Some,
    ensures
        grown(*old(builder), *final(builder), ir::def_var(history(*old(builder)), var, value@)),
{
    let var = cranelift::prelude::Variable::from_bits(var.0);
    builder.def_var(var, cranelift::prelude::Value::from_bits(value.number))
}

/// `FunctionBuilder::use_var`.
#[verifier::external_body]
pub(crate) fn use_var(builder: &mut FunctionBuilder<'_>, var: Variable) -> (value: Value)
    requires
        ir::use_var(history(*old(builder)), var) is Some,
    ensures
        grown(*old(builder), *final(builder), ir::use_var(history(*old(builder)), var)),
        value@ == history(*final(builder)),
{
    let number: u32 = builder.use_var(cranelift::prelude::Variable::from_bits(var.0)).as_u32();
    let ghost made = history(*builder);
    Value::new(number, Ghost(made))
}

/// `FunctionBuilder::import_signature`, of a signature of the module's calling
/// convention. Signatures are numbered as they are imported.
#[verifier::external_body]
pub(crate) fn import_signature(
    builder: &mut FunctionBuilder<'_>,
    module: &JITModule,
    signature: Signature,
) -> (sig: SigRef)
    requires
        signature.is_known(),
        ir::import(history(*old(builder)), Request::ImportSignature { signature }) is Some,
    ensures
        grown(
            *old(builder),
            *final(builder),
            ir::import(history(*old(builder)), Request::ImportSignature { signature }),
        ),
        sig.0 == ir::signature_imports(history(*old(builder))),
{
    let word = AbiParam::new(cranelift::prelude::Type::int(signature.int.bits).unwrap());
    let mut s = module.make_signature();
    s.params = vec![word; signature.params];
    s.returns = vec![word; signature.returns];
    SigRef(builder.import_signature(s).as_u32())
}

/// `Module::declare_func_in_func`: imports a function of the module, with the
/// signature that it was declared with. It is not taken to be near. Imported
/// functions are numbered as they come.
#[verifier::external_body]
pub(crate) fn import_function(
    builder: &mut FunctionBuilder<'_>,
    module: &mut JITModule,
    func: FuncId,
) -> (callee: FuncRef)
    requires
        func.0 < module_state(*old(module)).functions.len(),
        ir::import(
            history(*old(builder)),
            module_state(*old(module)).import_of(func),
        ) is Some,
    ensures
        grown(
            *old(builder),
            *final(builder),
            ir::import(history(*old(builder)), module_state(*old(module)).import_of(func)),
        ),
        module_state(*final(module)) == module_state(*old(module)),
        callee.0 == ir::function_imports(history(*old(builder))),
{
    let id = cranelift_module::FuncId::from_bits(func.0);
    let callee = module.declare_func_in_func(id, builder.func);
    builder.func.dfg.ext_funcs[callee].colocated = false;
    FuncRef(callee.as_u32())
}

/// `Module::declare_data_in_func`: imports a data object of the module. It is
/// not taken to be near. Data objects are numbered as they come.
#[verifier::external_body]
pub(crate) fn import_data(
    builder: &mut FunctionBuilder<'_>,
    module: &JITModule,
    data: DataId,
) -> (symbol: DataRef)
    requires
        data.0 < module_state(*module).data.len(),
        ir::import(history(*old(builder)), Request::ImportData { data }) is Some,
    ensures
        grown(
            *old(builder),
            *final(builder),
            ir::import(history(*old(builder)), Request::ImportData { data }),
        ),
        symbol.0 == ir::data_imports(history(*old(builder))),
{
    let id = cranelift_module::DataId::from_bits(data.0);
    let symbol = module.declare_data_in_func(id, builder.func);
    if let GlobalValueData::Symbol { colocated, .. } = &mut builder.func.global_values[symbol] {
        *colocated = false;
    }
    DataRef(symbol.as_u32())
}

/// `InstBuilder::iconst`.
#[verifier::external_body]
pub(crate) fn iconst(builder: &mut FunctionBuilder<'_>, ty: IntType, imm: i64) -> (value: Value)
    requires
        ir::emit(history(*old(builder)), Inst::Iconst { ty, imm }) is Some,
    ensures
        grown(
            *old(builder),
            *final(builder),
            ir::emit(history(*old(builder)), Inst::Iconst { ty, imm }),
        ),
        value@ == history(*final(builder)),
{
    let ty = cranelift::prelude::Type::int(ty.bits).unwrap();
    let number: u32 = builder.ins().iconst(ty, imm).as_u32();
    let ghost made = history(*builder);
    Value::new(number, Ghost(made))
}

/// `InstBuilder::null`.
#[verifier::external_body]
pub(crate) fn null(builder: &mut FunctionBuilder<'_>, ty: IntType) -> (value: Value)
    requires
        ir::emit(history(*old(builder)), Inst::Null { ty }) is Some,
    ensures
        grown(
            *old(builder),
            *final(builder),
            ir::emit(history(*old(builder)), Inst::Null { ty }),
        ),
        value@ == history(*final(builder)),
{
    let ty = cranelift::prelude::Type::int(ty.bits).unwrap();
    let number: u32 = builder.ins().null(ty).as_u32();
    let ghost made = history(*builder);
    Value::new(number, Ghost(made))
}

/// `InstBuilder::f64const`, of zero, all of whose bits are zero.
#[verifier::external_body]
pub(crate) fn float_zero(builder: &mut FunctionBuilder<'_>) -> (value: Value)
    requires
        ir::emit(history(*old(builder)), Inst::FloatZero) is Some,
    ensures
        grown(
            *old(builder),
            *final(builder),
            ir::emit(history(*old(builder)), Inst::FloatZero),
        ),
        value@ == history(*final(builder)),
{
    let number: u32 = builder.ins().f64const(Ieee64::with_bits(0)).as_u32();
    let ghost made = history(*builder);
    Value::new(number, Ghost(made))
}

/// `JITModule::get_finalized_function` and `InstBuilder::iconst`: the address
/// of the finished code of a function, as a constant.
#[verifier::external_body]
pub(crate) fn function_address(
    builder: &mut FunctionBuilder<'_>,
    module: &JITModule,
    ty: IntType,
    func: FuncId,
) -> (value: Value)
    requires
        module_state(*module).is_finished(func),
        ir::emit(history(*old(builder)), Inst::FunctionAddress { ty, func }) is Some,
    ensures
        grown(
            *old(builder),
            *final(builder),
            ir::emit(history(*old(builder)), Inst::FunctionAddress { ty, func }),
        ),
        value@ == history(*final(builder)),
{
    let code = module.get_finalized_function(cranelift_module::FuncId::from_bits(func.0));
    let ty = cranelift::prelude::Type::int(ty.bits).unwrap();
    let number: u32 = builder.ins().iconst(ty, code as i64).as_u32();
    let ghost made = history(*builder);
    Value::new(number, Ghost(made))
}

/// `InstBuilder::ineg`.
#[verifier::external_body]
pub(crate) fn ineg(builder: &mut FunctionBuilder<'_>, arg: Value) -> (value: Value)
    requires
        ir::emit(history(*old(builder)), Inst::Unary { op: UnaryInst::Ineg, arg: arg@ }) is Some,
    ensures
        grown(
            *old(builder),
            *final(builder),
            ir::emit(history(*old(builder)), Inst::Unary { op: UnaryInst::Ineg, arg: arg@ }),
        ),
        value@ == history(*final(builder)),
{
    let number: u32 = builder.ins().ineg(cranelift::prelude::Value::from_bits(arg.number)).as_u32();
    let ghost made = history(*builder);
    Value::new(number, Ghost(made))
}

/// `InstBuilder::bnot`.
#[verifier::external_body]
pub(crate) fn bnot(builder: &mut FunctionBuilder<'_>, arg: Value) -> (value: Value)
    requires
        ir::emit(history(*old(builder)), Inst::Unary { op: UnaryInst::Bnot, arg: arg@ }) is Some,
    ensures
        grown(
            *old(builder),
            *final(builder),
            ir::emit(history(*old(builder)), Inst::Unary { op: UnaryInst::Bnot, arg: arg@ }),
        ),
        value@ == history(*final(builder)),
{
    let number: u32 = builder.ins().bnot(cranelift::prelude::Value::from_bits(arg.number)).as_u32();
    let ghost made = history(*builder);
    Value::new(number, Ghost(made))
}

/// `InstBuilder::iadd`.
#[verifier::external_body]
pub(crate) fn iadd(builder: &mut FunctionBuilder<'_>, x: Value, y: Value) -> (value: Value)
    requires
        ir::emit(
            history(*old(builder)),
            Inst::Binary { op: BinaryInst::Iadd, x: x@, y: y@ },
        ) is Some,
    ensures
        grown(
            *old(builder),
            *final(builder),
            ir::emit(history(*old(builder)), Inst::Binary { op: BinaryInst::Iadd, x: x@, y: y@ }),
        ),
        value@ == history(*final(builder)),
{
    let x = cranelift::prelude::Value::from_bits(x.number);
    let y = cranelift::prelude::Value::from_bits(y.number);
    let number: u32 = builder.ins().iadd(x, y).as_u32();
    let ghost made = history(*builder);
    Value::new(number, Ghost(made))
}

/// `InstBuilder::isub`.
#[verifier::external_body]
pub(crate) fn isub(builder: &mut FunctionBuilder<'_>, x: Value, y: Value) -> (value: Value)
    requires
        ir::emit(
            history(*old(builder)),
            Inst::Binary { op: BinaryInst::Isub, x: x@, y: y@ },
        ) is Some,
    ensures
        grown(
            *old(builder),
            *final(builder),
            ir::emit(history(*old(builder)), Inst::Binary { op: BinaryInst::Isub, x: x@, y: y@ }),
        ),
        value@ == history(*final(builder)),
{
    let x = cranelift::prelude::Value::from_bits(x.number);
    let y = cranelift::prelude::Value::from_bits(y.number);
    let number: u32 = builder.ins().isub(x, y).as_u32();
    let ghost made = history(*builder);
    Value::new(number, Ghost(made))
}

/// `InstBuilder::imul`.
#[verifier::external_body]
pub(crate) fn imul(builder: &mut FunctionBuilder<'_>, x: Value, y: Value) -> (value: Value)
    requires
        ir::emit(
            history(*old(builder)),
            Inst::Binary { op: BinaryInst::Imul, x: x@, y: y@ },
        ) is Some,
    ensures
        grown(
            *old(builder),
            *final(builder),
            ir::emit(history(*old(builder)), Inst::Binary { op: BinaryInst::Imul, x: x@, y: y@ }),
        ),
        value@ == history(*final(builder)),
{
    let x = cranelift::prelude::Value::from_bits(x.number);
    let y = cranelift::prelude::Value::from_bits(y.number);
    let number: u32 = builder.ins().imul(x, y).as_u32();
    let ghost made = history(*builder);
    Value::new(number, Ghost(made))
}

/// `InstBuilder::sdiv`.
#[verifier::external_body]
pub(crate) fn sdiv(builder: &mut FunctionBuilder<'_>, x: Value, y: Value) -> (value: Value)
    requires
        ir::emit(
            history(*old(builder)),
            Inst::Binary { op: BinaryInst::Sdiv, x: x@, y: y@ },
        ) is Some,
    ensures
        grown(
            *old(builder),
            *final(builder),
            ir::emit(history(*old(builder)), Inst::Binary { op: BinaryInst::Sdiv, x: x@, y: y@ }),
        ),
        value@ == history(*final(builder)),
{
    let x = cranelift::prelude::Value::from_bits(x.number);
    let y = cranelift::prelude::Value::from_bits(y.number);
    let number: u32 = builder.ins().sdiv(x, y).as_u32();
    let ghost made = history(*builder);
    Value::new(number, Ghost(made))
}

/// `InstBuilder::udiv`.
#[verifier::external_body]
pub(crate) fn udiv(builder: &mut FunctionBuilder<'_>, x: Value, y: Value) -> (value: Value)
    requires
        ir::emit(
            history(*old(builder)),
            Inst::Binary { op: BinaryInst::Udiv, x: x@, y: y@ },
        ) is Some,
    ensures
        grown(
            *old(builder),
            *final(builder),
            ir::emit(history(*old(builder)), Inst::Binary { op: BinaryInst::Udiv, x: x@, y: y@ }),
        ),
        value@ == history(*final(builder)),
{
    let x = cranelift::prelude::Value::from_bits(x.number);
    let y = cranelift::prelude::Value::from_bits(y.number);
    let number: u32 = builder.ins().udiv(x, y).as_u32();
    let ghost made = history(*builder);
    Value::new(number, Ghost(made))
}

/// `InstBuilder::srem`.
#[verifier::external_body]
pub(crate) fn srem(builder: &mut FunctionBuilder<'_>, x: Value, y: Value) -> (value: Value)
    requires
        ir::emit(
            history(*old(builder)),
            Inst::Binary { op: BinaryInst::Srem, x: x@, y: y@ },
        ) is Some,
    ensures
        grown(
            *old(builder),
            *final(builder),
            ir::emit(history(*old(builder)), Inst::Binary { op: BinaryInst::Srem, x: x@, y: y@ }),
        ),
        value@ == history(*final(builder)),
{
    let x = cranelift::prelude::Value::from_bits(x.number);
    let y = cranelift::prelude::Value::from_bits(y.number);
    let number: u32 = builder.ins().srem(x, y).as_u32();
    let ghost made = history(*builder);
    Value::new(number, Ghost(made))
}

/// `InstBuilder::icmp`.
#[verifier::external_body]
pub(crate) fn compare(
    builder: &mut FunctionBuilder<'_>,
    cc: IntCC,
    x: Value,
    y: Value,
) -> (value: Value)
    requires
        ir::emit(history(*old(builder)), Inst::Icmp { cc, x: x@, y: y@ }) is Some,
    ensures
        grown(
            *old(builder),
            *final(builder),
            ir::emit(history(*old(builder)), Inst::Icmp { cc, x: x@, y: y@ }),
        ),
        value@ == history(*final(builder)),
{
    let cc = match cc {
        IntCC::Equal => cranelift::prelude::IntCC::Equal,
        IntCC::NotEqual => cranelift::prelude::IntCC::NotEqual,
        IntCC::SignedLessThan => cranelift::prelude::IntCC::SignedLessThan,
        IntCC::SignedLessThanOrEqual => cranelift::prelude::IntCC::SignedLessThanOrEqual,
        IntCC::SignedGreaterThan => cranelift::prelude::IntCC::SignedGreaterThan,
        IntCC::SignedGreaterThanOrEqual => cranelift::prelude::IntCC::SignedGreaterThanOrEqual,
    };
    let x = cranelift::prelude::Value::from_bits(x.number);
    let y = cranelift::prelude::Value::from_bits(y.number);
    let number: u32 = builder.ins().icmp(cc, x, y).as_u32();
    let ghost made = history(*builder);
    Value::new(number, Ghost(made))
}

/// `InstBuilder::icmp_imm`.
#[verifier::external_body]
pub(crate) fn compare_imm(
    builder: &mut FunctionBuilder<'_>,
    cc: IntCC,
    x: Value,
    imm: i64,
) -> (value: Value)
    requires
        ir::emit(history(*old(builder)), Inst::IcmpImm { cc, x: x@, imm }) is Some,
    ensures
        grown(
            *old(builder),
            *final(builder),
            ir::emit(history(*old(builder)), Inst::IcmpImm { cc, x: x@, imm }),
        ),
        value@ == history(*final(builder)),
{
    let cc = match cc {
        IntCC::Equal => cranelift::prelude::IntCC::Equal,
        IntCC::NotEqual => cranelift::prelude::IntCC::NotEqual,
        IntCC::SignedLessThan => cranelift::prelude::IntCC::SignedLessThan,
        IntCC::SignedLessThanOrEqual => cranelift::prelude::IntCC::SignedLessThanOrEqual,
        IntCC::SignedGreaterThan => cranelift::prelude::IntCC::SignedGreaterThan,
        IntCC::SignedGreaterThanOrEqual => cranelift::prelude::IntCC::SignedGreaterThanOrEqual,
    };
    let number: u32 = builder.ins().icmp_imm(
        cc,
        cranelift::prelude::Value::from_bits(x.number),
        imm,
    ).as_u32();
    let ghost made = history(*builder);
    Value::new(number, Ghost(made))
}

/// `InstBuilder::uextend`.
#[verifier::external_body]
pub(crate) fn uextend(builder: &mut FunctionBuilder<'_>, ty: IntType, arg: Value) -> (value: Value)
    requires
        ir::emit(history(*old(builder)), Inst::Uextend { ty, arg: arg@ }) is Some,
    ensures
        grown(
            *old(builder),
            *final(builder),
            ir::emit(history(*old(builder)), Inst::Uextend { ty, arg: arg@ }),
        ),
        value@ == history(*final(builder)),
{
    let ty = cranelift::prelude::Type::int(ty.bits).unwrap();
    let number: u32 = builder.ins().uextend(
        ty,
        cranelift::prelude::Value::from_bits(arg.number),
    ).as_u32();
    let ghost made = history(*builder);
    Value::new(number, Ghost(made))
}

/// `InstBuilder::symbol_value`.
#[verifier::external_body]
pub(crate) fn symbol_value(
    builder: &mut FunctionBuilder<'_>,
    ty: IntType,
    data: DataRef,
) -> (value: Value)
    requires
        ir::emit(history(*old(builder)), Inst::SymbolValue { ty, data }) is Some,
    ensures
        grown(
            *old(builder),
            *final(builder),
            ir::emit(history(*old(builder)), Inst::SymbolValue { ty, data }),
        ),
        value@ == history(*final(builder)),
{
    let ty = cranelift::prelude::Type::int(ty.bits).unwrap();
    let data = cranelift::codegen::ir::GlobalValue::from_bits(data.0);
    let number: u32 = builder.ins().symbol_value(ty, data).as_u32();
    let ghost made = history(*builder);
    Value::new(number, Ghost(made))
}

/// `InstBuilder::load`, with `MemFlags::trusted`.
#[verifier::external_body]
pub(crate) fn load(
    builder: &mut FunctionBuilder<'_>,
    ty: IntType,
    ptr: Value,
    offset: i32,
) -> (value: Value)
    requires
        ir::emit(history(*old(builder)), Inst::Load { ty, ptr: ptr@, offset }) is Some,
    ensures
        grown(
            *old(builder),
            *final(builder),
            ir::emit(history(*old(builder)), Inst::Load { ty, ptr: ptr@, offset }),
        ),
        value@ == history(*final(builder)),
{
    let ty = cranelift::prelude::Type::int(ty.bits).unwrap();
    let ptr = cranelift::prelude::Value::from_bits(ptr.number);
    let number: u32 = builder.ins().load(ty, MemFlags::trusted(), ptr, offset).as_u32();
    let ghost made = history(*builder);
    Value::new(number, Ghost(made))
}

/// `InstBuilder::store`, with `MemFlags::trusted`.
#[verifier::external_body]
pub(crate) fn store(builder: &mut FunctionBuilder<'_>, value: Value, ptr: Value, offset: i32)
    requires
        ir::emit(history(*old(builder)), Inst::Store { value: value@, ptr: ptr@, offset }) is Some,
    ensures
        grown(
            *old(builder),
            *final(builder),
            ir::emit(history(*old(builder)), Inst::Store { value: value@, ptr: ptr@, offset }),
        ),
{
    let value = cranelift::prelude::Value::from_bits(value.number);
    let ptr = cranelift::prelude::Value::from_bits(ptr.number);
    builder.ins().store(MemFlags::trusted(), value, ptr, offset);
}

/// `InstBuilder::call` and `FunctionBuilder::inst_results`: a call, and its
/// first result.
#[verifier::external_body]
pub(crate) fn call(
    builder: &mut FunctionBuilder<'_>,
    callee: FuncRef,
    args: &Vec<Value>,
) -> (value: Value)
    requires
        ir::emit(history(*old(builder)), Inst::Call { callee, args: ir::origins(args@) }) is Some,
    ensures
        grown(
            *old(builder),
            *final(builder),
            ir::emit(history(*old(builder)), Inst::Call { callee, args: ir::origins(args@) }),
        ),
        value@ == history(*final(builder)),
{
    let args: Vec<_> = args.iter().map(
        |v| cranelift::prelude::Value::from_bits(v.number),
    ).collect();
    let callee = cranelift::codegen::ir::FuncRef::from_bits(callee.0);
    let inst = builder.ins().call(callee, &args);
    let number: u32 = builder.inst_results(inst)[0].as_u32();
    let ghost made = history(*builder);
    Value::new(number, Ghost(made))
}

/// `InstBuilder::call_indirect` and `FunctionBuilder::inst_results`: a call,
/// and its first result.
#[verifier::external_body]
pub(crate) fn call_indirect(
    builder: &mut FunctionBuilder<'_>,
    signature: SigRef,
    callee: Value,
    args: &Vec<Value>,
) -> (value: Value)
    requires
        ir::emit(
            history(*old(builder)),
            Inst::CallIndirect { signature, callee: callee@, args: ir::origins(args@) },
        ) is Some,
    ensures
        grown(
            *old(builder),
            *final(builder),
            ir::emit(
                history(*old(builder)),
                Inst::CallIndirect { signature, callee: callee@, args: ir::origins(args@) },
            ),
        ),
        value@ == history(*final(builder)),
{
    let args: Vec<_> = args.iter().map(
        |v| cranelift::prelude::Value::from_bits(v.number),
    ).collect();
    let signature = cranelift::codegen::ir::SigRef::from_bits(signature.0);
    let callee = cranelift::prelude::Value::from_bits(callee.number);
    let inst = builder.ins().call_indirect(signature, callee, &args);
    let number: u32 = builder.inst_results(inst)[0].as_u32();
    let ghost made = history(*builder);
    Value::new(number, Ghost(made))
}

/// `InstBuilder::jump`.
#[verifier::external_body]
pub(crate) fn jump(builder: &mut FunctionBuilder<'_>, target: Block, args: &Vec<Value>)
    requires
        ir::emit(history(*old(builder)), Inst::Jump { target, args: ir::origins(args@) }) is Some,
    ensures
        grown(
            *old(builder),
            *final(builder),
            ir::emit(history(*old(builder)), Inst::Jump { target, args: ir::origins(args@) }),
        ),
{
    let args: Vec<_> = args.iter().map(
        |v| cranelift::prelude::Value::from_bits(v.number),
    ).collect();
    builder.ins().jump(cranelift::prelude::Block::from_bits(target.0), &args);
}

/// `InstBuilder::brif`.
#[verifier::external_body]
pub(crate) fn brif(
    builder: &mut FunctionBuilder<'_>,
    cond: Value,
    then_block: Block,
    then_args: &Vec<Value>,
    else_block: Block,
    else_args: &Vec<Value>,
)
    requires
        ir::emit(
            history(*old(builder)),
            Inst::Brif {
                cond: cond@,
                then_block,
                then_args: ir::origins(then_args@),
                else_block,
                else_args: ir::origins(else_args@),
            },
        ) is Some,
    ensures
        grown(
            *old(builder),
            *final(builder),
            ir::emit(
                history(*old(builder)),
                Inst::Brif {
                    cond: cond@,
                    then_block,
                    then_args: ir::origins(then_args@),
                    else_block,
                    else_args: ir::origins(else_args@),
                },
            ),
        ),
{
    let then_args: Vec<_> = then_args.iter().map(
        |v| cranelift::prelude::Value::from_bits(v.number),
    ).collect();
    let else_args: Vec<_> = else_args.iter().map(
        |v| cranelift::prelude::Value::from_bits(v.number),
    ).collect();
    let cond = cranelift::prelude::Value::from_bits(cond.number);
    let to = cranelift::prelude::Block::from_bits(then_block.0);
    let other = cranelift::prelude::Block::from_bits(else_block.0);
    builder.ins().brif(cond, to, &then_args, other, &else_args);
}

/// `InstBuilder::return_`.
#[verifier::external_body]
pub(crate) fn return_(builder: &mut FunctionBuilder<'_>, args: &Vec<Value>)
    requires
        ir::emit(history(*old(builder)), Inst::Return { args: ir::origins(args@) }) is Some,
    ensures
        grown(
            *old(builder),
            *final(builder),
            ir::emit(history(*old(builder)), Inst::Return { args: ir::origins(args@) }),
        ),
{
    let args: Vec<_> = args.iter().map(
        |v| cranelift::prelude::Value::from_bits(v.number),
    ).collect();
    builder.ins().return_(&args);
}

} // verus!
