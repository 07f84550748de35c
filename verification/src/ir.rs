//! What is asked of a function builder, and what follows from having asked it.
//!
//! A function under construction is described by the sequence of requests made
//! to its builder. Everything else that matters about it (where instructions
//! go, which blocks are sealed, which values exist) is read off that sequence.
use vstd::prelude::*;

verus! {

/// A basic block of a function, by its number.
#[derive(Clone, Copy, PartialEq, Eq, Structural, Debug)]
pub struct Block(pub u32);

/// A value of a function. It is told apart from others by the requests up to
/// the one that made it, which are its view.
#[derive(Clone, Copy)]
pub struct Value {
    pub(crate) number: u32,
    pub(crate) made: Ghost<Seq<Request>>,
}

impl View for Value {
    type V = Origin;

    closed spec fn view(&self) -> Origin {
        self.made@
    }
}

impl Value {
    /// The value with the given number, made by the last of the given requests.
    pub(crate) fn new(number: u32, made: Ghost<Seq<Request>>) -> (value: Value)
        ensures
            value@ == made@,
    {
        Value { number, made }
    }
}

/// The last instruction of a block, by its number; its view says of which block,
/// and after which requests.
#[derive(Clone, Copy)]
pub struct LastInst {
    pub(crate) number: u32,
    pub(crate) made: Ghost<(Seq<Request>, Block)>,
}

impl View for LastInst {
    type V = (Seq<Request>, Block);

    closed spec fn view(&self) -> (Seq<Request>, Block) {
        self.made@
    }
}

impl LastInst {
    pub(crate) fn new(number: u32, made: Ghost<(Seq<Request>, Block)>) -> (inst: LastInst)
        ensures
            inst@ == made@,
    {
        LastInst { number, made }
    }
}

/// What made a value: the requests up to the one that made it.
pub type Origin = Seq<Request>;

/// What made each of the values.
pub open spec fn origins(values: Seq<Value>) -> Seq<Origin> {
    values.map_values(|v: Value| v@)
}

/// A mutable variable of a function, by its number.
#[derive(Clone, Copy, PartialEq, Eq, Structural, Debug)]
pub struct Variable(pub u32);

/// A function imported into the function under construction.
#[derive(Clone, Copy, PartialEq, Eq, Structural, Debug)]
pub struct FuncRef(pub u32);

/// A data object imported into the function under construction.
#[derive(Clone, Copy, PartialEq, Eq, Structural, Debug)]
pub struct DataRef(pub u32);

/// A signature imported into the function under construction.
#[derive(Clone, Copy, PartialEq, Eq, Structural, Debug)]
pub struct SigRef(pub u32);

/// A function of a module, by its number.
#[derive(Clone, Copy, PartialEq, Eq, Structural, Debug)]
pub struct FuncId(pub u32);

/// A data object of a module, by its number.
#[derive(Clone, Copy, PartialEq, Eq, Structural, Debug)]
pub struct DataId(pub u32);

/// An integer type, by its width.
#[derive(Clone, Copy, PartialEq, Eq, Structural, Debug)]
pub struct IntType {
    pub bits: u16,
}

impl IntType {
    /// Whether the code generator has all instructions for integers of this width.
    pub open spec fn is_known(self) -> bool {
        self.bits == 8 || self.bits == 16 || self.bits == 32 || self.bits == 64
    }
}

/// The type of a value.
#[derive(Clone, Copy, PartialEq, Eq, Structural, Debug)]
pub enum Type {
    Int(IntType),
    Float { bits: u16 },
    Other,
}

/// A signature all of whose parameters and results have one integer type.
#[derive(Clone, Copy, PartialEq, Eq, Structural, Debug)]
pub struct Signature {
    pub int: IntType,
    pub params: usize,
    pub returns: usize,
}

impl Signature {
    /// Whether there is such a signature: its type is known, and its parameters
    /// and results can be numbered.
    pub open spec fn is_known(self) -> bool {
        self.int.is_known() && self.params < limit() && self.returns < limit()
    }
}

#[derive(Clone, Copy, PartialEq, Eq, Structural, Debug)]
pub enum IntCC {
    Equal,
    NotEqual,
    SignedLessThan,
    SignedLessThanOrEqual,
    SignedGreaterThan,
    SignedGreaterThanOrEqual,
}

#[derive(Clone, Copy, PartialEq, Eq, Structural, Debug)]
pub enum UnaryInst {
    Ineg,
    Bnot,
}

#[derive(Clone, Copy, PartialEq, Eq, Structural, Debug)]
pub enum BinaryInst {
    Iadd,
    Isub,
    Imul,
    Sdiv,
    Udiv,
    Srem,
}

/// An instruction, as it is handed to the builder. A value stands in it as the
/// requests up to the one that made it.
#[allow(inconsistent_fields)]
pub enum Inst {
    /// An integer constant.
    Iconst { ty: IntType, imm: i64 },
    /// A null reference.
    Null { ty: IntType },
    /// The 64-bit floating-point constant zero.
    FloatZero,
    /// The address of the finished code of a function, as an integer constant.
    FunctionAddress { ty: IntType, func: FuncId },
    Unary { op: UnaryInst, arg: Origin },
    Binary { op: BinaryInst, x: Origin, y: Origin },
    Icmp { cc: IntCC, x: Origin, y: Origin },
    IcmpImm { cc: IntCC, x: Origin, imm: i64 },
    /// Zero extension.
    Uextend { ty: IntType, arg: Origin },
    /// The address of a data object.
    SymbolValue { ty: IntType, data: DataRef },
    Load { ty: IntType, ptr: Origin, offset: i32 },
    Store { value: Origin, ptr: Origin, offset: i32 },
    Call { callee: FuncRef, args: Seq<Origin> },
    CallIndirect { signature: SigRef, callee: Origin, args: Seq<Origin> },
    Jump { target: Block, args: Seq<Origin> },
    /// A branch to the first block if the condition is not zero, else to the second.
    Brif {
        cond: Origin,
        then_block: Block,
        then_args: Seq<Origin>,
        else_block: Block,
        else_args: Seq<Origin>,
    },
    Return { args: Seq<Origin> },
}

/// One request to a function builder.
#[allow(inconsistent_fields)]
pub enum Request {
    /// A builder is set on the function, which has this signature.
    Begin { signature: Signature },
    CreateBlock,
    AppendParam { block: Block, ty: Type },
    Switch { block: Block },
    Seal { block: Block },
    DeclareVar { var: Variable, ty: IntType },
    DefVar { var: Variable, value: Origin },
    UseVar { block: Block, var: Variable },
    ImportSignature { signature: Signature },
    ImportFunction { func: FuncId, signature: Signature },
    ImportData { data: DataId },
    Emit { block: Block, inst: Inst },
}

impl Inst {
    /// Whether a block ends with this instruction.
    pub open spec fn is_terminator(self) -> bool {
        self is Jump || self is Brif || self is Return
    }

    /// Whether control can go from this instruction to `block`.
    pub open spec fn targets(self, block: Block) -> bool {
        match self {
            Inst::Jump { target, .. } => target == block,
            Inst::Brif { then_block, else_block, .. } => then_block == block || else_block == block,
            _ => false,
        }
    }
}

/// The most variables, imports, functions and data objects: they are numbered by
/// a `u32`.
pub open spec fn limit() -> nat {
    u32::MAX as nat
}

/// The least number of instructions, blocks or values that is too many: a value
/// holds the number of what it was made by in 24 bits.
pub open spec fn capacity() -> nat {
    0xff_ffff
}

/// The most parameters that a block can have: they are numbered by a `u16`.
pub open spec fn width() -> nat {
    65536
}

/// The block that instructions are added to.
pub open spec fn position(h: Seq<Request>) -> Option<Block>
    decreases h.len(),
{
    if h.len() == 0 {
        None
    } else {
        match h.last() {
            Request::Begin { .. } => None,
            Request::Switch { block } => Some(block),
            _ => position(h.drop_last()),
        }
    }
}

/// The signature of the function.
pub open spec fn signature(h: Seq<Request>) -> Signature
    decreases h.len(),
{
    if h.len() == 0 {
        Signature { int: IntType { bits: 64 }, params: 0, returns: 0 }
    } else {
        match h.last() {
            Request::Begin { signature } => signature,
            _ => signature(h.drop_last()),
        }
    }
}

/// Whether all predecessors of `block` have been announced as known.
pub open spec fn sealed(h: Seq<Request>, block: Block) -> bool
    decreases h.len(),
{
    h.len() != 0 && h.last() !is Begin && (h.last() == (Request::Seal { block }) || sealed(
        h.drop_last(),
        block,
    ))
}

/// Whether a terminator has been added to `block` by the present builder.
pub open spec fn filled(h: Seq<Request>, block: Block) -> bool
    decreases h.len(),
{
    h.len() != 0 && h.last() !is Begin && ((h.last() matches Request::Emit { block: at, inst }
        && at == block && inst.is_terminator()) || filled(h.drop_last(), block))
}

/// The block that a request makes part of the function's layout, if any.
pub open spec fn touches(r: Request) -> Option<Block> {
    match r {
        Request::Emit { block, .. } => Some(block),
        Request::UseVar { block, .. } => Some(block),
        _ => None,
    }
}

/// Whether the present builder has added anything to `block`.
pub open spec fn touched(h: Seq<Request>, block: Block) -> bool
    decreases h.len(),
{
    h.len() != 0 && h.last() !is Begin && (touches(h.last()) == Some(block) || touched(
        h.drop_last(),
        block,
    ))
}

/// Whether some branch to `block` has been added by the present builder.
pub open spec fn has_predecessor(h: Seq<Request>, block: Block) -> bool
    decreases h.len(),
{
    h.len() != 0 && h.last() !is Begin && ((h.last() matches Request::Emit { inst, .. }
        && inst.targets(block)) || has_predecessor(h.drop_last(), block))
}

/// Whether `block` is part of the function's layout.
pub open spec fn inserted(h: Seq<Request>, block: Block) -> bool
    decreases h.len(),
{
    h.len() != 0 && (touches(h.last()) == Some(block) || inserted(h.drop_last(), block))
}

/// The first block of the function's layout.
pub open spec fn entry(h: Seq<Request>) -> Option<Block>
    decreases h.len(),
{
    if h.len() == 0 {
        None
    } else if entry(h.drop_last()) is Some {
        entry(h.drop_last())
    } else {
        touches(h.last())
    }
}

/// The last instruction that was added to `block` by request.
pub open spec fn last_inst(h: Seq<Request>, block: Block) -> Option<Inst>
    decreases h.len(),
{
    if h.len() == 0 {
        None
    } else {
        match h.last() {
            Request::Emit { block: at, inst } if at == block => Some(inst),
            _ => last_inst(h.drop_last(), block),
        }
    }
}

/// Whether the last instruction of `block` is a terminator.
pub open spec fn terminated(h: Seq<Request>, block: Block) -> bool {
    last_inst(h, block) matches Some(inst) && inst.is_terminator()
}

/// Whether the current block is sealed, has no predecessor and is not the first one.
pub open spec fn unreachable(h: Seq<Request>) -> bool {
    &&& position(h) matches Some(at)
    &&& entry(h) != Some(at)
    &&& sealed(h, at)
    &&& !has_predecessor(h, at)
}

/// How many blocks the function has.
pub open spec fn block_count(h: Seq<Request>) -> nat
    decreases h.len(),
{
    if h.len() == 0 {
        0
    } else {
        block_count(h.drop_last()) + if h.last() is CreateBlock { 1nat } else { 0nat }
    }
}

/// Whether `block` has been created.
pub open spec fn created(h: Seq<Request>, block: Block) -> bool {
    block.0 < block_count(h)
}

/// How many variables have been declared.
pub open spec fn variables(h: Seq<Request>) -> nat
    decreases h.len(),
{
    if h.len() == 0 {
        0
    } else {
        variables(h.drop_last()) + if h.last() is DeclareVar {
            1nat
        } else {
            0nat
        }
    }
}

/// How many instructions and parameters have been asked for.
pub open spec fn made(h: Seq<Request>) -> nat
    decreases h.len(),
{
    if h.len() == 0 {
        0
    } else {
        made(h.drop_last()) + if h.last() is Emit || h.last() is AppendParam {
            1nat
        } else {
            0nat
        }
    }
}

/// Whether `n` more instructions and parameters than were asked for can be
/// numbered. In each block the builder can make, for each variable, a parameter
/// and a constant of its own accord.
#[verifier::opaque]
pub open spec fn fits(h: Seq<Request>, n: nat) -> bool {
    &&& made(h) + n + 2 * variables(h) * block_count(h) < capacity()
    &&& block_count(h) < capacity()
}

/// How many functions have been imported.
pub open spec fn function_imports(h: Seq<Request>) -> nat
    decreases h.len(),
{
    if h.len() == 0 {
        0
    } else {
        function_imports(h.drop_last()) + if h.last() is ImportFunction { 1nat } else { 0nat }
    }
}

/// How many data objects have been imported.
pub open spec fn data_imports(h: Seq<Request>) -> nat
    decreases h.len(),
{
    if h.len() == 0 {
        0
    } else {
        data_imports(h.drop_last()) + if h.last() is ImportData { 1nat } else { 0nat }
    }
}

/// How many signatures have been imported; an imported function brings its own.
pub open spec fn signature_imports(h: Seq<Request>) -> nat
    decreases h.len(),
{
    if h.len() == 0 {
        0
    } else {
        signature_imports(h.drop_last()) + if h.last() is ImportSignature
            || h.last() is ImportFunction {
            1nat
        } else {
            0nat
        }
    }
}

/// The signature of an imported function.
pub open spec fn callee_signature(h: Seq<Request>, callee: FuncRef) -> Option<Signature>
    decreases h.len(),
{
    if h.len() == 0 {
        None
    } else {
        match h.last() {
            Request::ImportFunction { signature, .. } if function_imports(h.drop_last())
                == callee.0 => Some(signature),
            _ => callee_signature(h.drop_last(), callee),
        }
    }
}

/// An imported signature.
pub open spec fn imported_signature(h: Seq<Request>, sig: SigRef) -> Option<Signature>
    decreases h.len(),
{
    if h.len() == 0 {
        None
    } else {
        match h.last() {
            Request::ImportFunction { signature, .. } if signature_imports(h.drop_last())
                == sig.0 => Some(signature),
            Request::ImportSignature { signature } if signature_imports(h.drop_last())
                == sig.0 => Some(signature),
            _ => imported_signature(h.drop_last(), sig),
        }
    }
}

/// The type of a variable that the present builder knows.
pub open spec fn variable_type(h: Seq<Request>, var: Variable) -> Option<IntType>
    decreases h.len(),
{
    if h.len() == 0 {
        None
    } else {
        match h.last() {
            Request::Begin { .. } => None,
            Request::DeclareVar { var: declared, ty } if declared == var => Some(ty),
            _ => variable_type(h.drop_last(), var),
        }
    }
}

/// The parameters given to `block` by request.
pub open spec fn params(h: Seq<Request>, block: Block) -> Seq<Origin>
    decreases h.len(),
{
    if h.len() == 0 {
        Seq::empty()
    } else {
        match h.last() {
            Request::AppendParam { block: at, .. } if at == block => params(
                h.drop_last(),
                block,
            ).push(h),
            _ => params(h.drop_last(), block),
        }
    }
}

/// The types of the parameters given to `block` by request.
pub open spec fn param_types(h: Seq<Request>, block: Block) -> Seq<Type>
    decreases h.len(),
{
    if h.len() == 0 {
        Seq::empty()
    } else {
        match h.last() {
            Request::AppendParam { block: at, ty } if at == block => param_types(
                h.drop_last(),
                block,
            ).push(ty),
            _ => param_types(h.drop_last(), block),
        }
    }
}

/// Whether every block can be given a parameter for every variable.
pub open spec fn has_room(h: Seq<Request>) -> bool {
    forall|b: Block| #[trigger] param_types(h, b).len() + variables(h) <= width()
}

/// The types of all parameters of `block`.
///
/// Beside those given by request, a block to which something was added can have
/// parameters that the builder made for variables.
pub uninterp spec fn all_param_types(h: Seq<Request>, block: Block) -> Seq<Type>;

/// The type of the value made for request `r` after `h`, if one is made.
pub open spec fn result_type(h: Seq<Request>, r: Request) -> Option<Type>
    decreases h.len(), 1nat,
{
    match r {
        Request::AppendParam { ty, .. } => Some(ty),
        Request::UseVar { var, .. } => match variable_type(h, var) {
            Some(ty) => Some(Type::Int(ty)),
            None => None,
        },
        Request::Emit { inst, .. } => match inst {
            Inst::Iconst { ty, .. } => Some(Type::Int(ty)),
            Inst::Null { ty } => Some(Type::Int(ty)),
            Inst::FloatZero => Some(Type::Float { bits: 64 }),
            Inst::FunctionAddress { ty, .. } => Some(Type::Int(ty)),
            Inst::Unary { arg, .. } => value_type(h, arg),
            Inst::Binary { x, .. } => value_type(h, x),
            Inst::Icmp { .. } => Some(Type::Int(IntType { bits: 8 })),
            Inst::IcmpImm { .. } => Some(Type::Int(IntType { bits: 8 })),
            Inst::Uextend { ty, .. } => Some(Type::Int(ty)),
            Inst::SymbolValue { ty, .. } => Some(Type::Int(ty)),
            Inst::Load { ty, .. } => Some(Type::Int(ty)),
            Inst::Call { callee, .. } => match callee_signature(h, callee) {
                Some(s) => Some(Type::Int(s.int)),
                None => None,
            },
            Inst::CallIndirect { signature, .. } => match imported_signature(h, signature) {
                Some(s) => Some(Type::Int(s.int)),
                None => None,
            },
            _ => None,
        },
        _ => None,
    }
}

/// The type of a value, if the function has it.
pub open spec fn value_type(h: Seq<Request>, value: Origin) -> Option<Type>
    decreases h.len(), 0nat,
{
    if value.len() != 0 && value.is_prefix_of(h) {
        result_type(value.drop_last(), value.last())
    } else {
        None
    }
}

/// Whether all the given values are there.
pub open spec fn has_values(h: Seq<Request>, values: Seq<Origin>) -> bool {
    forall|i: int| 0 <= i < values.len() ==> value_type(h, #[trigger] values[i]) is Some
}

/// Whether `value` is an integer of the function.
pub open spec fn is_int(h: Seq<Request>, value: Origin) -> bool {
    value_type(h, value) matches Some(Type::Int(_))
}

/// Whether an instruction can be formed after `h`: its types exist, its operands
/// are there, and those from which its own type is found are integers.
pub open spec fn well_typed(h: Seq<Request>, inst: Inst) -> bool {
    match inst {
        Inst::Iconst { ty, .. } => ty.is_known(),
        Inst::Null { ty } => ty.is_known(),
        Inst::FloatZero => true,
        Inst::FunctionAddress { ty, .. } => ty.is_known(),
        Inst::Unary { arg, .. } => is_int(h, arg),
        Inst::Binary { x, y, .. } => is_int(h, x) && value_type(h, y) is Some,
        Inst::Icmp { x, y, .. } => is_int(h, x) && value_type(h, y) is Some,
        Inst::IcmpImm { x, .. } => is_int(h, x),
        Inst::Uextend { ty, arg } => ty.is_known() && value_type(h, arg) is Some,
        Inst::SymbolValue { ty, .. } => ty.is_known(),
        Inst::Load { ty, ptr, .. } => ty.is_known() && value_type(h, ptr) is Some,
        Inst::Store { value, ptr, .. } => is_int(h, value) && value_type(h, ptr) is Some,
        Inst::Call { callee, args } => {
            &&& has_values(h, args)
            &&& callee_signature(h, callee) matches Some(s)
            &&& s.returns == 1
        },
        Inst::CallIndirect { signature, callee, args } => {
            &&& is_int(h, callee)
            &&& has_values(h, args)
            &&& imported_signature(h, signature) matches Some(s)
            &&& s.returns == 1
        },
        Inst::Jump { args, .. } => has_values(h, args),
        Inst::Brif { cond, then_args, else_args, .. } => {
            &&& is_int(h, cond)
            &&& has_values(h, then_args)
            &&& has_values(h, else_args)
        },
        Inst::Return { args } => has_values(h, args),
    }
}

/// `h` and an instruction at the current position; `None` where that cannot be
/// asked for: nowhere to put it, a block that has its terminator already, a
/// branch to a block that is sealed or was never created, or more instructions
/// than can be numbered.
pub open spec fn emit(h: Seq<Request>, inst: Inst) -> Option<Seq<Request>> {
    match position(h) {
        Some(at) => if !filled(h, at) && !terminated(h, at) && well_typed(h, inst) && fits(
            h,
            1,
        ) && forall|
            b: Block,
        |
            #![trigger inst.targets(b)]
            inst.targets(b) ==> created(h, b) && !sealed(h, b) {
            Some(h.push(Request::Emit { block: at, inst }))
        } else {
            None
        },
        None => None,
    }
}

/// `h` and a new block.
pub open spec fn create_block(h: Seq<Request>) -> Option<Seq<Request>> {
    if fits(h.push(Request::CreateBlock), 0) {
        Some(h.push(Request::CreateBlock))
    } else {
        None
    }
}

/// The block that comes next.
pub open spec fn next_block(h: Seq<Request>) -> Block {
    Block(block_count(h) as u32)
}

/// `h` and a parameter for `block`, to which nothing may have been added yet.
pub open spec fn append_param(h: Seq<Request>, block: Block, ty: IntType) -> Option<Seq<Request>> {
    if created(h, block) && !inserted(h, block) && ty.is_known() && param_types(h, block).len()
        < width() && fits(h, 1) {
        Some(h.push(Request::AppendParam { block, ty: Type::Int(ty) }))
    } else {
        None
    }
}

/// `h` and, for `block`, the parameters of the function.
pub open spec fn append_function_params(h: Seq<Request>, block: Block) -> Option<Seq<Request>> {
    if created(h, block) && !inserted(h, block) && !has_predecessor(h, block) && param_types(
        h,
        block,
    ).len() + signature(h).params <= width() && fits(h, signature(h).params as nat) {
        Some(
            h + Seq::new(
                signature(h).params as nat,
                |i: int| Request::AppendParam { block, ty: Type::Int(signature(h).int) },
            ),
        )
    } else {
        None
    }
}

/// `h` and a move to `block`. The block that is left must have its terminator,
/// unless nothing was added to it or it cannot be reached, and `block` must
/// not have one.
pub open spec fn switch_to(h: Seq<Request>, block: Block) -> Option<Seq<Request>> {
    let may_leave = match position(h) {
        Some(at) => unreachable(h) || !touched(h, at) || filled(h, at),
        None => true,
    };
    if created(h, block) && may_leave && !filled(h, block) {
        Some(h.push(Request::Switch { block }))
    } else {
        None
    }
}

/// `h` and the announcement that all predecessors of `block` are known, which
/// is made once. It can bring blocks parameters for variables.
pub open spec fn seal(h: Seq<Request>, block: Block) -> Option<Seq<Request>> {
    if created(h, block) && !sealed(h, block) && has_room(h) && fits(h, 0) {
        Some(h.push(Request::Seal { block }))
    } else {
        None
    }
}

/// `h` and a new variable.
pub open spec fn declare_var(h: Seq<Request>, var: Variable, ty: IntType) -> Option<Seq<Request>> {
    if variable_type(h, var) is None && ty.is_known() && var.0 < limit() {
        Some(h.push(Request::DeclareVar { var, ty }))
    } else {
        None
    }
}

/// `h` and a definition of a variable, by a value of its type.
pub open spec fn def_var(h: Seq<Request>, var: Variable, value: Origin) -> Option<Seq<Request>> {
    if position(h) is Some && variable_type(h, var) is Some && value_type(h, value) == Some(
        Type::Int(variable_type(h, var)->0),
    ) {
        Some(h.push(Request::DefVar { var, value }))
    } else {
        None
    }
}

/// `h` and a use of a variable at the current position. It can bring blocks
/// parameters for the variable.
pub open spec fn use_var(h: Seq<Request>, var: Variable) -> Option<Seq<Request>> {
    match position(h) {
        Some(at) => if created(h, at) && !filled(h, at) && variable_type(h, var) is Some
            && has_room(h) && fits(h, 0) {
            Some(h.push(Request::UseVar { block: at, var }))
        } else {
            None
        },
        None => None,
    }
}

/// `h` and an import, of which there can be as many as there are numbers.
pub open spec fn import(h: Seq<Request>, r: Request) -> Option<Seq<Request>> {
    if h.len() < limit() {
        Some(h.push(r))
    } else {
        None
    }
}

/// Whether the function can be handed over: every block to which something
/// was added is sealed and has its terminator.
pub open spec fn complete(h: Seq<Request>) -> bool {
    forall|b: Block| touched(h, b) ==> sealed(h, b) && filled(h, b)
}

/// Whether the function can be compiled: it has a first block, and each of its
/// instructions could be made two.
pub open spec fn compilable(h: Seq<Request>) -> bool {
    entry(h) is Some && fits(h, made(h))
}

/// What one more request changes.
pub proof fn lemma_push(h: Seq<Request>, r: Request)
    ensures
        position(h.push(r)) == match r {
            Request::Begin { .. } => None,
            Request::Switch { block } => Some(block),
            _ => position(h),
        },
        signature(h.push(r)) == match r {
            Request::Begin { signature } => signature,
            _ => signature(h),
        },
        entry(h.push(r)) == if entry(h) is Some {
            entry(h)
        } else {
            touches(r)
        },
        block_count(h.push(r)) == block_count(h) + if r is CreateBlock {
            1nat
        } else {
            0nat
        },
        forall|b: Block| #[trigger]
            sealed(h.push(r), b) <==> r !is Begin && (r == (Request::Seal { block: b }) || sealed(
                h,
                b,
            )),
        forall|b: Block| #[trigger]
            filled(h.push(r), b) <==> r !is Begin && ((r matches Request::Emit { block: at, inst }
                && at == b && inst.is_terminator()) || filled(h, b)),
        forall|b: Block| #[trigger]
            touched(h.push(r), b) <==> r !is Begin && (touches(r) == Some(b) || touched(h, b)),
        forall|b: Block| #[trigger]
            has_predecessor(h.push(r), b) <==> r !is Begin && ((r matches Request::Emit {
                inst,
                ..
            } && inst.targets(b)) || has_predecessor(h, b)),
        forall|b: Block| #[trigger]
            inserted(h.push(r), b) <==> touches(r) == Some(b) || inserted(h, b),
        forall|b: Block| #[trigger]
            terminated(h.push(r), b) == match r {
                Request::Emit { block: at, inst } if at == b => inst.is_terminator(),
                _ => terminated(h, b),
            },
        forall|b: Block| #[trigger]
            param_types(h.push(r), b) == match r {
                Request::AppendParam { block: at, ty } if at == b => param_types(h, b).push(ty),
                _ => param_types(h, b),
            },
        forall|b: Block| #[trigger]
            params(h.push(r), b) == match r {
                Request::AppendParam { block: at, .. } if at == b => params(h, b).push(h.push(r)),
                _ => params(h, b),
            },
        variables(h.push(r)) == variables(h) + if r is DeclareVar {
            1nat
        } else {
            0nat
        },
        made(h.push(r)) == made(h) + if r is Emit || r is AppendParam {
            1nat
        } else {
            0nat
        },
{
    assert(h.push(r).drop_last() =~= h);
}

/// Whether no request was made of a block before it was created.
#[verifier::opaque]
pub open spec fn is_orderly(h: Seq<Request>) -> bool {
    &&& position(h) matches Some(at) ==> created(h, at)
    &&& forall|b: Block| #[trigger] sealed(h, b) ==> created(h, b)
    &&& forall|b: Block| #[trigger] inserted(h, b) ==> created(h, b)
    &&& forall|b: Block| #[trigger] has_predecessor(h, b) ==> created(h, b)
    &&& forall|b: Block| #[trigger] params(h, b).len() != 0 ==> created(h, b)
}

/// What is asked for is taken off from what can be asked for.
pub proof fn lemma_fits(h: Seq<Request>, n: nat, r: Request)
    requires
        fits(h, n),
        r !is CreateBlock,
        r !is DeclareVar,
        n >= 1 || !(r is Emit || r is AppendParam),
    ensures
        fits(
            h.push(r),
            if r is Emit || r is AppendParam {
                (n - 1) as nat
            } else {
                n
            },
        ),
{
    reveal(fits);
    lemma_push(h, r);
}

/// Where more fits, less does.
pub proof fn lemma_fits_less(h: Seq<Request>, n: nat, less: nat)
    requires
        fits(h, n),
        less <= n,
    ensures
        fits(h, less),
        block_count(h) < capacity(),
{
    reveal(fits);
}

/// Where there is no variable, all that counts is what was asked for.
pub proof fn lemma_fits_all(h: Seq<Request>, n: nat)
    requires
        variables(h) == 0,
        made(h) + n < capacity(),
        block_count(h) < capacity(),
    ensures
        fits(h, n),
{
    reveal(fits);
    let v = variables(h);
    let b = block_count(h);
    assert(2 * v * b == 0) by (nonlinear_arith)
        requires
            v == 0,
    ;
}

/// What was created stays.
pub proof fn lemma_created(h: Seq<Request>, h1: Seq<Request>)
    requires
        h.is_prefix_of(h1),
    ensures
        block_count(h) <= block_count(h1),
    decreases h1.len(),
{
    if h1.len() == h.len() {
        assert(h1 =~= h);
    } else {
        assert(h =~= h1.drop_last().subrange(0, h.len() as int));
        lemma_created(h, h1.drop_last());
    }
}

/// A request that is made only of blocks that were created keeps order.
proof fn lemma_orderly_push(h: Seq<Request>, r: Request)
    requires
        is_orderly(h),
        touches(r) matches Some(b) ==> created(h, b),
        r matches Request::Switch { block } ==> created(h, block),
        r matches Request::Seal { block } ==> created(h, block),
        r matches Request::AppendParam { block, .. } ==> created(h, block),
        r matches Request::Emit { inst, .. } ==> forall|b: Block| #[trigger]
            inst.targets(b) ==> created(h, b),
    ensures
        is_orderly(h.push(r)),
{
    reveal(is_orderly);
    lemma_push(h, r);
}

pub broadcast proof fn lemma_orderly_emit(h: Seq<Request>, inst: Inst)
    ensures
        #[trigger] emit(h, inst) matches Some(h1) ==> (is_orderly(h) ==> is_orderly(h1)),
{
    if is_orderly(h) && emit(h, inst) is Some {
        reveal(is_orderly);
        lemma_orderly_push(h, Request::Emit { block: position(h)->0, inst });
    }
}

pub broadcast proof fn lemma_orderly_create(h: Seq<Request>)
    ensures
        #[trigger] create_block(h) matches Some(h1) ==> (is_orderly(h) ==> is_orderly(h1)),
{
    if is_orderly(h) {
        lemma_orderly_push(h, Request::CreateBlock);
    }
}

pub broadcast proof fn lemma_orderly_param(h: Seq<Request>, block: Block, ty: IntType)
    ensures
        #[trigger] append_param(h, block, ty) matches Some(h1) ==> (is_orderly(h) ==> is_orderly(
            h1,
        )),
{
    if is_orderly(h) && created(h, block) {
        lemma_orderly_push(h, Request::AppendParam { block, ty: Type::Int(ty) });
    }
}

proof fn lemma_orderly_params(h: Seq<Request>, r: Request, n: nat)
    requires
        is_orderly(h),
        r matches Request::AppendParam { block, .. } && created(h, block),
    ensures
        is_orderly(h + Seq::new(n, |i: int| r)),
        block_count(h + Seq::new(n, |i: int| r)) == block_count(h),
    decreases n,
{
    if n == 0 {
        assert(h + Seq::new(n, |i: int| r) =~= h);
    } else {
        let less = Seq::new((n - 1) as nat, |i: int| r);
        lemma_orderly_params(h, r, (n - 1) as nat);
        lemma_orderly_push(h + less, r);
        lemma_push(h + less, r);
        assert((h + less).push(r) =~= h + Seq::new(n, |i: int| r));
    }
}

pub broadcast proof fn lemma_orderly_function_params(h: Seq<Request>, block: Block)
    ensures
        #[trigger] append_function_params(h, block) matches Some(h1) ==> (is_orderly(h)
            ==> is_orderly(h1)),
{
    if is_orderly(h) && created(h, block) {
        let r = Request::AppendParam { block, ty: Type::Int(signature(h).int) };
        let n = signature(h).params as nat;
        lemma_orderly_params(h, r, n);
        assert(Seq::new(n, |i: int| r) =~= Seq::new(
            n,
            |i: int| Request::AppendParam { block, ty: Type::Int(signature(h).int) },
        ));
    }
}

pub broadcast proof fn lemma_orderly_switch(h: Seq<Request>, block: Block)
    ensures
        #[trigger] switch_to(h, block) matches Some(h1) ==> (is_orderly(h) ==> is_orderly(h1)),
{
    if is_orderly(h) && created(h, block) {
        lemma_orderly_push(h, Request::Switch { block });
    }
}

pub broadcast proof fn lemma_orderly_seal(h: Seq<Request>, block: Block)
    ensures
        #[trigger] seal(h, block) matches Some(h1) ==> (is_orderly(h) ==> is_orderly(h1)),
{
    if is_orderly(h) && created(h, block) {
        lemma_orderly_push(h, Request::Seal { block });
    }
}

pub broadcast proof fn lemma_orderly_declare(h: Seq<Request>, var: Variable, ty: IntType)
    ensures
        #[trigger] declare_var(h, var, ty) matches Some(h1) ==> (is_orderly(h) ==> is_orderly(h1)),
{
    if is_orderly(h) {
        lemma_orderly_push(h, Request::DeclareVar { var, ty });
    }
}

pub broadcast proof fn lemma_orderly_def(h: Seq<Request>, var: Variable, value: Origin)
    ensures
        #[trigger] def_var(h, var, value) matches Some(h1) ==> (is_orderly(h) ==> is_orderly(h1)),
{
    if is_orderly(h) {
        lemma_orderly_push(h, Request::DefVar { var, value });
    }
}

pub broadcast proof fn lemma_orderly_use(h: Seq<Request>, var: Variable)
    ensures
        #[trigger] use_var(h, var) matches Some(h1) ==> (is_orderly(h) ==> is_orderly(h1)),
{
    if is_orderly(h) && use_var(h, var) is Some {
        lemma_orderly_push(h, Request::UseVar { block: position(h)->0, var });
    }
}

pub broadcast proof fn lemma_orderly_import(h: Seq<Request>, r: Request)
    ensures
        #[trigger] import(h, r) matches Some(h1) ==> (is_orderly(h) && (r is ImportSignature
            || r is ImportFunction || r is ImportData) ==> is_orderly(h1)),
{
    if is_orderly(h) && (r is ImportSignature || r is ImportFunction || r is ImportData) {
        lemma_orderly_push(h, r);
    }
}

/// What is asked of the builder keeps order.
pub broadcast group group_orderly {
    lemma_orderly_import,
    lemma_orderly_emit,
    lemma_orderly_create,
    lemma_orderly_param,
    lemma_orderly_function_params,
    lemma_orderly_switch,
    lemma_orderly_seal,
    lemma_orderly_declare,
    lemma_orderly_def,
    lemma_orderly_use,
}

} // verus!
