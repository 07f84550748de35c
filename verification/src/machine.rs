//! What code does when it is run.
//!
//! Requests are gone through in the order in which they were made. Control is
//! in one block at a time: what was put into that block is carried out, and
//! what was put into other blocks is passed by. That is how a processor runs
//! code in which control only ever goes to blocks that are filled later. Control
//! that goes back to an earlier block stays there.
use vstd::prelude::*;

use crate::ir;
use crate::ir::{
    BinaryInst, Block, DataId, DataRef, FuncId, FuncRef, Inst, IntCC, IntType, Origin, Request,
    UnaryInst, Variable,
};

verus! {

/// What code finds around it.
pub struct World {
    /// The width of a word.
    pub bits: u16,
    /// The addresses of data objects.
    pub data: spec_fn(DataId) -> int,
    /// The addresses of functions.
    pub code: spec_fn(FuncId) -> int,
    /// What a call of the function at an address with arguments gives back, and
    /// what it makes of memory.
    pub call: spec_fn(int, Seq<int>, Map<int, int>) -> (int, Map<int, int>),
    /// The block in which control starts.
    pub entry: Block,
    /// The arguments of the function.
    pub args: Seq<int>,
    /// The words in memory, by their addresses.
    pub memory: Map<int, int>,
}

/// How far code has been run.
#[verifier::ext_equal]
pub struct Machine {
    /// The block that control is in; none after a return.
    pub at: Option<Block>,
    pub values: Map<Origin, int>,
    pub variables: Map<Variable, int>,
    pub memory: Map<int, int>,
    /// What was returned.
    pub result: Option<int>,
}

/// The number between `-2^(bits-1)` and `2^(bits-1)` that is congruent to `x`.
pub open spec fn signed(x: int, bits: u16) -> int {
    let r = unsigned(x, bits);
    if bits == 8 {
        if r < 0x80 { r } else { r - 0x100 }
    } else if bits == 16 {
        if r < 0x8000 { r } else { r - 0x1_0000 }
    } else if bits == 32 {
        if r < 0x8000_0000 { r } else { r - 0x1_0000_0000 }
    } else {
        if r < 0x8000_0000_0000_0000 { r } else { r - 0x1_0000_0000_0000_0000 }
    }
}

/// The number between zero and `2^bits` that is congruent to `x`.
pub open spec fn unsigned(x: int, bits: u16) -> int {
    if bits == 8 {
        x % 0x100
    } else if bits == 16 {
        x % 0x1_0000
    } else if bits == 32 {
        x % 0x1_0000_0000
    } else {
        x % 0x1_0000_0000_0000_0000
    }
}

/// The word that a constant is.
pub open spec fn constant(imm: i64, bits: u16) -> int {
    signed(imm as int, bits)
}

/// The quotient, rounded towards zero.
pub open spec fn quotient(x: int, y: int) -> int {
    let q = (if x < 0 { -x } else { x }) / (if y < 0 { -y } else { y });
    if (x < 0) == (y < 0) { q } else { -q }
}

/// One for what is true, zero for what is false.
pub open spec fn truth(b: bool) -> int {
    if b { 1 } else { 0 }
}

/// Whether two numbers compare as `cc` says.
pub open spec fn compares(cc: IntCC, x: int, y: int) -> bool {
    match cc {
        IntCC::Equal => x == y,
        IntCC::NotEqual => x != y,
        IntCC::SignedLessThan => x < y,
        IntCC::SignedLessThanOrEqual => x <= y,
        IntCC::SignedGreaterThan => x > y,
        IntCC::SignedGreaterThanOrEqual => x >= y,
    }
}

/// What an instruction makes of two words.
pub open spec fn binary(op: BinaryInst, x: int, y: int, bits: u16) -> int {
    match op {
        BinaryInst::Iadd => signed(x + y, bits),
        BinaryInst::Isub => signed(x - y, bits),
        BinaryInst::Imul => signed(x * y, bits),
        BinaryInst::Sdiv => signed(quotient(x, y), bits),
        BinaryInst::Udiv => signed(unsigned(x, bits) / unsigned(y, bits), bits),
        BinaryInst::Srem => signed(x - y * quotient(x, y), bits),
    }
}

/// What an instruction makes of a word.
pub open spec fn unary(op: UnaryInst, x: int, bits: u16) -> int {
    match op {
        UnaryInst::Ineg => signed(-x, bits),
        UnaryInst::Bnot => signed(-x - 1, bits),
    }
}

/// The function that was imported under a number.
pub open spec fn imported_function(h: Seq<Request>, callee: FuncRef) -> FuncId
    decreases h.len(),
{
    if h.len() == 0 {
        FuncId(0)
    } else {
        match h.last() {
            Request::ImportFunction { func, .. } if ir::function_imports(h.drop_last())
                == callee.0 => func,
            _ => imported_function(h.drop_last(), callee),
        }
    }
}

/// The data object that was imported under a number.
pub open spec fn imported_data(h: Seq<Request>, data: DataRef) -> DataId
    decreases h.len(),
{
    if h.len() == 0 {
        DataId(0)
    } else {
        match h.last() {
            Request::ImportData { data: id } if ir::data_imports(h.drop_last()) == data.0 => id,
            _ => imported_data(h.drop_last(), data),
        }
    }
}

/// What is left of a word in a value of a type.
pub open spec fn narrowed(x: int, ty: IntType, w: World) -> int {
    if ty.bits == w.bits {
        x
    } else {
        signed(x, ty.bits)
    }
}

/// The numbers that values stand for.
pub open spec fn numbers(values: Map<Origin, int>, origins: Seq<Origin>) -> Seq<int> {
    Seq::new(origins.len(), |i: int| values[origins[i]])
}

/// The parameters of a block get what is passed to it.
pub open spec fn pass(values: Map<Origin, int>, params: Seq<Origin>, args: Seq<int>) -> Map<
    Origin,
    int,
>
    decreases params.len(),
{
    if params.len() == 0 || args.len() == 0 {
        values
    } else {
        pass(values.insert(params[0], args[0]), params.skip(1), args.skip(1))
    }
}

impl Machine {
    /// Before anything was run.
    pub open spec fn start(w: World) -> Machine {
        Machine {
            at: Some(w.entry),
            values: Map::empty(),
            variables: Map::empty(),
            memory: w.memory,
            result: None,
        }
    }

    /// The value of a variable; zero if it was never given one.
    pub open spec fn variable(self, var: Variable) -> int {
        if self.variables.contains_key(var) {
            self.variables[var]
        } else {
            0
        }
    }

    pub open spec fn with_value(self, value: Origin, x: int) -> Machine {
        Machine { values: self.values.insert(value, x), ..self }
    }

    /// Control goes to `block`.
    pub open spec fn enter(self, h: Seq<Request>, block: Block, args: Seq<Origin>) -> Machine {
        Machine {
            at: Some(block),
            values: pass(self.values, ir::params(h, block), numbers(self.values, args)),
            ..self
        }
    }

    /// A function is called, and what it gives back is a value.
    pub open spec fn called(
        self,
        w: World,
        value: Origin,
        address: int,
        args: Seq<Origin>,
    ) -> Machine {
        let (x, memory) = (w.call)(address, numbers(self.values, args), self.memory);
        Machine { values: self.values.insert(value, x), memory, ..self }
    }

    /// An instruction is carried out; its value, if it has one, is `value`.
    pub open spec fn perform(
        self,
        w: World,
        h: Seq<Request>,
        inst: Inst,
        value: Origin,
    ) -> Machine {
        let values = self.values;
        match inst {
            Inst::Iconst { ty, imm } => self.with_value(value, constant(imm, ty.bits)),
            Inst::Null { .. } => self.with_value(value, 0),
            Inst::FloatZero => self.with_value(value, 0),
            Inst::FunctionAddress { ty, func } => self.with_value(
                value,
                narrowed((w.code)(func), ty, w),
            ),
            Inst::Unary { op, arg } => self.with_value(value, unary(op, values[arg], w.bits)),
            Inst::Binary { op, x, y } => self.with_value(
                value,
                binary(op, values[x], values[y], w.bits),
            ),
            Inst::Icmp { cc, x, y } => self.with_value(
                value,
                truth(compares(cc, values[x], values[y])),
            ),
            Inst::IcmpImm { cc, x, imm } => self.with_value(
                value,
                truth(compares(cc, values[x], constant(imm, w.bits))),
            ),
            Inst::Uextend { arg, .. } => self.with_value(value, unsigned(values[arg], 8)),
            Inst::SymbolValue { ty, data } => self.with_value(
                value,
                narrowed((w.data)(imported_data(h, data)), ty, w),
            ),
            Inst::Load { ty, ptr, offset } => self.with_value(
                value,
                narrowed(self.memory[values[ptr] + offset], ty, w),
            ),
            Inst::Store { value: stored, ptr, offset } => Machine {
                memory: self.memory.insert(values[ptr] + offset, values[stored]),
                ..self
            },
            Inst::Call { callee, args } => self.called(
                w,
                value,
                (w.code)(imported_function(h, callee)),
                args,
            ),
            Inst::CallIndirect { callee, args, .. } => self.called(w, value, values[callee], args),
            Inst::Jump { target, args } => self.enter(h, target, args),
            Inst::Brif { cond, then_block, then_args, else_block, else_args } => if values[cond]
                != 0 {
                self.enter(h, then_block, then_args)
            } else {
                self.enter(h, else_block, else_args)
            },
            Inst::Return { args } => Machine {
                at: None,
                result: Some(if args.len() == 0 { 0 } else { values[args[0]] }),
                ..self
            },
        }
    }

    /// What comes of a request, if control is where it was made.
    pub open spec fn step(self, w: World, h: Seq<Request>, r: Request) -> Machine {
        match r {
            Request::Begin { .. } => Machine::start(w),
            Request::AppendParam { block, .. } => if block == w.entry {
                self.with_value(h.push(r), w.args[ir::params(h, block).len() as int])
            } else {
                self
            },
            Request::DefVar { var, value } => if self.at is Some && self.at == ir::position(h) {
                Machine { variables: self.variables.insert(var, self.values[value]), ..self }
            } else {
                self
            },
            Request::UseVar { block, var } => if self.at == Some(block) {
                self.with_value(h.push(r), self.variable(var))
            } else {
                self
            },
            Request::Emit { block, inst } => if self.at == Some(block) {
                self.perform(w, h, inst, h.push(r))
            } else {
                self
            },
            _ => self,
        }
    }
}

/// The machine when all requests have been gone through.
#[verifier::opaque]
pub open spec fn run(w: World, h: Seq<Request>) -> Machine
    decreases h.len(),
{
    if h.len() == 0 {
        Machine::start(w)
    } else {
        run(w, h.drop_last()).step(w, h.drop_last(), h.last())
    }
}

/// One more request is one more step.
pub proof fn lemma_run(w: World, h: Seq<Request>, r: Request)
    ensures
        run(w, h.push(r)) == run(w, h).step(w, h, r),
{
    reveal(run);
    assert(h.push(r).drop_last() =~= h);
}

} // verus!
