//! Bookkeeping of the blocks of a function under construction.
use cranelift::prelude::FunctionBuilder;
use std::collections::HashSet;
use vstd::pervasive::unreached;
use vstd::prelude::*;

use crate::clif;
use crate::clif::{goal, grown, history};
use crate::ir;
use crate::ir::{Block, Inst, IntType, Origin, Request, Type, Value};

verus! {

broadcast use vstd::std_specs::hash::group_hash_axioms;

/// What a block manager knows.
pub struct ManagerState {
    /// The blocks that were created by the manager or switched to, in the order
    /// of the first time.
    pub stack: Seq<Block>,
    /// The numbers of the blocks that were sealed.
    pub sealed: Set<u32>,
    /// The block that is open.
    pub current: Option<Block>,
    /// The type of the value that a default return gives back.
    pub int: IntType,
}

impl ManagerState {
    /// A manager that knows no block.
    pub open spec fn fresh(word: IntType) -> ManagerState {
        ManagerState { stack: Seq::empty(), sealed: Set::empty(), current: None, int: word }
    }
}

/// A function under construction, with the manager of its blocks.
pub struct Cursor {
    pub code: Seq<Request>,
    pub manager: ManagerState,
}

/// `h` and a zero for each of the given types, and the values of the zeroes.
/// There is a zero of each integer type and one of 64-bit floating point; for
/// other types there is none.
pub open spec fn zeroes(
    h: Seq<Request>,
    done: Seq<Origin>,
    types: Seq<Type>,
) -> Option<(Seq<Request>, Seq<Origin>)>
    decreases types.len(),
{
    if types.len() == 0 {
        Some((h, done))
    } else {
        let next = match types[0] {
            Type::Int(ty) => ir::emit(h, Inst::Iconst { ty, imm: 0 }),
            Type::Float { .. } => ir::emit(h, Inst::FloatZero),
            Type::Other => None,
        };
        match next {
            Some(h1) => zeroes(h1, done.push(h1), types.skip(1)),
            None => None,
        }
    }
}

/// Whether there is a zero of a type.
pub open spec fn has_zero(ty: Type) -> bool {
    match ty {
        Type::Int(ty) => ty.is_known(),
        Type::Float { .. } => true,
        Type::Other => false,
    }
}

/// Whether there is a zero of each type.
pub open spec fn have_zeroes(types: Seq<Type>) -> bool {
    forall|i: int| 0 <= i < types.len() ==> has_zero(#[trigger] types[i])
}

/// Where instructions can be added, zeroes can be, if there are such; they
/// leave blocks as they are.
proof fn lemma_zeroes(h: Seq<Request>, done: Seq<Origin>, types: Seq<Type>)
    requires
        ir::position(h) is Some,
        !ir::filled(h, ir::position(h)->0),
        !ir::terminated(h, ir::position(h)->0),
        ir::has_values(h, done),
        ir::fits(h, types.len() + 1),
    ensures
        zeroes(h, done, types) is Some <==> have_zeroes(types),
        zeroes(h, done, types) matches Some((h1, args)) ==> {
            &&& ir::position(h1) == ir::position(h)
            &&& !ir::filled(h1, ir::position(h)->0)
            &&& !ir::terminated(h1, ir::position(h)->0)
            &&& ir::has_values(h1, args)
            &&& forall|b: Block| #[trigger] ir::sealed(h1, b) == ir::sealed(h, b)
            &&& forall|b: Block| #[trigger] ir::param_types(h1, b) == ir::param_types(h, b)
            &&& ir::block_count(h1) == ir::block_count(h)
            &&& ir::variables(h1) == ir::variables(h)
            &&& ir::fits(h1, 1)
        },
    decreases types.len(),
{
    if types.len() != 0 {
        let at = ir::position(h)->0;
        let inst = match types[0] {
            Type::Int(ty) => Inst::Iconst { ty, imm: 0 },
            _ => Inst::FloatZero,
        };
        let r = Request::Emit { block: at, inst };
        let h1 = h.push(r);
        ir::lemma_push(h, r);
        ir::lemma_fits(h, types.len() + 1, r);
        ir::lemma_fits_less(h, types.len() + 1, 1);
        if has_zero(types[0]) {
            assert(ir::emit(h, inst) == Some(h1));
            let done1 = done.push(h1);
            assert(h1.drop_last() =~= h);
            assert forall|i: int| 0 <= i < done1.len() implies ir::value_type(
                h1,
                #[trigger] done1[i],
            ) is Some by {
                if i < done.len() {
                    assert(ir::value_type(h, done[i]) is Some);
                    assert(done[i] =~= h1.subrange(0, done[i].len() as int)) by {
                        assert(done[i] =~= h.subrange(0, done[i].len() as int));
                    }
                }
            }
            lemma_zeroes(h1, done1, types.skip(1));
            assert(have_zeroes(types) <==> have_zeroes(types.skip(1))) by {
                assert forall|i: int|
                    have_zeroes(types.skip(1)) && 0 <= i < types.len() implies has_zero(
                    #[trigger] types[i],
                ) by {
                    if i != 0 {
                        assert(types.skip(1)[i - 1] == types[i]);
                    }
                }
            }
        }
    }
}

/// The types of the parameters of `block`.
pub open spec fn types_of(h: Seq<Request>, block: Block) -> Seq<Type> {
    if ir::inserted(h, block) {
        ir::all_param_types(h, block)
    } else {
        ir::param_types(h, block)
    }
}

/// `h` and a jump to `target` that passes a zero for each of its parameters.
pub open spec fn jump_with_zeroes(h: Seq<Request>, target: Block) -> Option<Seq<Request>> {
    if target.0 < ir::block_count(h) {
        match zeroes(h, Seq::empty(), types_of(h, target)) {
            Some((h1, args)) => ir::emit(h1, Inst::Jump { target, args }),
            None => None,
        }
    } else {
        None
    }
}

impl Cursor {
    /// A block is created, and added to those that are known.
    pub open spec fn create(self) -> Option<Cursor> {
        match ir::create_block(self.code) {
            Some(code) => Some(
                Cursor {
                    code,
                    manager: ManagerState {
                        stack: self.manager.stack.push(ir::next_block(self.code)),
                        ..self.manager
                    },
                },
            ),
            None => None,
        }
    }

    /// The open block is made to jump to `target`, unless it ends already, and
    /// is sealed, unless it is already. No block is open afterwards.
    pub open spec fn jump_to(self, target: Block) -> Option<Cursor> {
        match self.manager.current {
            Some(block) => {
                let left = if ir::terminated(self.code, block) {
                    Some(self.code)
                } else {
                    jump_with_zeroes(self.code, target)
                };
                let closed = match left {
                    Some(h) => if self.manager.sealed.contains(block.0) {
                        Some(h)
                    } else {
                        ir::seal(h, block)
                    },
                    None => None,
                };
                match closed {
                    Some(code) => Some(
                        Cursor {
                            code,
                            manager: ManagerState {
                                sealed: self.manager.sealed.insert(block.0),
                                current: None,
                                ..self.manager
                            },
                        },
                    ),
                    None => None,
                }
            },
            None => Some(self),
        }
    }

    /// Whether the open block, if it is to be left by a jump to `target`, can be,
    /// as far as blocks are concerned.
    pub open spec fn may_jump_to(self, target: Block) -> bool {
        match self.manager.current {
            Some(block) => {
                &&& !self.manager.sealed.contains(block.0) ==> ir::created(self.code, block)
                    && !ir::sealed(self.code, block) && ir::has_room(self.code)
                    && ir::fits(self.code, 0)
                &&& !ir::terminated(self.code, block) ==> {
                    &&& ir::has_room(self.code)
                    &&& ir::fits(self.code, ir::width() + 1)
                    &&& ir::created(self.code, target)
                    &&& !ir::sealed(self.code, target)
                    &&& ir::position(self.code) matches Some(at)
                    &&& !ir::filled(self.code, at)
                    &&& !ir::terminated(self.code, at)
                }
            },
            None => true,
        }
    }

    /// The open block is left for `block`, as by a jump, and `block` is opened.
    pub open spec fn switch_to(self, block: Block) -> Option<Cursor> {
        match self.jump_to(block) {
            Some(c) => match ir::switch_to(c.code, block) {
                Some(code) => Some(
                    Cursor {
                        code,
                        manager: ManagerState {
                            current: Some(block),
                            stack: if c.manager.stack.contains(block) {
                                c.manager.stack
                            } else {
                                c.manager.stack.push(block)
                            },
                            ..c.manager
                        },
                    },
                ),
                None => None,
            },
            None => None,
        }
    }

    /// `block` is sealed, unless it is already. If it is the open block, it is
    /// closed, and returns zero unless it ends already.
    pub open spec fn seal(self, block: Block) -> Option<Cursor> {
        if self.manager.sealed.contains(block.0) {
            Some(self)
        } else {
            let ended = if self.manager.current == Some(block) && !ir::terminated(
                self.code,
                block,
            ) {
                return_zero(self.code, self.manager.int)
            } else {
                Some(self.code)
            };
            match ended {
                Some(h) => match ir::seal(h, block) {
                    Some(code) => Some(
                        Cursor {
                            code,
                            manager: ManagerState {
                                sealed: self.manager.sealed.insert(block.0),
                                current: if self.manager.current == Some(block) {
                                    None
                                } else {
                                    self.manager.current
                                },
                                ..self.manager
                            },
                        },
                    ),
                    None => None,
                },
                None => None,
            }
        }
    }

    /// The given blocks are sealed, one after the other.
    pub open spec fn seal_all(self, blocks: Seq<Block>) -> Option<Cursor>
        decreases blocks.len(),
    {
        if blocks.len() == 0 {
            Some(self)
        } else {
            match self.seal(blocks[0]) {
                Some(c) => c.seal_all(blocks.skip(1)),
                None => None,
            }
        }
    }

    /// All blocks that are known are sealed, and forgotten.
    pub open spec fn finalize(self) -> Option<Cursor> {
        match self.seal_all(self.manager.stack) {
            Some(c) => Some(
                Cursor {
                    code: c.code,
                    manager: ManagerState::fresh(c.manager.int),
                },
            ),
            None => None,
        }
    }
}

/// `h` and a return of zero.
pub open spec fn return_zero(h: Seq<Request>, word: IntType) -> Option<Seq<Request>> {
    match ir::emit(h, Inst::Iconst { ty: word, imm: 0 }) {
        Some(h1) => ir::emit(h1, Inst::Return { args: seq![h1] }),
        None => None,
    }
}

/// Tracks the blocks of a function and sees to it that they are sealed.
pub struct BlockManager {
    block_stack: Vec<Block>,
    sealed_blocks: HashSet<u32>,
    current_block: Option<Block>,
    int: IntType,
}

impl View for BlockManager {
    type V = ManagerState;

    closed spec fn view(&self) -> ManagerState {
        ManagerState {
            stack: self.block_stack@,
            sealed: self.sealed_blocks@,
            current: self.current_block,
            int: self.int,
        }
    }
}

/// The function that `builder` is set on, with the manager of its blocks.
pub open spec fn cursor(builder: FunctionBuilder<'_>, manager: BlockManager) -> Cursor {
    Cursor { code: history(builder), manager: manager@ }
}

/// Emits a return of zero.
pub(crate) fn emit_return_zero(builder: &mut FunctionBuilder<'_>, word: IntType)
    requires
        return_zero(history(*old(builder)), word) is Some,
    ensures
        grown(*old(builder), *final(builder), return_zero(history(*old(builder)), word)),
{
    let zero = clif::iconst(builder, word, 0);
    let mut args: Vec<Value> = Vec::new();
    args.push(zero);
    assert(ir::origins(args@) =~= seq![zero@]);
    clif::return_(builder, &args);
}

impl BlockManager {
    /// A manager that knows no block.
    pub fn new(int_type: IntType) -> (manager: BlockManager)
        ensures
            manager@ == ManagerState::fresh(int_type),
    {
        let manager = BlockManager {
            block_stack: Vec::new(),
            sealed_blocks: HashSet::new(),
            current_block: None,
            int: int_type,
        };
        assert(manager@.stack =~= Seq::<Block>::empty());
        assert(manager@.sealed =~= Set::<u32>::empty());
        manager
    }

    /// Creates a block, and keeps it in mind.
    pub fn create_block(&mut self, builder: &mut FunctionBuilder<'_>) -> (block: Block)
        requires
            ir::create_block(history(*old(builder))) is Some,
        ensures
            cursor(*old(builder), *old(self)).create() == Some(
                cursor(*final(builder), *final(self)),
            ),
            final(self)@.stack == old(self)@.stack.push(block),
            goal(*final(builder)) == goal(*old(builder)),
            block == ir::next_block(history(*old(builder))),
    {
        let block = clif::create_block(builder);
        self.block_stack.push(block);
        block
    }

    /// Emits a zero for each parameter of `target`, and a jump that passes them.
    fn emit_jump(&self, builder: &mut FunctionBuilder<'_>, target: Block)
        requires
            jump_with_zeroes(history(*old(builder)), target) is Some,
        ensures
            grown(*old(builder), *final(builder), jump_with_zeroes(history(*old(builder)), target)),
    {
        let ghost h0 = history(*builder);
        let n: usize = clif::block_param_count(builder, target);
        let mut types: Vec<Type> = Vec::new();
        let mut i: usize = 0;
        while i < n
            invariant
                i <= n,
                n == ir::all_param_types(h0, target).len(),
                h0 == history(*builder),
                goal(*builder) == goal(*old(builder)),
                target.0 < ir::block_count(h0),
                !ir::inserted(h0, target) ==> n == ir::param_types(h0, target).len(),
                types@ =~= types_of(h0, target).take(i as int),
            decreases n - i,
        {
            types.push(clif::block_param_type(builder, target, i));
            i = i + 1;
        }
        assert(types@ =~= types_of(h0, target));
        let mut args: Vec<Value> = Vec::new();
        let mut k: usize = 0;
        assert(types@.skip(0) =~= types@);
        assert(ir::origins(args@) =~= Seq::empty());
        while k < types.len()
            invariant
                k <= types@.len(),
                types@ == types_of(h0, target),
                goal(*builder) == goal(*old(builder)),
                zeroes(h0, Seq::empty(), types@) is Some,
                zeroes(history(*builder), ir::origins(args@), types@.skip(k as int)) == zeroes(
                    h0,
                    Seq::empty(),
                    types@,
                ),
            decreases types@.len() - k,
        {
            assert(types@.skip(k as int)[0] == types@[k as int]);
            assert(types@.skip(k as int).skip(1) =~= types@.skip(k + 1));
            let zero = match types[k] {
                Type::Int(ty) => clif::iconst(builder, ty, 0),
                Type::Float { .. } => clif::float_zero(builder),
                Type::Other => unreached(),
            };
            assert(ir::origins(args@.push(zero)) =~= ir::origins(args@).push(zero@));
            args.push(zero);
            k = k + 1;
        }
        clif::jump(builder, target, &args);
    }

    /// Switches to another block.
    ///
    /// If there is an open block, it is made to jump to the new one, with zeroes
    /// for the parameters, unless it ends already, and is sealed, unless it is
    /// already. Then the new block is opened.
    pub fn switch_to_block(&mut self, builder: &mut FunctionBuilder<'_>, new_block: Block)
        requires
            cursor(*old(builder), *old(self)).switch_to(new_block) is Some,
        ensures
            cursor(*old(builder), *old(self)).switch_to(new_block) == Some(
                cursor(*final(builder), *final(self)),
            ),
            goal(*final(builder)) == goal(*old(builder)),
    {
        self.jump_to_block(builder, new_block);
        clif::switch_to_block(builder, new_block);
        self.current_block = Some(new_block);
        let mut known = false;
        let mut i: usize = 0;
        while i < self.block_stack.len()
            invariant
                i <= self.block_stack@.len(),
                known == self.block_stack@.take(i as int).contains(new_block),
            decreases self.block_stack@.len() - i,
        {
            assert(self.block_stack@.take(i + 1) =~= self.block_stack@.take(i as int).push(
                self.block_stack@[i as int],
            ));
            if self.block_stack[i] == new_block {
                known = true;
                assert(self.block_stack@.take(i + 1)[i as int] == new_block);
            }
            proof {
                if known && self.block_stack@[i as int] != new_block {
                    let k = choose|k: int|
                        0 <= k < i && self.block_stack@.take(i as int)[k] == new_block;
                    assert(self.block_stack@.take(i + 1)[k] == new_block);
                }
            }
            i = i + 1;
        }
        assert(self.block_stack@.take(i as int) =~= self.block_stack@);
        if !known {
            self.block_stack.push(new_block);
        }
    }

    /// Seals a block.
    ///
    /// If it is the open block and does not end yet, a return of zero is
    /// emitted. If it is sealed already, nothing is done.
    pub fn seal(&mut self, builder: &mut FunctionBuilder<'_>, block: Block)
        requires
            cursor(*old(builder), *old(self)).seal(block) is Some,
        ensures
            cursor(*old(builder), *old(self)).seal(block) == Some(
                cursor(*final(builder), *final(self)),
            ),
            goal(*final(builder)) == goal(*old(builder)),
    {
        if self.sealed_blocks.contains(&block.0) {
            return ;
        }
        if self.current_block == Some(block) && !self.is_block_terminated(builder, block) {
            emit_return_zero(builder, self.int);
        }
        clif::seal_block(builder, block);
        self.sealed_blocks.insert(block.0);
        if self.current_block == Some(block) {
            self.current_block = None;
        }
    }

    /// Makes the open block jump to `target`, unless it ends already, and seals
    /// it, unless it is already. No block is open afterwards.
    pub fn jump_to_block(&mut self, builder: &mut FunctionBuilder<'_>, target: Block)
        requires
            cursor(*old(builder), *old(self)).jump_to(target) is Some,
        ensures
            cursor(*old(builder), *old(self)).jump_to(target) == Some(
                cursor(*final(builder), *final(self)),
            ),
            goal(*final(builder)) == goal(*old(builder)),
    {
        if let Some(curr) = self.current_block {
            if !self.is_block_terminated(builder, curr) {
                self.emit_jump(builder, target);
            }
            if !self.sealed_blocks.contains(&curr.0) {
                clif::seal_block(builder, curr);
                self.sealed_blocks.insert(curr.0);
            }
            self.current_block = None;
            assert(self@.sealed =~= old(self)@.sealed.insert(curr.0));
        }
    }

    /// Does what `jump_to_block` does, unless `target` has a parameter of a type
    /// of which there is no zero to pass. Says whether it was done.
    pub fn try_jump_to_block(&mut self, builder: &mut FunctionBuilder<'_>, target: Block) -> (done:
        bool)
        requires
            cursor(*old(builder), *old(self)).may_jump_to(target),
        ensures
            goal(*final(builder)) == goal(*old(builder)),
            done ==> cursor(*old(builder), *old(self)).jump_to(target) == Some(
                cursor(*final(builder), *final(self)),
            ),
            !done ==> cursor(*old(builder), *old(self)).jump_to(target) is None && cursor(
                *final(builder),
                *final(self),
            ) == cursor(*old(builder), *old(self)),
    {
        let ghost h = history(*builder);
        if let Some(curr) = self.current_block {
            if !self.is_block_terminated(builder, curr) {
                let able = self.can_pass_zeroes(builder, target);
                proof {
                    let types = types_of(h, target);
                    ir::lemma_fits_less(h, ir::width() + 1, types.len() + 1);
                    lemma_zeroes(h, Seq::empty(), types);
                }
                if !able {
                    return false;
                }
                proof {
                    let (h1, args) = zeroes(h, Seq::empty(), types_of(h, target))->0;
                    let at = ir::position(h)->0;
                    let r = Request::Emit { block: at, inst: Inst::Jump { target, args } };
                    ir::lemma_push(h1, r);
                    ir::lemma_fits(h1, 1, r);
                }
            }
        }
        self.jump_to_block(builder, target);
        true
    }

    /// Whether there is a zero for each parameter of `target`.
    fn can_pass_zeroes(&self, builder: &FunctionBuilder<'_>, target: Block) -> (yes: bool)
        requires
            target.0 < ir::block_count(history(*builder)),
        ensures
            yes == have_zeroes(types_of(history(*builder), target)),
            ir::has_room(history(*builder)) ==> types_of(history(*builder), target).len()
                <= ir::width(),
    {
        let n: usize = clif::block_param_count(builder, target);
        let mut i: usize = 0;
        while i < n
            invariant
                i <= n,
                n == types_of(history(*builder), target).len(),
                ir::has_room(history(*builder)) ==> n <= ir::width(),
                n == ir::all_param_types(history(*builder), target).len(),
                target.0 < ir::block_count(history(*builder)),
                forall|k: int|
                    0 <= k < i ==> has_zero(#[trigger] types_of(history(*builder), target)[k]),
            decreases n - i,
        {
            let known = match clif::block_param_type(builder, target, i) {
                Type::Int(ty) => ty.bits == 8 || ty.bits == 16 || ty.bits == 32 || ty.bits == 64,
                Type::Float { .. } => true,
                Type::Other => false,
            };
            assert(known == has_zero(types_of(history(*builder), target)[i as int]));
            if !known {
                return false;
            }
            i = i + 1;
        }
        true
    }

    /// Leaves the open block as it is; no block is open afterwards.
    pub(crate) fn close(&mut self)
        ensures
            final(self)@ == (ManagerState { current: None, ..old(self)@ }),
    {
        self.current_block = None;
    }

    /// Seals all blocks that were created or switched to and are not sealed yet,
    /// and forgets all blocks.
    pub fn finalize_blocks(&mut self, builder: &mut FunctionBuilder<'_>)
        requires
            cursor(*old(builder), *old(self)).finalize() is Some,
        ensures
            cursor(*old(builder), *old(self)).finalize() == Some(
                cursor(*final(builder), *final(self)),
            ),
            goal(*final(builder)) == goal(*old(builder)),
    {
        let ghost start = cursor(*builder, *self);
        let n: usize = self.block_stack.len();
        let mut i: usize = 0;
        assert(start.manager.stack.skip(0) =~= start.manager.stack);
        while i < n
            invariant
                i <= n,
                n == start.manager.stack.len(),
                self@.stack == start.manager.stack,
                goal(*builder) == goal(*old(builder)),
                start.seal_all(start.manager.stack) is Some,
                cursor(*builder, *self).seal_all(start.manager.stack.skip(i as int))
                    == start.seal_all(start.manager.stack),
            decreases n - i,
        {
            assert(start.manager.stack.skip(i as int)[0] == start.manager.stack[i as int]);
            assert(start.manager.stack.skip(i as int).skip(1) =~= start.manager.stack.skip(i + 1));
            let block = self.block_stack[i];
            self.seal(builder, block);
            i = i + 1;
        }
        self.block_stack.clear();
        self.current_block = None;
        self.sealed_blocks.clear();
        assert(self@.stack =~= Seq::<Block>::empty());
        assert(self@.sealed =~= Set::<u32>::empty());
    }

    /// Whether the last instruction of a block is a terminator.
    pub fn is_block_terminated(&self, builder: &FunctionBuilder<'_>, block: Block) -> (yes: bool)
        ensures
            yes == ir::terminated(history(*builder), block),
    {
        match clif::last_inst(builder, block) {
            Some(inst) => clif::is_terminator(builder, inst),
            None => false,
        }
    }

    /// The open block, if there is one.
    pub fn get_current_block(&self) -> (block: Option<Block>)
        ensures
            block == self@.current,
    {
        self.current_block
    }

    /// Whether a block is part of the layout of the function.
    pub fn is_block_inserted(&self, builder: &FunctionBuilder<'_>, block: Block) -> (yes: bool)
        ensures
            yes == ir::inserted(history(*builder), block),
    {
        clif::is_block_inserted(builder, block)
    }
}

} // verus!
