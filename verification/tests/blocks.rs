use cranelift::codegen::ir::Function;
use cranelift::prelude::types::{F64, I64, I8X16};
use cranelift::prelude::{AbiParam, FunctionBuilder, FunctionBuilderContext, InstBuilder};
use lua_jit::blocks::BlockManager;
use lua_jit::ir::{Block, IntType};

const WORD: IntType = IntType { bits: 64 };

/// A function that gives back one integer.
fn function() -> Function {
    let mut func = Function::new();
    func.signature.returns.push(AbiParam::new(I64));
    func
}

fn outside(block: Block) -> cranelift::prelude::Block {
    cranelift::prelude::Block::from_u32(block.0)
}

#[test]
fn a_new_manager_knows_no_block() {
    let manager = BlockManager::new(WORD);
    assert_eq!(manager.get_current_block(), None);
}

#[test]
fn blocks_are_numbered_from_zero() {
    let mut func = function();
    let mut scratch = FunctionBuilderContext::new();
    let mut builder = FunctionBuilder::new(&mut func, &mut scratch);
    let mut manager = BlockManager::new(WORD);
    assert_eq!(manager.create_block(&mut builder), Block(0));
    assert_eq!(manager.create_block(&mut builder), Block(1));
    assert_eq!(manager.get_current_block(), None);
    assert!(!manager.is_block_inserted(&builder, Block(0)));
    assert!(!manager.is_block_terminated(&builder, Block(0)));
}

#[test]
fn switching_opens_a_block() {
    let mut func = function();
    let mut scratch = FunctionBuilderContext::new();
    let mut builder = FunctionBuilder::new(&mut func, &mut scratch);
    let mut manager = BlockManager::new(WORD);
    let first = manager.create_block(&mut builder);
    manager.switch_to_block(&mut builder, first);
    assert_eq!(manager.get_current_block(), Some(first));
    assert!(!manager.is_block_inserted(&builder, first));
}

#[test]
fn switching_ends_the_open_block_with_a_jump() {
    let mut func = function();
    let mut scratch = FunctionBuilderContext::new();
    let mut builder = FunctionBuilder::new(&mut func, &mut scratch);
    let mut manager = BlockManager::new(WORD);
    let first = manager.create_block(&mut builder);
    let second = manager.create_block(&mut builder);
    manager.switch_to_block(&mut builder, first);
    manager.switch_to_block(&mut builder, second);
    assert_eq!(manager.get_current_block(), Some(second));
    assert!(manager.is_block_terminated(&builder, first));
    assert!(manager.is_block_inserted(&builder, first));
    manager.finalize_blocks(&mut builder);
    builder.finalize();
    let text = func.display().to_string();
    assert!(text.contains("jump block1"), "{}", text);
    assert!(text.contains("return v"), "{}", text);
}

#[test]
fn a_jump_passes_a_zero_for_each_parameter() {
    let mut func = function();
    let mut scratch = FunctionBuilderContext::new();
    let mut builder = FunctionBuilder::new(&mut func, &mut scratch);
    let mut manager = BlockManager::new(WORD);
    let first = manager.create_block(&mut builder);
    let second = manager.create_block(&mut builder);
    builder.append_block_param(outside(second), I64);
    builder.append_block_param(outside(second), F64);
    manager.switch_to_block(&mut builder, first);
    manager.jump_to_block(&mut builder, second);
    assert_eq!(manager.get_current_block(), None);
    manager.switch_to_block(&mut builder, second);
    manager.finalize_blocks(&mut builder);
    builder.finalize();
    let text = func.display().to_string();
    assert!(text.contains("iconst.i64 0"), "{}", text);
    assert!(text.contains("f64const 0.0"), "{}", text);
    assert!(text.contains("jump block1(v2, v3)"), "{}", text);
}

#[test]
fn a_jump_is_not_tried_where_there_is_no_zero() {
    let mut func = function();
    let mut scratch = FunctionBuilderContext::new();
    let mut builder = FunctionBuilder::new(&mut func, &mut scratch);
    let mut manager = BlockManager::new(WORD);
    let first = manager.create_block(&mut builder);
    let second = manager.create_block(&mut builder);
    let third = manager.create_block(&mut builder);
    builder.append_block_param(outside(second), I8X16);
    builder.append_block_param(outside(third), I64);
    manager.switch_to_block(&mut builder, first);
    assert!(!manager.try_jump_to_block(&mut builder, second));
    assert_eq!(manager.get_current_block(), Some(first));
    assert!(!manager.is_block_terminated(&builder, first));
    assert!(manager.try_jump_to_block(&mut builder, third));
    assert_eq!(manager.get_current_block(), None);
    assert!(manager.is_block_terminated(&builder, first));
}

#[test]
fn a_jump_without_an_open_block_does_nothing() {
    let mut func = function();
    let mut scratch = FunctionBuilderContext::new();
    let mut builder = FunctionBuilder::new(&mut func, &mut scratch);
    let mut manager = BlockManager::new(WORD);
    let first = manager.create_block(&mut builder);
    manager.jump_to_block(&mut builder, first);
    assert!(manager.try_jump_to_block(&mut builder, first));
    assert!(!manager.is_block_inserted(&builder, first));
}

#[test]
fn sealing_the_open_block_returns_zero() {
    let mut func = function();
    let mut scratch = FunctionBuilderContext::new();
    let mut builder = FunctionBuilder::new(&mut func, &mut scratch);
    let mut manager = BlockManager::new(WORD);
    let first = manager.create_block(&mut builder);
    manager.switch_to_block(&mut builder, first);
    manager.seal(&mut builder, first);
    assert_eq!(manager.get_current_block(), None);
    assert!(manager.is_block_terminated(&builder, first));
    builder.finalize();
    let text = func.display().to_string();
    assert!(text.contains("v0 = iconst.i64 0\n    return v0"), "{}", text);
}

#[test]
fn sealing_twice_is_sealing_once() {
    let mut func = function();
    let mut scratch = FunctionBuilderContext::new();
    let mut builder = FunctionBuilder::new(&mut func, &mut scratch);
    let mut manager = BlockManager::new(WORD);
    let first = manager.create_block(&mut builder);
    manager.switch_to_block(&mut builder, first);
    manager.seal(&mut builder, first);
    manager.seal(&mut builder, first);
    builder.finalize();
    assert_eq!(func.layout.block_insts(outside(first)).count(), 2);
}

#[test]
fn sealing_keeps_an_end_that_is_there() {
    let mut func = function();
    let mut scratch = FunctionBuilderContext::new();
    let mut builder = FunctionBuilder::new(&mut func, &mut scratch);
    let mut manager = BlockManager::new(WORD);
    let first = manager.create_block(&mut builder);
    manager.switch_to_block(&mut builder, first);
    let seven = builder.ins().iconst(I64, 7);
    builder.ins().return_(&[seven]);
    manager.seal(&mut builder, first);
    builder.finalize();
    let text = func.display().to_string();
    assert!(text.contains("v0 = iconst.i64 7\n    return v0"), "{}", text);
    assert_eq!(func.layout.block_insts(outside(first)).count(), 2);
}

#[test]
fn finalization_seals_all_and_forgets_all() {
    let mut func = function();
    let mut scratch = FunctionBuilderContext::new();
    let mut builder = FunctionBuilder::new(&mut func, &mut scratch);
    let mut manager = BlockManager::new(WORD);
    let first = manager.create_block(&mut builder);
    let second = manager.create_block(&mut builder);
    let third = manager.create_block(&mut builder);
    manager.switch_to_block(&mut builder, first);
    manager.switch_to_block(&mut builder, second);
    manager.switch_to_block(&mut builder, third);
    manager.finalize_blocks(&mut builder);
    assert_eq!(manager.get_current_block(), None);
    assert!(manager.is_block_terminated(&builder, third));
    builder.finalize();
    assert_eq!(func.layout.blocks().count(), 3);
}

#[test]
fn finalization_seals_blocks_that_were_only_created() {
    let mut func = function();
    let mut scratch = FunctionBuilderContext::new();
    let mut builder = FunctionBuilder::new(&mut func, &mut scratch);
    let mut manager = BlockManager::new(WORD);
    let first = manager.create_block(&mut builder);
    let spare = manager.create_block(&mut builder);
    manager.switch_to_block(&mut builder, first);
    manager.finalize_blocks(&mut builder);
    // A block that is sealed and that nothing goes to cannot be reached.
    builder.switch_to_block(outside(spare));
    assert!(builder.is_unreachable());
}

#[test]
fn a_block_that_was_sealed_before_it_was_opened_gets_its_jump() {
    let mut func = function();
    let mut scratch = FunctionBuilderContext::new();
    let mut builder = FunctionBuilder::new(&mut func, &mut scratch);
    let mut manager = BlockManager::new(WORD);
    let first = manager.create_block(&mut builder);
    let second = manager.create_block(&mut builder);
    manager.seal(&mut builder, first);
    manager.switch_to_block(&mut builder, first);
    assert!(!manager.is_block_terminated(&builder, first));
    manager.switch_to_block(&mut builder, second);
    assert!(manager.is_block_terminated(&builder, first));
    assert_eq!(manager.get_current_block(), Some(second));
    manager.finalize_blocks(&mut builder);
    builder.finalize();
    let text = func.display().to_string();
    assert!(text.contains("block0:\n    jump block1"), "{}", text);
}
