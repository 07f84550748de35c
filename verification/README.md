# lua_jit

A just-in-time compiler for Lua. Syntax trees are lowered to Cranelift IR, put
into a JIT module and compiled to machine code. The library under `src/` is
verified with Verus; `app/` sets it up with the helper functions of a process.

## How it is described

A function under construction is described by the sequence of requests made to
its builder (`src/ir.rs`). Where instructions go, which blocks are sealed and
what values there are is read off that sequence. A module is described by what
was declared and defined in it (`src/module.rs`).

`src/lowering.rs` says what a program is lowered to: a function from a state
(the requests so far, the blocks, the variables in scope, the module) and a piece
of syntax to the next state. It is partial. There is no next state where

- a construct has no lowering (`...`, `break`, generic `for`, bitwise operators
  and powers, entries of a table without a name),
- the builder would be asked for something that it asserts not to be asked for,
  such as an instruction behind a terminator, or a branch to a sealed block,
- a name is needed for a function and taken by data, or the other way round,
- there are more instructions, blocks, parameters, variables or imports than can be
  numbered, or more bytes of data than can be addressed.

The executable code (`src/blocks.rs`, `src/translator.rs`, `src/jit.rs`) is
proved to bring about exactly the state that is described. An error can only be
reported where something is to be defined in the module, where `main` is taken,
or where the memory of finished code cannot be protected.

## Layout

- `ast.rs`: syntax trees
- `ir.rs`: requests to a function builder, and what follows from them
- `clif.rs`, `module.rs`: calls into Cranelift, with what is taken for granted of
  each
- `blocks.rs`: the block manager
- `lowering.rs`: what programs are lowered to
- `translator.rs`: the lowering itself
- `jit.rs`: the compiler
- `runtime.rs`: the helper functions that compiled code calls
- `growth.rs`: nothing is taken away from a function or from the module
- `scoping.rs`: which variables names stand for
- `laws.rs`: what holds of the compiler as a whole
