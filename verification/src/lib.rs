//! A just-in-time compiler for Lua.
pub mod ast;
pub mod behaviour;
pub mod blocks;
pub mod branching;
pub mod calm;
pub mod clif;
pub mod courses;
pub mod execution;
pub mod flow;
pub mod growth;
pub mod ir;
pub mod jit;
pub mod laws;
pub mod loops;
pub mod lowering;
pub mod machine;
pub mod meaning;
pub mod module;
pub mod paths;
pub mod results;
pub mod runtime;
pub mod scoping;
pub mod sealing;
pub mod sequel;
pub mod statements;
pub mod storing;
pub mod translator;
pub mod values;
