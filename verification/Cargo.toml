[package]
name = "lua_jit"
version = "0.1.0"
edition = "2021"
publish = false

[dependencies]
cranelift = "0.110"
cranelift-jit = "0.110"
cranelift-module = "0.110"
cranelift-native = "0.110"
