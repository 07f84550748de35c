use cranelift::codegen::settings;
use cranelift::codegen::settings::Configurable;
use cranelift_jit::JITBuilder;
use cranelift_module::ModuleError;
use lua_jit::ast::{
    Expression, Field, FunctionCall, FunctionName, InfixOp, Number, Params, Source, Statement,
    UnaryOp,
};
use lua_jit::jit::{answer, conclude, Helpers, Outcome, JIT};

/// Helper functions that are never called.
fn helpers() -> Helpers {
    Helpers {
        lua_len: 1,
        lua_newtable: 2,
        lua_settable: 3,
        lua_concat: 4,
        lua_next: 5,
        lua_gettable: 6,
    }
}

fn compiler() -> JIT {
    match JIT::new(helpers()) {
        Ok(jit) => jit,
        Err(text) => panic!("{}", text),
    }
}

fn num(i: i64) -> Expression {
    Expression::Number(Number::Integer(i))
}

fn var(name: &str) -> Expression {
    Expression::Var(name.to_string())
}

fn text(s: &str) -> Expression {
    Expression::String(s.as_bytes().to_vec())
}

fn infix(op: InfixOp, exprs: Vec<Expression>) -> Expression {
    Expression::Infix(op, exprs)
}

fn give(e: Expression) -> Statement {
    Statement::Return(vec![e])
}

fn keep(e: Expression) -> Statement {
    assign(var("kept"), e)
}

fn local(name: &str, e: Expression) -> Statement {
    Statement::Local { vars: vec![(name.to_string(), None)], exprs: vec![e] }
}

fn assign(target: Expression, e: Expression) -> Statement {
    Statement::Assign { vars: vec![target], exprs: vec![e] }
}

fn field(table: Expression, name: &str) -> Expression {
    Expression::Field(Box::new(table), name.to_string())
}

fn params(names: &[&str]) -> Params {
    Params { names: names.iter().map(|n| n.to_string()).collect() }
}

fn function(name: &[&str], names: &[&str], body: Vec<Statement>) -> Statement {
    Statement::Function {
        name: FunctionName { qname: name.iter().map(|n| n.to_string()).collect() },
        params: params(names),
        body,
    }
}

fn compile(block: Vec<Statement>) -> Result<(), String> {
    compiler().compile(&Source { block })
}

#[test]
fn the_empty_program_compiles() {
    assert_eq!(compile(vec![]), Ok(()));
}

#[test]
fn constants_compile() {
    assert_eq!(compile(vec![keep(num(42))]), Ok(()));
    assert_eq!(compile(vec![keep(Expression::Boolean(true))]), Ok(()));
    assert_eq!(compile(vec![keep(Expression::Number(Number::Float(2)))]), Ok(()));
}

#[test]
fn the_code_has_an_address() {
    let mut jit = compiler();
    let names = vec!["a".to_string(), "b".to_string()];
    let block = vec![keep(infix(InfixOp::Add, vec![var("a"), var("b")]))];
    let code = jit.compile_fn(&names, &block);
    assert!(matches!(code, Ok(address) if address != 0), "{:?}", code);
}

#[test]
fn a_second_program_is_refused() {
    let mut jit = compiler();
    assert_eq!(jit.compile(&Source { block: vec![keep(num(1))] }), Ok(()));
    assert_eq!(
        jit.compile(&Source { block: vec![keep(num(2))] }),
        Err("Duplicate definition of identifier: main".to_string())
    );
}

#[test]
fn a_second_program_of_another_shape_is_refused() {
    let mut jit = compiler();
    assert_eq!(jit.compile(&Source { block: vec![] }), Ok(()));
    let second = jit.compile_fn(&["x".to_string()], &[]);
    assert!(second.is_err());
}

#[test]
fn a_global_named_main_is_in_the_way() {
    let block = vec![assign(var("main"), num(1))];
    assert_eq!(
        compile(block),
        Err("Incompatible declaration of identifier: main".to_string())
    );
}

#[test]
fn there_is_no_code_for_nil() {
    assert!(compile(vec![keep(Expression::Nil)]).is_err());
}

#[test]
fn arithmetic_and_comparisons_compile() {
    for op in [
        InfixOp::Add,
        InfixOp::Sub,
        InfixOp::Mul,
        InfixOp::Div,
        InfixOp::FloorDiv,
        InfixOp::Mod,
        InfixOp::Less,
        InfixOp::LessEq,
        InfixOp::Greater,
        InfixOp::GreaterEq,
        InfixOp::Eq,
        InfixOp::NotEq,
        InfixOp::And,
        InfixOp::Or,
        InfixOp::Concat,
    ] {
        let block = vec![keep(infix(op, vec![num(6), num(3), num(2)]))];
        assert_eq!(compile(block), Ok(()), "{:?}", op);
    }
}

#[test]
fn one_operand_is_enough() {
    assert_eq!(compile(vec![keep(infix(InfixOp::Add, vec![num(6)]))]), Ok(()));
    assert_eq!(compile(vec![keep(infix(InfixOp::Or, vec![num(6)]))]), Ok(()));
}

#[test]
fn unary_operators_compile() {
    for op in [UnaryOp::Minus, UnaryOp::Not, UnaryOp::BitNot, UnaryOp::Len] {
        let block = vec![keep(Expression::Unary(op, Box::new(num(5))))];
        assert_eq!(compile(block), Ok(()), "{:?}", op);
    }
}

#[test]
fn locals_compile() {
    let block = vec![
        local("x", num(1)),
        local("x", infix(InfixOp::Add, vec![var("x"), num(1)])),
        keep(infix(InfixOp::Less, vec![var("x"), var("unknown")])),
    ];
    assert_eq!(compile(block), Ok(()));
}

#[test]
fn a_comparison_can_be_kept_in_a_local() {
    let block = vec![
        local("x", infix(InfixOp::Less, vec![num(1), num(2)])),
        local("y", infix(InfixOp::Eq, vec![var("x"), num(1)])),
        keep(var("y")),
    ];
    assert_eq!(compile(block), Ok(()));
}

#[test]
fn values_without_names_and_names_without_values_are_left_out() {
    let block = vec![
        Statement::Local {
            vars: vec![("a".to_string(), None), ("b".to_string(), Some("const".to_string()))],
            exprs: vec![num(1)],
        },
        Statement::Local { vars: vec![("c".to_string(), None)], exprs: vec![num(1), num(2)] },
        keep(var("b")),
    ];
    assert_eq!(compile(block), Ok(()));
}

#[test]
fn globals_compile() {
    let block = vec![
        assign(var("g"), num(1)),
        assign(field(var("_G"), "h"), field(var("_G"), "g")),
        assign(var("g"), num(2)),
    ];
    assert_eq!(compile(block), Ok(()));
}

#[test]
fn strings_and_tables_compile() {
    let table = Expression::Table(vec![
        Field::Named("x".to_string(), num(1)),
        Field::Named("y".to_string(), text("why")),
    ]);
    let block = vec![
        local("t", table),
        assign(field(var("t"), "x"), num(3)),
        assign(Expression::Index(Box::new(var("t")), Box::new(num(1))), text("one")),
        keep(Expression::Index(Box::new(var("t")), Box::new(text("x")))),
    ];
    assert_eq!(compile(block), Ok(()));
}

#[test]
fn calls_compile() {
    let call = FunctionCall { prefix: field(var("t"), "f"), args: vec![num(1), text("two")] };
    let other = FunctionCall { prefix: var("f"), args: vec![] };
    let block = vec![
        local("t", num(0)),
        Statement::FunctCall(call),
        keep(Expression::FunctCall(Box::new(other))),
    ];
    assert_eq!(compile(block), Ok(()));
}

#[test]
fn functions_compile() {
    let block = vec![
        function(&["add"], &["a", "b"], vec![]),
        function(&["point", "x"], &[], vec![]),
        local("f", Expression::FunctDef(params(&["n"]), vec![])),
        keep(var("f")),
    ];
    assert_eq!(compile(block), Ok(()));
}

#[test]
fn function_expressions_have_names_of_their_own() {
    let block = vec![
        local("f", Expression::FunctDef(params(&[]), vec![])),
        local("g", Expression::FunctDef(params(&["x"]), vec![])),
        keep(text("twelve")),
        keep(Expression::FunctDef(params(&[]), vec![])),
    ];
    assert_eq!(compile(block), Ok(()));
}

#[test]
fn a_function_with_many_literals_compiles() {
    let literals = (0..12).map(|i| keep(text(&format!("literal {}", i)))).collect();
    assert_eq!(compile(literals), Ok(()));
}

#[test]
fn a_global_keeps_its_place() {
    let block = vec![
        assign(var("g"), num(1)),
        assign(var("g"), num(2)),
        keep(field(var("_G"), "g")),
        assign(field(var("_G"), "g"), num(3)),
    ];
    assert_eq!(compile(block), Ok(()));
}

#[test]
fn nothing_after_a_return_is_looked_at() {
    let branch = vec![give(num(1)), Statement::Break, give(Expression::Ellipsis)];
    let block = vec![
        Statement::If { ifcases: vec![(num(1), branch)], elsecase: vec![] },
        keep(num(0)),
    ];
    assert_eq!(compile(block), Ok(()));
}

#[test]
fn a_do_block_gives_its_names_back() {
    let block = vec![
        local("x", num(1)),
        Statement::Do(vec![local("x", num(2)), local("y", var("x"))]),
        keep(infix(InfixOp::Add, vec![var("x"), var("y")])),
    ];
    assert_eq!(compile(block), Ok(()));
}

#[test]
fn an_if_statement_compiles() {
    let block = vec![
        local("x", num(1)),
        Statement::If {
            ifcases: vec![
                (infix(InfixOp::Less, vec![var("x"), num(2)]), vec![assign(var("x"), num(3))]),
                (infix(InfixOp::Eq, vec![var("x"), num(7)]), vec![give(num(8))]),
            ],
            elsecase: vec![give(num(9))],
        },
        keep(var("x")),
    ];
    assert_eq!(compile(block), Ok(()));
}

#[test]
fn returns_in_branches_compile() {
    let block = vec![
        Statement::If {
            ifcases: vec![
                (num(1), vec![Statement::Return(vec![])]),
                (num(2), vec![Statement::Return(vec![num(1), num(2)])]),
            ],
            elsecase: vec![],
        },
        keep(num(0)),
    ];
    assert_eq!(compile(block), Ok(()));
}

#[test]
fn a_repeat_loop_at_the_end_compiles() {
    let block = vec![
        local("x", num(1)),
        Statement::Repeat {
            block: vec![],
            cond: infix(InfixOp::Less, vec![var("x"), num(5)]),
        },
    ];
    assert_eq!(compile(block), Ok(()));
}

#[test]
fn code_that_does_not_verify_is_refused() {
    let block = vec![
        Statement::Repeat { block: vec![], cond: num(1) },
        keep(num(0)),
    ];
    assert_eq!(compile(block), Err("Compilation error: Verifier errors".to_string()));
}

#[test]
fn an_error_is_answered_with_its_text() {
    let error = || ModuleError::Undeclared("x".to_string());
    let text = "Undeclared identifier: x";
    assert_eq!(answer(Outcome::NotLowered(error())), Err(text.to_string()));
    assert_eq!(answer(Outcome::NotDeclared(error())), Err(text.to_string()));
    assert_eq!(answer(Outcome::NotDefined(error())), Err(text.to_string()));
    assert_eq!(
        answer(Outcome::NotFinalized(error())),
        Err("Failed to finalize definitions: Undeclared identifier: x".to_string())
    );
    assert_eq!(
        answer(Outcome::NotVerified("why".to_string())),
        Err("Verification failed: why".to_string())
    );
    assert_eq!(answer(Outcome::Finished(7)), Ok(7));
}

#[test]
fn parameters_are_bound_by_position() {
    let mut jit = compiler();
    let names = vec!["p".to_string(), "q".to_string()];
    let block = vec![assign(field(var("_G"), "g"), var("q"))];
    let code = jit.compile_fn(&names, &block);
    assert!(matches!(code, Ok(address) if address != 0), "{:?}", code);
}

#[test]
fn a_machine_that_is_not_supported_is_named() {
    let r = JIT::with_builder(Err("no such machine".to_string()), helpers());
    match r {
        Ok(_) => panic!("there is no builder"),
        Err(text) => assert_eq!(text, "host machine is not supported: no such machine"),
    }
}

#[test]
fn a_builder_makes_a_compiler() {
    let mut flags = settings::builder();
    flags.set("is_pic", "false").unwrap();
    let isa = cranelift_native::builder().unwrap().finish(settings::Flags::new(flags)).unwrap();
    let builder = JITBuilder::with_isa(isa, cranelift_module::default_libcall_names());
    match JIT::with_builder(Ok(builder), helpers()) {
        Ok(mut jit) => assert_eq!(jit.compile(&Source { block: vec![] }), Ok(())),
        Err(text) => panic!("{}", text),
    }
}

#[test]
fn the_first_failure_counts() {
    let error = |name: &str| ModuleError::Undeclared(name.to_string());
    let failed = || Err("unsound".to_string());
    let a = conclude(Err(error("a")), Err(error("b")), 7, failed());
    assert!(matches!(a, Outcome::NotDefined(ModuleError::Undeclared(name)) if name == "a"));
    let b = conclude(Ok(()), Err(error("b")), 7, failed());
    assert!(matches!(b, Outcome::NotFinalized(ModuleError::Undeclared(name)) if name == "b"));
    let c = conclude(Ok(()), Ok(()), 7, failed());
    assert!(matches!(c, Outcome::NotVerified(text) if text == "unsound"));
    let d = conclude(Ok(()), Ok(()), 7, Ok(()));
    assert!(matches!(d, Outcome::Finished(7)));
}

#[test]
fn the_empty_string_compiles() {
    assert_eq!(compile(vec![keep(text(""))]), Ok(()));
}

#[test]
fn a_long_string_compiles() {
    assert_eq!(compile(vec![keep(text(&"x".repeat(1 << 20)))]), Ok(()));
}

#[test]
fn a_program_can_define_a_helper_of_its_own() {
    let length = Expression::Unary(UnaryOp::Len, Box::new(num(5)));
    let block = vec![function(&["lua_len"], &["x"], vec![]), keep(length)];
    assert_eq!(compile(block), Ok(()));
}
