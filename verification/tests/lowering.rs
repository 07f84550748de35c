use cranelift::codegen::settings;
use cranelift::codegen::settings::Configurable;
use cranelift::codegen::Context;
use cranelift_jit::{JITBuilder, JITModule};
use lua_jit::ast::{
    Expression, Field, FunctionCall, FunctionName, InfixOp, Number, Params, Statement, UnaryOp,
};
use lua_jit::ir::{IntType, Signature};
use lua_jit::translator::{translate_program, Program};

fn module() -> JITModule {
    let mut flags = settings::builder();
    flags.set("use_colocated_libcalls", "false").unwrap();
    flags.set("is_pic", "false").unwrap();
    let isa = cranelift_native::builder().unwrap().finish(settings::Flags::new(flags)).unwrap();
    JITModule::new(JITBuilder::with_isa(isa, cranelift_module::default_libcall_names()))
}

/// The IR that a program is lowered to.
fn lower(names: &[&str], block: Vec<Statement>) -> String {
    let mut program = Program::new(module());
    let mut ctx = Context::new();
    let params: Vec<String> = names.iter().map(|n| n.to_string()).collect();
    let signature =
        Signature { int: IntType { bits: 64 }, params: params.len(), returns: 1 };
    let r = translate_program(&mut program, &mut ctx, signature, &params, &block);
    assert!(r.is_ok());
    ctx.func.display().to_string()
}

fn num(i: i64) -> Expression {
    Expression::Number(Number::Integer(i))
}

fn var(name: &str) -> Expression {
    Expression::Var(name.to_string())
}

fn text(s: &str) -> Expression {
    Expression::String(s.as_bytes().to_vec())
}

fn infix(op: InfixOp, exprs: Vec<Expression>) -> Expression {
    Expression::Infix(op, exprs)
}

fn local(name: &str, e: Expression) -> Statement {
    Statement::Local { vars: vec![(name.to_string(), None)], exprs: vec![e] }
}

fn assign(target: Expression, e: Expression) -> Statement {
    Statement::Assign { vars: vec![target], exprs: vec![e] }
}

fn keep(e: Expression) -> Statement {
    assign(var("kept"), e)
}

fn field(table: Expression, name: &str) -> Expression {
    Expression::Field(Box::new(table), name.to_string())
}

/// Asserts that a program is lowered to IR with the given lines, in their order.
fn check(names: &[&str], block: Vec<Statement>, lines: &[&str]) {
    let ir = lower(names, block);
    let mut rest: &str = &ir;
    for line in lines {
        match rest.find(line) {
            Some(at) => rest = &rest[at + line.len()..],
            None => panic!("no {:?} in\n{}", line, ir),
        }
    }
}

fn call(prefix: Expression, args: Vec<Expression>) -> Statement {
    Statement::FunctCall(FunctionCall { prefix, args })
}

#[test]
fn the_empty_program_returns_zero() {
    check(&[], vec![], &["block0:\n", "v0 = iconst.i64 0\n", "return v0"]);
}

#[test]
fn an_integer_is_stored_in_a_global() {
    check(
        &[],
        vec![keep(num(42))],
        &[
            "v0 = iconst.i64 42\n",
            "v1 = symbol_value.i64 gv0\n",
            "store notrap aligned v0, v1",
            "v2 = iconst.i64 0\n",
            "return v2",
        ],
    );
}

#[test]
fn truth_values_are_one_and_zero() {
    check(&[], vec![keep(Expression::Boolean(true))], &["v0 = iconst.i64 1\n"]);
    check(&[], vec![keep(Expression::Boolean(false))], &["v0 = iconst.i64 0\n"]);
}

#[test]
fn nil_is_a_null_reference() {
    check(&[], vec![keep(Expression::Nil)], &["v0 = null.i64 \n"]);
}

#[test]
fn a_name_that_stands_for_nothing_is_zero() {
    check(&[], vec![keep(var("nobody"))], &["v0 = iconst.i64 0\n", "store notrap aligned v0"]);
}

#[test]
fn operators_go_from_left_to_right() {
    check(
        &["a", "b"],
        vec![keep(infix(InfixOp::Sub, vec![var("a"), var("b"), num(3)]))],
        &[
            "block0(v0: i64, v1: i64):\n",
            "v2 = iconst.i64 3\n",
            "v3 = isub v0, v1\n",
            "v4 = isub v3, v2",
        ],
    );
}

#[test]
fn each_operator_has_its_instruction() {
    for (op, name) in [
        (InfixOp::Add, "iadd"),
        (InfixOp::Sub, "isub"),
        (InfixOp::Mul, "imul"),
        (InfixOp::Div, "sdiv"),
        (InfixOp::FloorDiv, "udiv"),
        (InfixOp::Mod, "srem"),
    ] {
        let line = format!("v2 = {} v0, v1\n", name);
        check(&["a", "b"], vec![keep(infix(op, vec![var("a"), var("b")]))], &[&line]);
    }
}

#[test]
fn comparisons_are_widened() {
    for (op, name) in [
        (InfixOp::Less, "slt"),
        (InfixOp::LessEq, "sle"),
        (InfixOp::Greater, "sgt"),
        (InfixOp::GreaterEq, "sge"),
        (InfixOp::Eq, "eq"),
        (InfixOp::NotEq, "ne"),
    ] {
        let line = format!("v2 = icmp {} v0, v1\n", name);
        check(
            &["a", "b"],
            vec![keep(infix(op, vec![var("a"), var("b")]))],
            &[&line, "v3 = uextend.i64 v2\n", "store notrap aligned v3"],
        );
    }
}

#[test]
fn unary_operators_have_their_instructions() {
    let unary = |op| vec![keep(Expression::Unary(op, Box::new(var("a"))))];
    check(&["a"], unary(UnaryOp::Minus), &["v1 = ineg v0\n"]);
    check(&["a"], unary(UnaryOp::BitNot), &["v1 = bnot v0\n"]);
    check(&["a"], unary(UnaryOp::Not), &["v1 = icmp_imm eq v0, 0\n", "v2 = uextend.i64 v1\n"]);
    check(&["a"], unary(UnaryOp::Len), &["(i64) -> i64", "v1 = call fn0(v0)\n"]);
}

#[test]
fn concatenation_calls_a_helper_for_each_operand_but_the_first() {
    check(
        &["a", "b", "c"],
        vec![keep(infix(InfixOp::Concat, vec![var("a"), var("b"), var("c")]))],
        &["v3 = call fn0(v0, v1)\n", "v4 = call fn0(v3, v2)\n"],
    );
}

#[test]
fn or_stops_at_the_first_operand_that_is_not_zero() {
    check(
        &["a"],
        vec![keep(infix(InfixOp::Or, vec![var("a"), num(3)]))],
        &[
            "icmp_imm ne v0, 0\n",
            "brif v2, block1(v0), block2\n",
            "block2:\n",
            "v3 = iconst.i64 3\n",
            "jump block1(v3)",
            "block1(v1: i64):\n",
            "store notrap aligned v1",
        ],
    );
}

#[test]
fn and_stops_at_the_first_operand_that_is_zero() {
    check(
        &["a"],
        vec![keep(infix(InfixOp::And, vec![var("a"), num(3)]))],
        &["icmp_imm eq v0, 0\n", "brif v2, block1(v0), block2\n"],
    );
}

#[test]
fn a_call_passes_its_arguments() {
    check(
        &["f", "x"],
        vec![call(var("f"), vec![num(1), var("x")])],
        &["sig0 = (i64, i64) -> i64", "v2 = iconst.i64 1\n", "v3 = call_indirect sig0, v0(v2, v1)"],
    );
}

#[test]
fn a_called_field_is_looked_up() {
    check(
        &["t"],
        vec![call(field(var("t"), "m"), vec![])],
        &[
            "v1 = symbol_value.i64 gv0\n",
            "v2 = call fn0(v0, v1)\n",
            "v3 = call_indirect sig1, v2()\n",
        ],
    );
}

#[test]
fn a_table_is_filled_after_it_is_made() {
    let table = Expression::Table(vec![Field::Named("x".to_string(), num(7))]);
    check(
        &[],
        vec![keep(table)],
        &[
            "v0 = call fn0()\n",
            "v1 = iconst.i64 7\n",
            "v2 = symbol_value.i64 gv0\n",
            "v3 = call fn1(v0, v2, v1)",
            "store notrap aligned v0",
        ],
    );
}

#[test]
fn entries_are_written_after_the_value_is_known() {
    let entry = Expression::Index(Box::new(var("t")), Box::new(num(1)));
    check(
        &["t"],
        vec![assign(entry, num(2))],
        &["v1 = iconst.i64 2\n", "v2 = iconst.i64 1\n", "v3 = call fn0(v0, v2, v1)"],
    );
    check(
        &["t"],
        vec![assign(field(var("t"), "f"), num(2))],
        &["v1 = iconst.i64 2\n", "v2 = symbol_value.i64 gv0\n", "v3 = call fn0(v0, v2, v1)"],
    );
}

#[test]
fn fields_of_the_table_of_globals_are_globals() {
    check(
        &[],
        vec![keep(field(var("_G"), "g"))],
        &[
            "v0 = symbol_value.i64 gv0\n",
            "v1 = load.i64 notrap aligned v0\n",
            "v2 = symbol_value.i64 gv1\n",
            "store notrap aligned v1, v2\n",
        ],
    );
    check(
        &["t"],
        vec![keep(field(var("t"), "g"))],
        &["v1 = iconst.i64 0\n", "store notrap aligned v1"],
    );
}

#[test]
fn what_a_do_block_declares_is_given_up() {
    check(
        &[],
        vec![
            local("x", num(1)),
            Statement::Do(vec![local("x", num(2)), keep(var("x"))]),
            keep(infix(InfixOp::Add, vec![var("x"), var("y")])),
        ],
        &[
            "v0 = iconst.i64 1\n",
            "jump block1\n",
            "v1 = iconst.i64 2\n",
            "jump block2\n",
            "; v2 = 2\n",
            "jump block3\n",
            "iadd.i64 v4, v5  ; v4 = 1, v5 = 0\n",
        ],
    );
}

#[test]
fn an_assignment_changes_the_innermost_variable() {
    check(
        &["x"],
        vec![local("y", num(1)), assign(var("y"), var("x")), keep(var("y"))],
        &["block0(v0: i64):\n", "iconst.i64 1\n", "jump block1", "jump block2", "store"],
    );
}

#[test]
fn what_follows_a_return_is_left_out() {
    let branch = vec![
        Statement::Return(vec![num(5)]),
        keep(num(6)),
        Statement::Break,
    ];
    let statement = Statement::If { ifcases: vec![(var("x"), branch)], elsecase: vec![] };
    let ir = lower(&["x"], vec![statement, keep(num(1))]);
    assert!(ir.contains("v1 = iconst.i64 5\n    return v1"), "{}", ir);
    assert!(!ir.contains("iconst.i64 6"), "{}", ir);
}

#[test]
fn an_if_statement_tests_its_conditions_in_turn() {
    let statement = Statement::If {
        ifcases: vec![
            (var("x"), vec![Statement::Return(vec![num(5)])]),
            (num(1), vec![Statement::Return(vec![])]),
        ],
        elsecase: vec![],
    };
    check(
        &["x"],
        vec![statement, keep(num(1))],
        &[
            "brif v0, block2, block3\n",
            "block2:\n",
            "return",
            "block3:\n",
            "brif v2, block4, block5",
            "block4:\n",
            "iconst.i64 0\n",
            "return",
            "block5:\n",
            "jump block1\n",
        ],
    );
}

#[test]
fn a_repeat_loop_ends_when_its_condition_holds() {
    check(
        &["x"],
        vec![Statement::Repeat { block: vec![], cond: var("x") }],
        &["jump block1\n", "block1:\n", "brif.i64 v1, block2, block1\n", "block2:\n", "return"],
    );
}

#[test]
fn the_address_of_a_function_is_stored() {
    let name = FunctionName { qname: vec!["a".to_string(), "b".to_string()] };
    let function =
        Statement::Function { name, params: Params { names: vec!["p".to_string()] }, body: vec![] };
    let ir = lower(&[], vec![function]);
    assert!(ir.contains("v0 = symbol_value.i64 gv0\n    v1 = iconst.i64 0x"), "{}", ir);
    assert!(ir.contains("store notrap aligned v1, v0"), "{}", ir);
}

#[test]
fn a_global_name_stands_for_one_data_object() {
    check(
        &[],
        vec![keep(num(1)), assign(var("other"), num(2)), keep(num(3))],
        &[
            "gv0 = symbol userextname0\n",
            "gv1 = symbol userextname1\n",
            "gv2 = symbol userextname0\n",
        ],
    );
}

#[test]
fn each_string_has_a_data_object_of_its_own() {
    check(
        &["f"],
        vec![call(var("f"), vec![text("same"), text("same")])],
        &[
            "gv0 = symbol userextname0\n",
            "gv1 = symbol userextname1\n",
        ],
    );
}

#[test]
fn the_empty_string_has_a_data_object() {
    check(
        &["f"],
        vec![call(var("f"), vec![text(""), text("")])],
        &[
            "gv0 = symbol userextname0\n",
            "gv1 = symbol userextname1\n",
            "v1 = symbol_value.i64 gv0\n",
            "v2 = symbol_value.i64 gv1\n",
            "v3 = call_indirect sig0, v0(v1, v2)",
        ],
    );
}

#[test]
fn literals_are_numbered_in_decimal() {
    let literals = (0..12).map(|i| text(&i.to_string())).collect();
    check(
        &["f"],
        vec![call(var("f"), literals)],
        &[
            "gv9 = symbol userextname9\n",
            "gv10 = symbol userextname10\n",
            "gv11 = symbol userextname11\n",
        ],
    );
}
