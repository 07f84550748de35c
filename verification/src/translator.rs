//! Lowering of Lua functions.
use cranelift::codegen::Context;
use cranelift::prelude::FunctionBuilder;
use cranelift_jit::JITModule;
use cranelift_module::ModuleError;
use vstd::hash_map::StringHashMap;
use vstd::pervasive::unreached;
use vstd::prelude::*;
use vstd::string::StringExecFns;

use crate::ast::{
    Expression, Field, FunctionCall, InfixOp, Number, Statement, UnaryOp,
};
use crate::blocks;
use crate::blocks::BlockManager;
use crate::clif;
use crate::clif::{body, goal, history};
use crate::growth;
use crate::growth::{excused, Holdings};
use crate::ir;
use crate::ir::{
    Block, DataId, FuncId, FuncRef, IntCC, IntType, Request, Signature, Value, Variable,
};
use crate::lowering;
use crate::lowering::{decimal, Fork, Lowering};
use crate::module;
use crate::module::{module_state, Linkage};

verus! {

/// The module, and the global names that have a data object in it.
pub struct Program {
    pub module: JITModule,
    pub globals: StringHashMap<DataId>,
}

impl Program {
    /// A program in a given module, without global names.
    pub fn new(module: JITModule) -> (program: Program)
        ensures
            program.module == module,
            program.globals@.dom() == Set::<Seq<char>>::empty(),
    {
        let program = Program { module, globals: StringHashMap::new() };
        assert(program.globals@.dom() =~= Set::<Seq<char>>::empty());
        program
    }
}

/// Lowers one function.
struct Translator<'a> {
    word: IntType,
    builder: FunctionBuilder<'a>,
    block_mgr: BlockManager,
    locals: StringHashMap<Vec<Variable>>,
    scopes: Vec<Vec<String>>,
    next_var: usize,
    string_counter: usize,
    terminated: bool,
}

/// The state of lowering a function into a program.
spec fn lowering(t: Translator<'_>, program: Program) -> Lowering {
    Lowering {
        word: t.word,
        code: history(t.builder),
        manager: t.block_mgr@,
        locals: locals_of(t.locals@),
        scopes: scopes_of(t.scopes@),
        next_var: t.next_var as nat,
        strings: t.string_counter as nat,
        terminated: t.terminated,
        module: module_state(program.module),
        globals: program.globals@,
    }
}

/// What a program holds.
pub open spec fn held(program: Program) -> Holdings {
    Holdings { module: module_state(program.module), globals: program.globals@ }
}

/// What the builder's function will be made from in the end.
spec fn goal_of(t: Translator<'_>) -> Seq<Request> {
    goal(t.builder)
}

spec fn locals_of(m: Map<Seq<char>, Vec<Variable>>) -> Map<Seq<char>, Seq<Variable>> {
    m.map_values(|v: Vec<Variable>| v@)
}

spec fn names_of(names: Seq<String>) -> Seq<Seq<char>> {
    names.map_values(|n: String| n@)
}

spec fn scopes_of(scopes: Seq<Vec<String>>) -> Seq<Seq<Seq<char>>> {
    scopes.map_values(|v: Vec<String>| names_of(v@))
}

/// A digit.
fn digit(d: usize) -> (text: &'static str)
    requires
        d < 10,
    ensures
        text@ == seq![((48 + d) as u8) as char],
{
    proof {
        reveal_strlit("0");
        reveal_strlit("1");
        reveal_strlit("2");
        reveal_strlit("3");
        reveal_strlit("4");
        reveal_strlit("5");
        reveal_strlit("6");
        reveal_strlit("7");
        reveal_strlit("8");
        reveal_strlit("9");
    }
    let text = match d {
        0 => "0",
        1 => "1",
        2 => "2",
        3 => "3",
        4 => "4",
        5 => "5",
        6 => "6",
        7 => "7",
        8 => "8",
        _ => "9",
    };
    assert(text@ =~= seq![((48 + d) as u8) as char]);
    text
}

/// A number in decimal notation.
fn to_decimal(n: usize) -> (text: String)
    ensures
        text@ == decimal(n as nat),
    decreases n,
{
    if n < 10 {
        digit(n).to_owned()
    } else {
        let mut text = to_decimal(n / 10);
        let ghost rest = text@;
        text.append(digit(n % 10));
        assert(text@ =~= rest.push(((48 + n % 10) as u8) as char));
        text
    }
}

impl<'a> Translator<'a> {
    /// Opens a scope.
    fn enter_scope(&mut self, program: &Program)
        ensures
            goal_of(*final(self)) == goal_of(*old(self)),
            lowering::enter_scope(
                lowering(*old(self), *program),
            ) == lowering(*final(self), *program),
    {
        let names: Vec<String> = Vec::new();
        self.scopes.push(names);
        assert(scopes_of(self.scopes@) =~= scopes_of(old(self).scopes@).push(Seq::empty())) by {
            assert(names_of(names@) =~= Seq::<Seq<char>>::empty());
        }
    }

    /// Closes the innermost scope.
    fn exit_scope(&mut self, program: &Program)
        ensures
            goal_of(*final(self)) == goal_of(*old(self)),
            lowering::exit_scope(Some(lowering(*old(self), *program))) == Some(
                lowering(*final(self), *program),
            ),
    {
        match self.scopes.pop() {
            Some(vars) => {
                let ghost before = locals_of(self.locals@);
                let ghost names = names_of(vars@);
                assert(scopes_of(self.scopes@) =~= scopes_of(old(self).scopes@).drop_last());
                assert(names == scopes_of(old(self).scopes@).last());
                let mut i: usize = 0;
                assert(names.take(0) =~= Seq::<Seq<char>>::empty());
                assert(before =~= lowering::without(before, names.take(0))) by {
                    assert forall|n: Seq<char>| before.contains_key(n) implies before[n]
                        =~= before[n].take(before[n].len() as int) by {}
                }
                while i < vars.len()
                    invariant
                        i <= vars@.len(),
                        names == names_of(vars@),
                        locals_of(self.locals@) == lowering::without(before, names.take(i as int)),
                        goal_of(*self) == goal_of(*old(self)),
                        self.scopes@ == old(self).scopes@.drop_last(),
                        self.word == old(self).word,
                        self.builder == old(self).builder,
                        self.block_mgr == old(self).block_mgr,
                        self.next_var == old(self).next_var,
                        self.string_counter == old(self).string_counter,
                        self.terminated == old(self).terminated,
                    decreases vars@.len() - i,
                {
                    let ghost m0 = locals_of(self.locals@);
                    let ghost name = names[i as int];
                    assert(names.take(i + 1) =~= names.take(i as int).push(name));
                    assert(vars@[i as int]@ == name);
                    proof {
                        lowering::lemma_without_push(before, names.take(i as int), name);
                    }
                    match self.locals.get(vars[i].as_str()) {
                        Some(stack) => {
                            let mut rest: Vec<Variable> = copied(stack);
                            rest.pop();
                            if rest.len() == 0 {
                                self.locals.remove(vars[i].as_str());
                                assert(locals_of(self.locals@) =~= m0.remove(name));
                            } else {
                                self.locals.insert(vars[i].clone(), rest);
                                assert(rest@ =~= m0[name].drop_last());
                                assert(locals_of(self.locals@) =~= m0.insert(name, rest@));
                            }
                        },
                        None => {},
                    }
                    i = i + 1;
                }
                assert(names.take(i as int) =~= names);
            },
            None => {},
        }
    }

    /// Gives `name` a new variable.
    fn declare_local(&mut self, program: &Program, name: &str) -> (var: Variable)
        requires
            lowering::declare_local(lowering(*old(self), *program), name@) is Some,
        ensures
            goal_of(*final(self)) == goal_of(*old(self)),
            var == Variable(lowering(*old(self), *program).next_var as u32),
            lowering::declare_local(
                lowering(*old(self), *program),
                name@,
            ) == Some(lowering(*final(self), *program)),
    {
        let var = Variable(self.next_var as u32);
        self.next_var = self.next_var + 1;
        let mut stack: Vec<Variable> = match self.locals.get(name) {
            Some(stack) => copied(stack),
            None => Vec::new(),
        };
        let ghost before = locals_of(self.locals@);
        assert(stack@ =~= lowering::stack_of(before, name@));
        stack.push(var);
        self.locals.insert(name.to_owned(), stack);
        assert(locals_of(self.locals@) =~= before.insert(
            name@,
            lowering::stack_of(before, name@).push(var),
        ));
        let ghost scopes0 = scopes_of(self.scopes@);
        match self.scopes.pop() {
            Some(mut scope) => {
                let ghost scope0 = names_of(scope@);
                scope.push(name.to_owned());
                assert(names_of(scope@) =~= scope0.push(name@));
                self.scopes.push(scope);
                assert(scopes_of(self.scopes@) =~= scopes0.update(
                    scopes0.len() - 1,
                    scopes0.last().push(name@),
                ));
            },
            None => {
                let mut scope: Vec<String> = Vec::new();
                scope.push(name.to_owned());
                assert(names_of(scope@) =~= seq![name@]);
                self.scopes.push(scope);
                assert(scopes_of(self.scopes@) =~= seq![seq![name@]]);
            },
        }
        clif::declare_var(&mut self.builder, var, self.word);
        var
    }

    /// The data object for the name of a global, which is made if there is none.
    fn declare_global(
        &self,
        program: &mut Program,
        name: &str,
        initializer: Option<&[u8]>,
    ) -> (r: Result<DataId, ModuleError>)
        requires
            lowering::declare_global(
                lowering(*self, *old(program)),
                name@,
                bytes_of(initializer),
            ) is Some,
        ensures
            r is Err ==> excused(
                held(*old(program)),
                held(*final(program)),
                (lowering::declare_global(
                lowering(*self, *old(program)),
                name@,
                bytes_of(initializer),
            )->0).0.module,
            ),
            r matches Ok(id) ==> lowering::declare_global(
                lowering(*self, *old(program)),
                name@,
                bytes_of(initializer),
            ) == Some((lowering(*self, *final(program)), id)),
    {
        proof {
            let m = module_state(program.module);
            growth::lemma_declare_global(lowering(*self, *program), name@, bytes_of(initializer));
            if m.data.len() < ir::limit() {
                let declared = m.declare_data(name@, Linkage::Export, true);
                growth::lemma_declare_data(m, name@, Linkage::Export, true);
                if m.backs(program.globals@) {
                    growth::lemma_backs(m, declared, program.globals@);
                }
            }
            reveal(excused);
        }
        if let Some(id) = program.globals.get(name) {
            return Ok(*id);
        }
        let id = match module::declare_data(&mut program.module, name, Linkage::Export, true) {
            Ok(id) => id,
            Err(_) => unreached(),
        };
        match initializer {
            Some(bytes) => module::define_data(&mut program.module, id, bytes)?,
            None => module::define_zeroes(&mut program.module, id, 8)?,
        }
        program.globals.insert(name.to_owned(), id);
        Ok(id)
    }

    /// The address of the data object for the name of a global.
    fn global_pointer(
        &mut self,
        program: &mut Program,
        name: &str,
        initializer: Option<&[u8]>,
    ) -> (r: Result<Value, ModuleError>)
        requires
            lowering::global_pointer(
                lowering(*old(self), *old(program)),
                name@,
                bytes_of(initializer),
            ) is Some,
        ensures
            goal_of(*final(self)) == goal_of(*old(self)),
            r is Err ==> excused(
                held(*old(program)),
                held(*final(program)),
                (lowering::global_pointer(
                lowering(*old(self), *old(program)),
                name@,
                bytes_of(initializer),
            )->0).0.module,
            ),
            r matches Ok(v) ==> lowering::global_pointer(
                lowering(*old(self), *old(program)),
                name@,
                bytes_of(initializer),
            ) == Some((lowering(*final(self), *final(program)), v@)),
    {
        proof {
            reveal(lowering::global_pointer);
        }
        let id = self.declare_global(program, name, initializer)?;
        let data = clif::import_data(&mut self.builder, &program.module, id);
        Ok(clif::symbol_value(&mut self.builder, self.word, data))
    }

    /// The address of a data object with the bytes of a string.
    fn string_pointer(
        &mut self,
        program: &mut Program,
        bytes: &[u8],
    ) -> (r: Result<Value, ModuleError>)
        requires
            lowering::string_pointer(
                lowering(*old(self), *old(program)),
                bytes@,
            ) is Some,
        ensures
            goal_of(*final(self)) == goal_of(*old(self)),
            r is Err ==> excused(
                held(*old(program)),
                held(*final(program)),
                (lowering::string_pointer(
                lowering(*old(self), *old(program)),
                bytes@,
            )->0).0.module,
            ),
            r matches Ok(v) ==> lowering::string_pointer(
                lowering(*old(self), *old(program)),
                bytes@,
            ) == Some((lowering(*final(self), *final(program)), v@)),
    {
        proof {
            reveal(lowering::string_pointer);
        }
        let name = "str_".to_owned().concat(to_decimal(self.string_counter).as_str());
        self.string_counter = self.string_counter + 1;
        self.global_pointer(program, name.as_str(), Some(bytes))
    }

    /// Writes a value to a global variable.
    fn store_global(&mut self, program: &mut Program, name: &str, v: Value) -> (r: Result<
        (),
        ModuleError,
    >)
        requires
            lowering::store_global(
                lowering(*old(self), *old(program)),
                name@,
                v@,
            ) is Some,
        ensures
            goal_of(*final(self)) == goal_of(*old(self)),
            r is Err ==> excused(
                held(*old(program)),
                held(*final(program)),
                (lowering::store_global(
                lowering(*old(self), *old(program)),
                name@,
                v@,
            )->0).module,
            ),
            r is Ok ==> lowering::store_global(
                lowering(*old(self), *old(program)),
                name@,
                v@,
            ) == Some(lowering(*final(self), *final(program))),
    {
        proof {
            reveal(lowering::store_global);
        }
        let ptr = self.global_pointer(program, name, None)?;
        clif::store(&mut self.builder, v, ptr, 0);
        Ok(())
    }

    /// Imports a helper function.
    fn import_helper(&mut self, program: &mut Program, name: &str, params: usize) -> (callee:
        FuncRef)
        requires
            lowering::import_helper(lowering(*old(self), *old(program)), name@, params) is Some,
        ensures
            goal_of(*final(self)) == goal_of(*old(self)),
            lowering::import_helper(
                lowering(*old(self), *old(program)),
                name@,
                params,
            ) == Some((lowering(*final(self), *final(program)), callee)),
    {
        let signature = Signature { int: self.word, params, returns: 1 };
        match module::declare_function(&mut program.module, name, Linkage::Import, signature) {
            Ok(id) => clif::import_function(&mut self.builder, &mut program.module, id),
            Err(_) => unreached(),
        }
    }

    /// Calls a helper function.
    fn call_helper(&mut self, program: &mut Program, name: &str, args: &Vec<Value>) -> (v: Value)
        requires
            lowering::call_helper(
                lowering(*old(self), *old(program)),
                name@,
                ir::origins(args@),
            ) is Some,
        ensures
            goal_of(*final(self)) == goal_of(*old(self)),
            lowering::call_helper(
                lowering(*old(self), *old(program)),
                name@,
                ir::origins(args@),
            ) == Some((lowering(*final(self), *final(program)), v@)),
    {
        proof {
            reveal(lowering::call_helper);
        }
        let callee = self.import_helper(program, name, args.len());
        clif::call(&mut self.builder, callee, args)
    }

    /// Widens a truth value to a Lua value.
    fn widen(&mut self, program: &Program, truth: Value) -> (v: Value)
        requires
            truth@ == lowering::made(Some(lowering(*old(self), *program))),
            lowering::widened(Some(lowering(*old(self), *program))) is Some,
        ensures
            goal_of(*final(self)) == goal_of(*old(self)),
            lowering::widened(
                Some(lowering(*old(self), *program)),
            ) == Some((lowering(*final(self), *program), v@)),
    {
        clif::uextend(&mut self.builder, self.word, truth)
    }

    /// Applies an operator to two values.
    fn apply(&mut self, program: &Program, op: InfixOp, x: Value, y: Value) -> (v: Value)
        requires
            lowering::apply(lowering(*old(self), *program), op, x@, y@) is Some,
        ensures
            goal_of(*final(self)) == goal_of(*old(self)),
            lowering::apply(
                lowering(*old(self), *program),
                op,
                x@,
                y@,
            ) == Some((lowering(*final(self), *program), v@)),
    {
        let cc = match op {
            InfixOp::Add => {
                return clif::iadd(&mut self.builder, x, y);
            },
            InfixOp::Sub => {
                return clif::isub(&mut self.builder, x, y);
            },
            InfixOp::Mul => {
                return clif::imul(&mut self.builder, x, y);
            },
            InfixOp::Div => {
                return clif::sdiv(&mut self.builder, x, y);
            },
            InfixOp::FloorDiv => {
                return clif::udiv(&mut self.builder, x, y);
            },
            InfixOp::Mod => {
                return clif::srem(&mut self.builder, x, y);
            },
            InfixOp::Less => IntCC::SignedLessThan,
            InfixOp::LessEq => IntCC::SignedLessThanOrEqual,
            InfixOp::Greater => IntCC::SignedGreaterThan,
            InfixOp::GreaterEq => IntCC::SignedGreaterThanOrEqual,
            InfixOp::Eq => IntCC::Equal,
            InfixOp::NotEq => IntCC::NotEqual,
            _ => unreached(),
        };
        let truth = clif::compare(&mut self.builder, cc, x, y);
        self.widen(program, truth)
    }

    /// Applies an operator to values, from left to right.
    fn combine(&mut self, program: &mut Program, op: InfixOp, values: &Vec<Value>) -> (v: Value)
        requires
            lowering::combine(
                lowering(*old(self), *old(program)),
                op,
                ir::origins(values@),
            ) is Some,
        ensures
            goal_of(*final(self)) == goal_of(*old(self)),
            lowering::combine(
                lowering(*old(self), *old(program)),
                op,
                ir::origins(values@),
            ) == Some((lowering(*final(self), *final(program)), v@)),
    {
        proof {
            reveal(lowering::combine);
        }
        let mut e = values[0];
        let mut i: usize = 1;
        if op == InfixOp::Concat {
            let callee = self.import_helper(program, "lua_concat", 2);
            while i < values.len()
                invariant
                    1 <= i <= values@.len(),
                    goal_of(*self) == goal_of(*old(self)),
                    lowering::call_chain(
                        lowering(*self, *program),
                        callee,
                        e@,
                        ir::origins(values@).skip(i as int),
                    ) == lowering::combine(
                        lowering(*old(self), *old(program)),
                        op,
                        ir::origins(values@),
                    ),
                    lowering::combine(
                        lowering(*old(self), *old(program)),
                        op,
                        ir::origins(values@),
                    ) is Some,
                decreases values@.len() - i,
            {
                let ghost origins = ir::origins(values@);
                assert(origins.skip(i as int)[0] == values@[i as int]@);
                assert(origins.skip(i as int).skip(1) =~= origins.skip(i + 1));
                let mut args: Vec<Value> = Vec::new();
                args.push(e);
                args.push(values[i]);
                assert(ir::origins(args@) =~= seq![e@, values@[i as int]@]);
                e = clif::call(&mut self.builder, callee, &args);
                i = i + 1;
            }
        } else {
            while i < values.len()
                invariant
                    1 <= i <= values@.len(),
                    goal_of(*self) == goal_of(*old(self)),
                    *program == *old(program),
                    lowering::apply_all(
                        lowering(*self, *program),
                        op,
                        e@,
                        ir::origins(values@).skip(i as int),
                    ) == lowering::combine(
                        lowering(*old(self), *old(program)),
                        op,
                        ir::origins(values@),
                    ),
                    lowering::combine(
                        lowering(*old(self), *old(program)),
                        op,
                        ir::origins(values@),
                    ) is Some,
                decreases values@.len() - i,
            {
                let ghost origins = ir::origins(values@);
                assert(origins.skip(i as int)[0] == values@[i as int]@);
                assert(origins.skip(i as int).skip(1) =~= origins.skip(i + 1));
                e = self.apply(program, op, e, values[i]);
                i = i + 1;
            }
        }
        e
    }

    /// Applies a unary operator to a value.
    fn apply_unary(&mut self, program: &mut Program, op: UnaryOp, arg: Value) -> (v: Value)
        requires
            lowering::apply_unary(lowering(*old(self), *old(program)), op, arg@) is Some,
        ensures
            goal_of(*final(self)) == goal_of(*old(self)),
            lowering::apply_unary(
                lowering(*old(self), *old(program)),
                op,
                arg@,
            ) == Some((lowering(*final(self), *final(program)), v@)),
    {
        proof {
            reveal(lowering::apply_unary);
        }
        match op {
            UnaryOp::Minus => clif::ineg(&mut self.builder, arg),
            UnaryOp::BitNot => clif::bnot(&mut self.builder, arg),
            UnaryOp::Not => {
                let truth = clif::compare_imm(&mut self.builder, IntCC::Equal, arg, 0);
                self.widen(program, truth)
            },
            UnaryOp::Len => {
                let mut args: Vec<Value> = Vec::new();
                args.push(arg);
                assert(ir::origins(args@) =~= seq![arg@]);
                self.call_helper(program, "lua_len", &args)
            },
        }
    }

    /// Calls a computed function.
    fn call_value(&mut self, program: &Program, callee: Value, args: &Vec<Value>) -> (v: Value)
        requires
            lowering::call_value(
                lowering(*old(self), *program),
                callee@,
                ir::origins(args@),
            ) is Some,
        ensures
            goal_of(*final(self)) == goal_of(*old(self)),
            lowering::call_value(
                lowering(*old(self), *program),
                callee@,
                ir::origins(args@),
            ) == Some(
                (lowering(*final(self), *program), v@),
            ),
    {
        proof {
            reveal(lowering::call_value);
        }
        let signature = Signature { int: self.word, params: args.len(), returns: 1 };
        let sig = clif::import_signature(&mut self.builder, &program.module, signature);
        clif::call_indirect(&mut self.builder, sig, callee, args)
    }

    /// The variable that `name` stands for, or zero.
    fn variable(&mut self, program: &Program, name: &str) -> (v: Value)
        requires
            lowering::variable(lowering(*old(self), *program), name@) is Some,
        ensures
            goal_of(*final(self)) == goal_of(*old(self)),
            lowering::variable(lowering(*old(self), *program), name@) == Some(
                (lowering(*final(self), *program), v@),
            ),
    {
        proof {
            reveal(lowering::variable);
        }
        let ghost before = locals_of(self.locals@);
        let var = match self.locals.get(name) {
            Some(stack) => {
                assert(stack@ == lowering::stack_of(before, name@));
                if stack.len() > 0 {
                    Some(stack[stack.len() - 1])
                } else {
                    None
                }
            },
            None => None,
        };
        match var {
            Some(var) => clif::use_var(&mut self.builder, var),
            None => clif::iconst(&mut self.builder, self.word, 0),
        }
    }

    /// Reads a global variable.
    fn load_global(&mut self, program: &mut Program, name: &str) -> (r: Result<Value, ModuleError>)
        requires
            lowering::load_global(lowering(*old(self), *old(program)), name@) is Some,
        ensures
            goal_of(*final(self)) == goal_of(*old(self)),
            r is Err ==> excused(
                held(*old(program)),
                held(*final(program)),
                (lowering::load_global(lowering(*old(self), *old(program)), name@)->0).0.module,
            ),
            r matches Ok(v) ==> lowering::load_global(
                lowering(*old(self), *old(program)),
                name@,
            ) == Some((lowering(*final(self), *final(program)), v@)),
    {
        proof {
            reveal(lowering::load_global);
        }
        let ptr = self.global_pointer(program, name, None)?;
        Ok(clif::load(&mut self.builder, self.word, ptr, 0))
    }

    /// Reads a field of a table.
    fn load_field(
        &mut self,
        program: &mut Program,
        table: Value,
        field: &str,
    ) -> (r: Result<Value, ModuleError>)
        requires
            lowering::load_field(lowering(*old(self), *old(program)), table@, field@) is Some,
        ensures
            goal_of(*final(self)) == goal_of(*old(self)),
            r is Err ==> excused(
                held(*old(program)),
                held(*final(program)),
                (
                    lowering::load_field(lowering(*old(self), *old(program)), table@, field@)->0
                ).0.module,
            ),
            r matches Ok(v) ==> lowering::load_field(
                lowering(*old(self), *old(program)),
                table@,
                field@,
            ) == Some((lowering(*final(self), *final(program)), v@)),
    {
        proof {
            reveal(lowering::load_field);
            let l = lowering(*self, *program);
            let (l1, key) = lowering::string_pointer(l, vstd::utf8::encode_utf8(field@))->0;
            growth::lemma_same(l.module);
            growth::lemma_call_helper(l1, "lua_gettable"@, seq![table@, key]);
            growth::lemma_excused(l, l,
                (lowering::load_field(l, table@, field@)->0).0.module,
            );
        }
        let key = self.string_pointer(program, field.as_bytes())?;
        let args = pair(table, key);
        Ok(self.call_helper(program, "lua_gettable", &args))
    }

    /// Writes a value to an entry of a table.
    fn store_entry(&mut self, program: &mut Program, table: Value, key: Value, v: Value)
        requires
            lowering::store_entry(lowering(*old(self), *old(program)), table@, key@, v@) is Some,
        ensures
            goal_of(*final(self)) == goal_of(*old(self)),
            lowering::store_entry(
                lowering(*old(self), *old(program)),
                table@,
                key@,
                v@,
            ) == Some(lowering(*final(self), *final(program))),
    {
        proof {
            reveal(lowering::store_entry);
        }
        let args = triple(table, key, v);
        self.call_helper(program, "lua_settable", &args);
    }

    /// Writes a value to a field of a table.
    fn store_field(
        &mut self,
        program: &mut Program,
        table: Value,
        field: &str,
        v: Value,
    ) -> (r: Result<(), ModuleError>)
        requires
            lowering::store_field(lowering(*old(self), *old(program)), table@, field@, v@) is Some,
        ensures
            goal_of(*final(self)) == goal_of(*old(self)),
            r is Err ==> excused(
                held(*old(program)),
                held(*final(program)),
                (
                    lowering::store_field(
                        lowering(*old(self), *old(program)),
                        table@,
                        field@,
                        v@,
                    )->0
                ).module,
            ),
            r is Ok ==> lowering::store_field(
                lowering(*old(self), *old(program)),
                table@,
                field@,
                v@,
            ) == Some(lowering(*final(self), *final(program))),
    {
        proof {
            reveal(lowering::store_field);
            let l = lowering(*self, *program);
            let (l1, key) = lowering::string_pointer(l, vstd::utf8::encode_utf8(field@))->0;
            growth::lemma_same(l.module);
            growth::lemma_store_entry(l1, table@, key, v@);
            growth::lemma_excused(l, l,
                (lowering::store_field(l, table@, field@, v@)->0).module,
            );
        }
        let key = self.string_pointer(program, field.as_bytes())?;
        self.store_entry(program, table, key, v);
        Ok(())
    }

    /// Writes a value to a local variable, or to a global one if there is none.
    fn store_variable(
        &mut self,
        program: &mut Program,
        name: &str,
        v: Value,
    ) -> (r: Result<(), ModuleError>)
        requires
            lowering::store_variable(lowering(*old(self), *old(program)), name@, v@) is Some,
        ensures
            goal_of(*final(self)) == goal_of(*old(self)),
            r is Err ==> excused(
                held(*old(program)),
                held(*final(program)),
                (
                    lowering::store_variable(lowering(*old(self), *old(program)), name@, v@)->0
                ).module,
            ),
            r is Ok ==> lowering::store_variable(
                lowering(*old(self), *old(program)),
                name@,
                v@,
            ) == Some(lowering(*final(self), *final(program))),
    {
        proof {
            reveal(lowering::store_variable);
        }
        match self.locals.get(name) {
            Some(stack) => {
                let var = stack[stack.len() - 1];
                clif::def_var(&mut self.builder, var, v);
                Ok(())
            },
            None => self.store_global(program, name, v),
        }
    }

    /// The address of a function of the module.
    fn function_address(&mut self, program: &Program, id: FuncId) -> (v: Value)
        requires
            lowering::function_address(lowering(*old(self), *program), id) is Some,
        ensures
            goal_of(*final(self)) == goal_of(*old(self)),
            lowering::function_address(
                lowering(*old(self), *program),
                id,
            ) == Some((lowering(*final(self), *program), v@)),
    {
        proof {
            reveal(lowering::function_address);
        }
        clif::function_address(&mut self.builder, &program.module, self.word, id)
    }

    /// Lowers an expression; the result is its value.
    fn translate_expr(
        &mut self,
        program: &mut Program,
        expr: &Expression,
    ) -> (r: Result<Value, ModuleError>)
        requires
            lowering::expression(lowering(*old(self), *old(program)), *expr) is Some,
        ensures
            goal_of(*final(self)) == goal_of(*old(self)),
            r is Err ==> excused(
                held(*old(program)),
                held(*final(program)),
                (lowering::expression(lowering(*old(self), *old(program)), *expr)->0).0.module,
            ),
            r matches Ok(v) ==> lowering::expression(
                lowering(*old(self), *old(program)),
                *expr,
            ) == Some((lowering(*final(self), *final(program)), v@)),
        decreases expr, 0nat,
    {
        let ghost l = lowering(*self, *program);
        let ghost goal = (lowering::expression(l, *expr)->0).0.module;
        proof {
            growth::lemma_same(l.module);
            growth::lemma_same(goal);
            growth::lemma_excused(l, l, goal);
        }
        match expr {
            Expression::Nil => Ok(clif::null(&mut self.builder, self.word)),
            Expression::Boolean(v) => {
                let imm: i64 = if *v {
                    1
                } else {
                    0
                };
                Ok(clif::iconst(&mut self.builder, self.word, imm))
            },
            Expression::Number(v) => match v {
                Number::Integer(i) => Ok(clif::iconst(&mut self.builder, self.word, *i)),
                Number::Float(i) => Ok(clif::iconst(&mut self.builder, self.word, *i)),
            },
            Expression::Var(name) => Ok(self.variable(program, name.as_str())),
            Expression::Unary(op, arg) => {
                proof {
                    let (l1, v) = lowering::expression(l, **arg)->0;
                    growth::lemma_apply_unary(l1, *op, v);
                }
                let v = self.translate_expr(program, arg)?;
                Ok(self.apply_unary(program, *op, v))
            },
            Expression::Infix(op, exprs) => match op {
                InfixOp::Or => self.translate_short_circuit(program, IntCC::NotEqual, exprs),
                InfixOp::And => self.translate_short_circuit(program, IntCC::Equal, exprs),
                _ => {
                    proof {
                        let (l1, values) = lowering::expressions(l, Seq::empty(), exprs@)->0;
                        growth::lemma_combine(l1, *op, values);
                    }
                    let values = self.translate_exprs(program, exprs)?;
                    Ok(self.combine(program, *op, &values))
                },
            },
            Expression::String(bytes) => self.string_pointer(program, bytes.as_slice()),
            Expression::FunctCall(call) => self.translate_function_call(program, call),
            Expression::Field(table, field) => if is_globals_table(table) {
                self.load_global(program, field.as_str())
            } else {
                Ok(clif::iconst(&mut self.builder, self.word, 0))
            },
            Expression::Index(table, index) => {
                proof {
                    let (l1, t) = lowering::expression(l, **table)->0;
                    let (l2, i) = lowering::expression(l1, **index)->0;
                    growth::lemma_expression(l, **table);
                    growth::lemma_expression(l1, **index);
                    growth::lemma_call_helper(l2, "lua_gettable"@, seq![t, i]);
                    growth::lemma_grows(l1.module, l2.module, goal);
                    growth::lemma_excused(l, l1, goal);
                }
                let table_val = self.translate_expr(program, table)?;
                let index_val = self.translate_expr(program, index)?;
                let args = pair(table_val, index_val);
                Ok(self.call_helper(program, "lua_gettable", &args))
            },
            Expression::Table(fields) => {
                proof {
                    let (l1, _) = lowering::call_helper(l, "lua_newtable"@, seq![])->0;
                    growth::lemma_call_helper(l, "lua_newtable"@, seq![]);
                    growth::lemma_excused(l, l1, goal);
                }
                let args: Vec<Value> = Vec::new();
                assert(ir::origins(args@) =~= seq![]);
                let table = self.call_helper(program, "lua_newtable", &args);
                self.translate_fields(program, table, fields)?;
                Ok(table)
            },
            Expression::FunctDef(params, body) => {
                proof {
                    let l1 = lowering::made_up(l)->0;
                    let f = lowering::function(l1, params.names@, body@)->0;
                    let name = "lambda_"@ + decimal(l.strings);
                    let (l2, id) = lowering::install(l1, f, name, params.names.len())->0;
                    growth::lemma_function_address(l2, id);
                }
                let name = "lambda_".to_owned().concat(to_decimal(self.string_counter).as_str());
                self.string_counter = self.string_counter + 1;
                let id = self.translate_function(program, name.as_str(), &params.names, body)?;
                Ok(self.function_address(program, id))
            },
            Expression::Ellipsis => unreached(),
        }
    }

    /// Lowers expressions from left to right.
    fn translate_exprs(
        &mut self,
        program: &mut Program,
        exprs: &Vec<Expression>,
    ) -> (r: Result<Vec<Value>, ModuleError>)
        requires
            lowering::expressions(
                lowering(*old(self), *old(program)),
                Seq::empty(),
                exprs@,
            ) is Some,
        ensures
            goal_of(*final(self)) == goal_of(*old(self)),
            r is Err ==> excused(
                held(*old(program)),
                held(*final(program)),
                (
                    lowering::expressions(
                        lowering(*old(self), *old(program)),
                        Seq::empty(),
                        exprs@,
                    )->0
                ).0.module,
            ),
            r matches Ok(values) ==> lowering::expressions(
                lowering(*old(self), *old(program)),
                Seq::empty(),
                exprs@,
            ) == Some((lowering(*final(self), *final(program)), ir::origins(values@))),
        decreases exprs@, 0nat,
    {
        let ghost all = lowering::expressions(lowering(*self, *program), Seq::empty(), exprs@);
        let ghost l0 = lowering(*self, *program);
        let ghost goal = (all->0).0.module;
        proof {
            growth::lemma_same(l0.module);
        }
        let mut values: Vec<Value> = Vec::new();
        let mut i: usize = 0;
        assert(exprs@.skip(0) =~= exprs@);
        assert(ir::origins(values@) =~= Seq::empty());
        while i < exprs.len()
            invariant
                i <= exprs@.len(),
                goal_of(*self) == goal_of(*old(self)),
                lowering::expressions(
                    lowering(*self, *program),
                    ir::origins(values@),
                    exprs@.skip(i as int),
                ) == all,
                all is Some,
                all == lowering::expressions(
                    lowering(*old(self), *old(program)),
                    Seq::empty(),
                    exprs@,
                ),
                goal == (all->0).0.module,
                l0 == lowering(*old(self), *old(program)),
                growth::feeds(l0, lowering(*self, *program)),
            decreases exprs@.len() - i,
        {
            assert(exprs@.skip(i as int)[0] == exprs@[i as int]);
            assert(exprs@.skip(i as int).skip(1) =~= exprs@.skip(i + 1));
            proof {
                let l = lowering(*self, *program);
                let (l1, v) = lowering::expression(l, exprs@[i as int])->0;
                growth::lemma_expression(l, exprs@[i as int]);
                growth::lemma_expressions(
                    l1,
                    ir::origins(values@).push(v),
                    exprs@.skip(i + 1),
                );
                growth::lemma_excused(l0, l, goal);
                growth::lemma_feeds(l0, l, l1);
            }
            let v = self.translate_expr(program, &exprs[i])?;
            assert(ir::origins(values@.push(v)) =~= ir::origins(values@).push(v@));
            values.push(v);
            i = i + 1;
        }
        Ok(values)
    }

    /// Lowers operands up to the first that compares with zero as `cc` says.
    fn translate_short_circuit(
        &mut self,
        program: &mut Program,
        cc: IntCC,
        exprs: &Vec<Expression>,
    ) -> (r: Result<Value, ModuleError>)
        requires
            lowering::short_circuit(lowering(*old(self), *old(program)), cc, exprs@) is Some,
        ensures
            goal_of(*final(self)) == goal_of(*old(self)),
            r is Err ==> excused(
                held(*old(program)),
                held(*final(program)),
                (
                    lowering::short_circuit(lowering(*old(self), *old(program)), cc, exprs@)->0
                ).0.module,
            ),
            r matches Ok(v) ==> lowering::short_circuit(
                lowering(*old(self), *old(program)),
                cc,
                exprs@,
            ) == Some((lowering(*final(self), *final(program)), v@)),
        decreases exprs@, 1nat,
    {
        let ghost l0 = lowering(*self, *program);
        let ghost goal = (lowering::short_circuit(l0, cc, exprs@)->0).0.module;
        proof {
            let (l1, v) = lowering::expression(l0, exprs@[0])->0;
            let merge = lowering::new_block(Some(l1));
            let l2 = lowering::append_param(lowering::create_block(Some(l1)), merge)->0;
            let (l3, v3) = lowering::alternatives(l2, cc, merge, v, exprs@.skip(1))->0;
            growth::lemma_same(l0.module);
            growth::lemma_expression(l0, exprs@[0]);
            growth::lemma_alternatives(l2, cc, merge, v, exprs@.skip(1));
            growth::lemma_merged(l3, v3, merge);
            growth::lemma_grows(l2.module, l3.module, goal);
            growth::lemma_excused(l0, l0, goal);
        }
        let mut current = self.translate_expr(program, &exprs[0])?;
        let merge_block = clif::create_block(&mut self.builder);
        clif::append_block_param(&mut self.builder, merge_block, self.word);
        let ghost all = lowering::alternatives(
            lowering(*self, *program),
            cc,
            merge_block,
            current@,
            exprs@.skip(1),
        );
        let mut i: usize = 1;
        while i < exprs.len()
            invariant
                1 <= i <= exprs@.len(),
                goal_of(*self) == goal_of(*old(self)),
                lowering::alternatives(
                    lowering(*self, *program),
                    cc,
                    merge_block,
                    current@,
                    exprs@.skip(i as int),
                ) == all,
                all is Some,
                l0 == lowering(*old(self), *old(program)),
                goal == (lowering::short_circuit(l0, cc, exprs@)->0).0.module,
                (all->0).0.module.grows_to(goal),
                growth::feeds(l0, lowering(*self, *program)),
            decreases exprs@.len() - i,
        {
            assert(exprs@.skip(i as int)[0] == exprs@[i as int]);
            assert(exprs@.skip(i as int).skip(1) =~= exprs@.skip(i + 1));
            proof {
                let l = lowering(*self, *program);
                let l1 = lowering::hand_over(l, cc, merge_block, current@)->0;
                let (l2, v) = lowering::expression(l1, exprs@[i as int])->0;
                let rest = exprs@.skip(i + 1);
                growth::lemma_hand_over(l, cc, merge_block, current@);
                growth::lemma_expression(l1, exprs@[i as int]);
                growth::lemma_alternatives(l2, cc, merge_block, v, rest);
                growth::lemma_feeds(l0, l, l1);
                growth::lemma_grows(l2.module, (all->0).0.module, goal);
                growth::lemma_excused(l0, l1, goal);
                growth::lemma_feeds(l0, l1, l2);
            }
            self.hand_over(program, cc, merge_block, current);
            current = self.translate_expr(program, &exprs[i])?;
            i = i + 1;
        }
        Ok(self.merged(program, current, merge_block))
    }

    /// Hands a value to `merge_block` if it compares with zero as `cc` says; else
    /// a new block comes next.
    fn hand_over(&mut self, program: &Program, cc: IntCC, merge_block: Block, current: Value)
        requires
            lowering::hand_over(lowering(*old(self), *program), cc, merge_block, current@) is Some,
        ensures
            goal_of(*final(self)) == goal_of(*old(self)),
            lowering::hand_over(
                lowering(*old(self), *program),
                cc,
                merge_block,
                current@,
            ) == Some(lowering(*final(self), *program)),
    {
        proof {
            reveal(lowering::hand_over);
        }
        let none: Vec<Value> = Vec::new();
        assert(ir::origins(none@) =~= seq![]);
        let next_block = clif::create_block(&mut self.builder);
        let test = clif::compare_imm(&mut self.builder, cc, current, 0);
        let args = single(current);
        clif::brif(&mut self.builder, test, merge_block, &args, next_block, &none);
        clif::switch_to_block(&mut self.builder, next_block);
        clif::seal_block(&mut self.builder, next_block);
    }

    /// Hands the last operand to `merge_block`, whose parameter is the result.
    fn merged(&mut self, program: &Program, current: Value, merge_block: Block) -> (v: Value)
        requires
            lowering::merged(lowering(*old(self), *program), current@, merge_block) is Some,
        ensures
            goal_of(*final(self)) == goal_of(*old(self)),
            lowering::merged(
                lowering(*old(self), *program),
                current@,
                merge_block,
            ) == Some((lowering(*final(self), *program), v@)),
    {
        proof {
            reveal(lowering::merged);
        }
        if !clif::is_unreachable(&self.builder) {
            let args = single(current);
            clif::jump(&mut self.builder, merge_block, &args);
        }
        clif::switch_to_block(&mut self.builder, merge_block);
        clif::seal_block(&mut self.builder, merge_block);
        clif::block_param(&self.builder, merge_block, 0)
    }

    /// Lowers the entries of a table constructor.
    fn translate_fields(
        &mut self,
        program: &mut Program,
        table: Value,
        fields: &Vec<Field>,
    ) -> (r: Result<(), ModuleError>)
        requires
            lowering::table_fields(lowering(*old(self), *old(program)), table@, fields@) is Some,
        ensures
            goal_of(*final(self)) == goal_of(*old(self)),
            r is Err ==> excused(
                held(*old(program)),
                held(*final(program)),
                (
                    lowering::table_fields(lowering(*old(self), *old(program)), table@, fields@)->0
                ).module,
            ),
            r is Ok ==> lowering::table_fields(
                lowering(*old(self), *old(program)),
                table@,
                fields@,
            ) == Some(lowering(*final(self), *final(program))),
        decreases fields@, 0nat,
    {
        let ghost all = lowering::table_fields(lowering(*self, *program), table@, fields@);
        let ghost l0 = lowering(*self, *program);
        let ghost goal = (all->0).module;
        proof {
            growth::lemma_same(l0.module);
        }
        let mut i: usize = 0;
        assert(fields@.skip(0) =~= fields@);
        while i < fields.len()
            invariant
                i <= fields@.len(),
                goal_of(*self) == goal_of(*old(self)),
                lowering::table_fields(
                    lowering(*self, *program),
                    table@,
                    fields@.skip(i as int),
                ) == all,
                all is Some,
                all == lowering::table_fields(lowering(*old(self), *old(program)), table@, fields@),
                goal == (all->0).module,
                l0 == lowering(*old(self), *old(program)),
                growth::feeds(l0, lowering(*self, *program)),
            decreases fields@.len() - i,
        {
            assert(fields@.skip(i as int)[0] == fields@[i as int]);
            assert(fields@.skip(i as int).skip(1) =~= fields@.skip(i + 1));
            match &fields[i] {
                Field::Named(name, expr) => {
                    proof {
                        let l = lowering(*self, *program);
                        let (l1, v) = lowering::expression(l, *expr)->0;
                        let l2 = lowering::store_field(l1, table@, name@, v)->0;
                        growth::lemma_expression(l, *expr);
                        growth::lemma_store_field(l1, table@, name@, v);
                        growth::lemma_table_fields(l2, table@, fields@.skip(i + 1));
                        growth::lemma_grows(l1.module, l2.module, goal);
                        growth::lemma_excused(l0, l, goal);
                        growth::lemma_feeds(l0, l, l1);
                        growth::lemma_excused(l0, l1, goal);
                        growth::lemma_feeds(l0, l1, l2);
                    }
                    let v = self.translate_expr(program, expr)?;
                    self.store_field(program, table, name.as_str(), v)?;
                },
                _ => unreached(),
            }
            i = i + 1;
        }
        Ok(())
    }

    /// Lowers a call; the result is its value.
    fn translate_function_call(
        &mut self,
        program: &mut Program,
        call: &FunctionCall,
    ) -> (r: Result<Value, ModuleError>)
        requires
            lowering::call(lowering(*old(self), *old(program)), *call) is Some,
        ensures
            goal_of(*final(self)) == goal_of(*old(self)),
            r is Err ==> excused(
                held(*old(program)),
                held(*final(program)),
                (lowering::call(lowering(*old(self), *old(program)), *call)->0).0.module,
            ),
            r matches Ok(v) ==> lowering::call(
                lowering(*old(self), *old(program)),
                *call,
            ) == Some((lowering(*final(self), *final(program)), v@)),
        decreases call, 1nat,
    {
        proof {
            let l = lowering(*self, *program);
            let goal = (lowering::call(l, *call)->0).0.module;
            let (l1, func) = lowering::callee(l, call.prefix)->0;
            let (l2, args) = lowering::expressions(l1, Seq::empty(), call.args@)->0;
            growth::lemma_same(l.module);
            growth::lemma_callee(l, call.prefix);
            growth::lemma_expressions(l1, Seq::empty(), call.args@);
            growth::lemma_call_value(l2, func, args);
            growth::lemma_grows(l1.module, l2.module, goal);
            growth::lemma_excused(l, l, goal);
            growth::lemma_excused(l, l1, goal);
        }
        let func_val = self.translate_callee(program, &call.prefix)?;
        let args = self.translate_exprs(program, &call.args)?;
        Ok(self.call_value(program, func_val, &args))
    }

    /// Lowers what is called: a field is looked up in its table.
    fn translate_callee(
        &mut self,
        program: &mut Program,
        prefix: &Expression,
    ) -> (r: Result<Value, ModuleError>)
        requires
            lowering::callee(lowering(*old(self), *old(program)), *prefix) is Some,
        ensures
            goal_of(*final(self)) == goal_of(*old(self)),
            r is Err ==> excused(
                held(*old(program)),
                held(*final(program)),
                (lowering::callee(lowering(*old(self), *old(program)), *prefix)->0).0.module,
            ),
            r matches Ok(v) ==> lowering::callee(
                lowering(*old(self), *old(program)),
                *prefix,
            ) == Some((lowering(*final(self), *final(program)), v@)),
        decreases prefix, 1nat,
    {
        match prefix {
            Expression::Field(table, field) => {
                proof {
                    let l = lowering(*self, *program);
                    let goal = (lowering::callee(l, *prefix)->0).0.module;
                    let (l1, t) = lowering::expression(l, **table)->0;
                    growth::lemma_same(l.module);
                    growth::lemma_same(goal);
                    growth::lemma_expression(l, **table);
                    growth::lemma_load_field(l1, t, field@);
                    growth::lemma_excused(l, l, goal);
                    growth::lemma_excused(l, l1, goal);
                }
                let table_val = self.translate_expr(program, table)?;
                self.load_field(program, table_val, field.as_str())
            },
            _ => self.translate_expr(program, prefix),
        }
    }

    /// Lowers a function and puts it into the module.
    fn translate_function(
        &mut self,
        program: &mut Program,
        name: &str,
        params: &Vec<String>,
        body: &Vec<Statement>,
    ) -> (r: Result<FuncId, ModuleError>)
        requires
            lowering::function(lowering(*old(self), *old(program)), params@, body@) is Some,
            lowering::install(
                lowering(*old(self), *old(program)),
                lowering::function(lowering(*old(self), *old(program)), params@, body@)->0,
                name@,
                params.len(),
            ) is Some,
        ensures
            goal_of(*final(self)) == goal_of(*old(self)),
            r is Err ==> excused(
                held(*old(program)),
                held(*final(program)),
                (lowering::install(
                lowering(*old(self), *old(program)),
                lowering::function(lowering(*old(self), *old(program)), params@, body@)->0,
                name@,
                params.len(),
            )->0).0.module,
            ),
            r matches Ok(id) ==> lowering::install(
                lowering(*old(self), *old(program)),
                lowering::function(lowering(*old(self), *old(program)), params@, body@)->0,
                name@,
                params.len(),
            ) == Some((lowering(*final(self), *final(program)), id)),
        decreases body@, 1nat,
    {
        proof {
            reveal(lowering::begin_function);
            reveal(lowering::end_function);
            reveal(lowering::install);
            let l = lowering(*self, *program);
            let l1 = lowering::begin_function(l, params@)->0;
            let f = lowering::function(l, params@, body@)->0;
            let (l2, id) = lowering::install(l, f, name@, params.len())->0;
            let signature = Signature { int: l.word, params: params.len(), returns: 1 };
            let declared = f.module.declare_function(name@, Linkage::Local, signature);
            growth::lemma_begin_function(l, params@);
            growth::lemma_function(l, params@, body@);
            growth::lemma_install(l, f, name@, params.len());
            growth::lemma_declare_function(f.module, name@, Linkage::Local, signature);
            growth::lemma_define_function(declared, id, f.code);
            growth::lemma_finish(declared.define_function(id, f.code));
            growth::lemma_grows(l.module, f.module, declared);
            growth::lemma_grows(f.module, declared, declared.define_function(id, f.code));
            growth::lemma_grows(f.module, declared.define_function(id, f.code), l2.module);
            growth::lemma_excused(l, l1, l2.module);
            if f.module.backs(f.globals) {
                growth::lemma_backs(f.module, declared, f.globals);
            }
            reveal(excused);
        }
        let signature = Signature { int: self.word, params: params.len(), returns: 1 };
        let mut ctx = module::make_context(&program.module);
        let mut scratch = clif::new_scratch();
        let builder = clif::begin(&program.module, &mut ctx, &mut scratch, signature);
        let mut scopes: Vec<Vec<String>> = Vec::new();
        let names: Vec<String> = Vec::new();
        scopes.push(names);
        let mut inner = Translator {
            word: self.word,
            builder,
            block_mgr: BlockManager::new(self.word),
            locals: StringHashMap::new(),
            scopes,
            next_var: 0,
            string_counter: self.string_counter,
            terminated: false,
        };
        assert(names_of(names@) =~= Seq::<Seq<char>>::empty());
        assert(scopes_of(scopes@) =~= seq![Seq::<Seq<char>>::empty()]);
        assert(locals_of(inner.locals@) =~= Map::<Seq<char>, Seq<Variable>>::empty());
        assert(history(inner.builder) =~= seq![Request::Begin { signature }]);
        let entry = clif::create_block(&mut inner.builder);
        assert(entry == lowering::entry()) by {
            reveal_with_fuel(ir::block_count, 2);
        }
        clif::append_function_params(&mut inner.builder, entry);
        clif::switch_to_block(&mut inner.builder, entry);
        clif::seal_block(&mut inner.builder, entry);
        inner.bind_params(program, entry, params.as_slice());
        inner.translate_all(program, body)?;
        blocks::emit_return_zero(&mut inner.builder, inner.word);
        self.string_counter = inner.string_counter;
        let made = clif::finalize(inner.builder);
        let id = module::declare_function(
            &mut program.module,
            name,
            Linkage::Local,
            signature,
        )?;
        module::define_function(&mut program.module, id, &mut ctx)?;
        module::finalize_definitions(&mut program.module)?;
        Ok(id)
    }

    /// Gives the parameters of a function their variables.
    fn bind_params(&mut self, program: &Program, entry: Block, params: &[String])
        requires
            lowering::bind_params(lowering(*old(self), *program), entry, params@, 0) is Some,
        ensures
            goal_of(*final(self)) == goal_of(*old(self)),
            lowering::bind_params(
                lowering(*old(self), *program),
                entry,
                params@,
                0,
            ) == Some(lowering(*final(self), *program)),
    {
        let ghost all = lowering::bind_params(lowering(*self, *program), entry, params@, 0);
        let mut i: usize = 0;
        while i < params.len()
            invariant
                i <= params@.len(),
                goal_of(*self) == goal_of(*old(self)),
                lowering::bind_params(lowering(*self, *program), entry, params@, i as nat) == all,
                all is Some,
            decreases params@.len() - i,
        {
            let v = clif::block_param(&self.builder, entry, i);
            self.bind_local(program, params[i].as_str(), v);
            i = i + 1;
        }
    }

    /// Gives `name` a new variable with a value.
    fn bind_local(&mut self, program: &Program, name: &str, v: Value)
        requires
            lowering::bind_local(lowering(*old(self), *program), name@, v@) is Some,
        ensures
            goal_of(*final(self)) == goal_of(*old(self)),
            lowering::bind_local(
                lowering(*old(self), *program),
                name@,
                v@,
            ) == Some(lowering(*final(self), *program)),
    {
        proof {
            reveal(lowering::bind_local);
        }
        let var = self.declare_local(program, name);
        clif::def_var(&mut self.builder, var, v);
    }

    /// Lowers statements, all of them.
    fn translate_all(
        &mut self,
        program: &mut Program,
        stmts: &Vec<Statement>,
    ) -> (r: Result<(), ModuleError>)
        requires
            lowering::every(lowering(*old(self), *old(program)), stmts@) is Some,
        ensures
            goal_of(*final(self)) == goal_of(*old(self)),
            r is Err ==> excused(
                held(*old(program)),
                held(*final(program)),
                (lowering::every(lowering(*old(self), *old(program)), stmts@)->0).module,
            ),
            r is Ok ==> lowering::every(
                lowering(*old(self), *old(program)),
                stmts@,
            ) == Some(lowering(*final(self), *final(program))),
        decreases stmts@, 0nat,
    {
        let ghost all = lowering::every(lowering(*self, *program), stmts@);
        let ghost l0 = lowering(*self, *program);
        let ghost goal = (all->0).module;
        proof {
            growth::lemma_same(l0.module);
        }
        let mut i: usize = 0;
        assert(stmts@.skip(0) =~= stmts@);
        while i < stmts.len()
            invariant
                i <= stmts@.len(),
                goal_of(*self) == goal_of(*old(self)),
                lowering::every(lowering(*self, *program), stmts@.skip(i as int)) == all,
                all is Some,
                all == lowering::every(lowering(*old(self), *old(program)), stmts@),
                goal == (all->0).module,
                l0 == lowering(*old(self), *old(program)),
                growth::feeds(l0, lowering(*self, *program)),
            decreases stmts@.len() - i,
        {
            assert(stmts@.skip(i as int)[0] == stmts@[i as int]);
            assert(stmts@.skip(i as int).skip(1) =~= stmts@.skip(i + 1));
            proof {
                let l = lowering(*self, *program);
                let l1 = lowering::statement(l, stmts@[i as int])->0;
                growth::lemma_statement(l, stmts@[i as int]);
                growth::lemma_every(l1, stmts@.skip(i + 1));
                growth::lemma_excused(l0, l, goal);
                growth::lemma_feeds(l0, l, l1);
            }
            self.translate_statement(program, &stmts[i])?;
            i = i + 1;
        }
        Ok(())
    }

    /// Lowers statements, up to a return or a point that cannot be reached.
    fn translate_block(
        &mut self,
        program: &mut Program,
        stmts: &[Statement],
    ) -> (r: Result<(), ModuleError>)
        requires
            lowering::block(lowering(*old(self), *old(program)), stmts@) is Some,
        ensures
            goal_of(*final(self)) == goal_of(*old(self)),
            r is Err ==> excused(
                held(*old(program)),
                held(*final(program)),
                (lowering::block(lowering(*old(self), *old(program)), stmts@)->0).module,
            ),
            r is Ok ==> lowering::block(
                lowering(*old(self), *old(program)),
                stmts@,
            ) == Some(lowering(*final(self), *final(program))),
        decreases stmts@, 0nat,
    {
        let ghost all = lowering::block(lowering(*self, *program), stmts@);
        let ghost l0 = lowering(*self, *program);
        let ghost goal = (all->0).module;
        proof {
            growth::lemma_same(l0.module);
        }
        let mut i: usize = 0;
        assert(stmts@.skip(0) =~= stmts@);
        while i < stmts.len()
            invariant
                i <= stmts@.len(),
                goal_of(*self) == goal_of(*old(self)),
                lowering::block(lowering(*self, *program), stmts@.skip(i as int)) == all,
                all is Some,
                goal == (all->0).module,
                l0 == lowering(*old(self), *old(program)),
                growth::feeds(l0, lowering(*self, *program)),
                all == lowering::block(lowering(*old(self), *old(program)), stmts@),
            decreases stmts@.len() - i,
        {
            assert(stmts@.skip(i as int)[0] == stmts@[i as int]);
            assert(stmts@.skip(i as int).skip(1) =~= stmts@.skip(i + 1));
            if self.terminated || clif::is_unreachable(&self.builder) {
                return Ok(());
            }
            proof {
                let l = lowering(*self, *program);
                let l1 = lowering::statement(l, stmts@[i as int])->0;
                growth::lemma_statement(l, stmts@[i as int]);
                growth::lemma_block(l1, stmts@.skip(i + 1));
                growth::lemma_excused(l0, l, goal);
                growth::lemma_feeds(l0, l, l1);
            }
            self.translate_statement(program, &stmts[i])?;
            i = i + 1;
        }
        Ok(())
    }

    /// Lowers a statement; nothing is lowered after a return.
    fn translate_statement(
        &mut self,
        program: &mut Program,
        stmt: &Statement,
    ) -> (r: Result<(), ModuleError>)
        requires
            lowering::statement(lowering(*old(self), *old(program)), *stmt) is Some,
        ensures
            goal_of(*final(self)) == goal_of(*old(self)),
            r is Err ==> excused(
                held(*old(program)),
                held(*final(program)),
                (lowering::statement(lowering(*old(self), *old(program)), *stmt)->0).module,
            ),
            r is Ok ==> lowering::statement(
                lowering(*old(self), *old(program)),
                *stmt,
            ) == Some(lowering(*final(self), *final(program))),
        decreases stmt, 1nat,
    {
        if self.terminated {
            return Ok(());
        }
        proof {
            let l = lowering(*self, *program);
            let goal = (lowering::statement(l, *stmt)->0).module;
            growth::lemma_fresh_block(l);
            growth::lemma_same(goal);
            growth::lemma_excused(l, lowering::fresh_block(l)->0, goal);
        }
        self.ensure_valid_block(program);
        self.translate_live_statement(program, stmt)
    }

    /// Lowers a statement that can be reached.
    #[verifier::rlimit(50)]
    fn translate_live_statement(
        &mut self,
        program: &mut Program,
        stmt: &Statement,
    ) -> (r: Result<(), ModuleError>)
        requires
            lowering::live_statement(lowering(*old(self), *old(program)), *stmt) is Some,
        ensures
            goal_of(*final(self)) == goal_of(*old(self)),
            r is Err ==> excused(
                held(*old(program)),
                held(*final(program)),
                (lowering::live_statement(lowering(*old(self), *old(program)), *stmt)->0).module,
            ),
            r is Ok ==> lowering::live_statement(
                lowering(*old(self), *old(program)),
                *stmt,
            ) == Some(lowering(*final(self), *final(program))),
        decreases stmt, 0nat,
    {
        let ghost l = lowering(*self, *program);
        let ghost goal = (lowering::live_statement(l, *stmt)->0).module;
        proof {
            growth::lemma_same(l.module);
            growth::lemma_same(goal);
            growth::lemma_excused(l, l, goal);
        }
        match stmt {
            Statement::If { ifcases, elsecase } => {
                let merge_block = self.block_mgr.create_block(&mut self.builder);
                match self.block_mgr.get_current_block() {
                    Some(test) => {
                        proof {
                            let (l1, fork) = lowering::begin_if(l)->0;
                            let (l2, fork2) = lowering::cases(l1, fork, merge_block, ifcases@)->0;
                            let l3 = lowering::begin_else(l2);
                            let l4 = lowering::block(l3, elsecase@)->0;
                            growth::lemma_cases(l1, fork, merge_block, ifcases@);
                            growth::lemma_block(l3, elsecase@);
                            growth::lemma_end_if(l4, fork2, merge_block);
                            growth::lemma_grows(l2.module, l4.module, goal);
                            growth::lemma_excused(l, l3, goal);
                        }
                        let fork = Fork { test, joined: false, ended: true };
                        let fork = self.translate_cases(program, fork, merge_block, ifcases)?;
                        self.begin_else(program);
                        self.translate_block(program, elsecase.as_slice())?;
                        self.end_if(program, fork, merge_block);
                        Ok(())
                    },
                    None => unreached(),
                }
            },
            Statement::While { cond, block } => {
                proof {
                    let header_block = lowering::new_block(Some(l));
                    let body_block = lowering::new_block(lowering::create_block(Some(l)));
                    let exit_block = lowering::new_block(
                        lowering::create_block(lowering::create_block(Some(l))),
                    );
                    let l1 = lowering::begin_while(l)->0;
                    let (l2, v) = lowering::expression(l1, *cond)->0;
                    let l3 = lowering::test_while(l2, v, header_block, body_block, exit_block)->0;
                    let l4 = lowering::block(l3, block@)->0;
                    growth::lemma_begin_while(l);
                    growth::lemma_expression(l1, *cond);
                    growth::lemma_test_while(l2, v, header_block, body_block, exit_block);
                    growth::lemma_block(l3, block@);
                    growth::lemma_end_while(l4, header_block, body_block, exit_block);
                    growth::lemma_grows(l3.module, l4.module, goal);
                    growth::lemma_grows(l2.module, l3.module, goal);
                    growth::lemma_excused(l, l1, goal);
                    growth::lemma_feeds(l, l1, l2);
                    growth::lemma_feeds(l, l2, l3);
                    growth::lemma_excused(l, l3, goal);
                }
                let (header_block, body_block, exit_block) = self.begin_while(program);
                let cond_value = self.translate_expr(program, cond)?;
                self.test_while(program, cond_value, header_block, body_block, exit_block);
                self.translate_block(program, block.as_slice())?;
                self.end_while(program, header_block, body_block, exit_block);
                Ok(())
            },
            Statement::Repeat { block, cond } => {
                proof {
                    let body_block = lowering::new_block(Some(l));
                    let exit_block = lowering::new_block(lowering::create_block(Some(l)));
                    let l1 = lowering::begin_repeat(l)->0;
                    let l2 = lowering::block(l1, block@)->0;
                    let (l3, v) = lowering::expression(l2, *cond)->0;
                    growth::lemma_begin_repeat(l);
                    growth::lemma_block(l1, block@);
                    growth::lemma_expression(l2, *cond);
                    growth::lemma_end_repeat(l3, v, body_block, exit_block);
                    growth::lemma_grows(l2.module, l3.module, goal);
                    growth::lemma_excused(l, l1, goal);
                    growth::lemma_feeds(l, l1, l2);
                    growth::lemma_excused(l, l2, goal);
                }
                let (body_block, exit_block) = self.begin_repeat(program);
                self.translate_block(program, block.as_slice())?;
                let cond_value = self.translate_expr(program, cond)?;
                self.end_repeat(program, cond_value, body_block, exit_block);
                Ok(())
            },
            Statement::Local { vars, exprs } => {
                proof {
                    let (l1, values) = lowering::expressions(l, Seq::empty(), exprs@)->0;
                    growth::lemma_bind_locals(l1, vars@, values);
                }
                let values = self.translate_exprs(program, exprs)?;
                self.bind_locals(program, vars, &values);
                Ok(())
            },
            Statement::Assign { vars, exprs } => {
                proof {
                    let (l1, values) = lowering::expressions(l, Seq::empty(), exprs@)->0;
                    growth::lemma_expressions(l, Seq::empty(), exprs@);
                    growth::lemma_assign_all(l1, vars@, values);
                    growth::lemma_excused(l, l1, goal);
                }
                let values = self.translate_exprs(program, exprs)?;
                self.assign_all(program, vars, &values)
            },
            Statement::Return(exprs) => {
                let return_val = if exprs.len() == 0 {
                    clif::iconst(&mut self.builder, self.word, 0)
                } else {
                    proof {
                        let (l1, v) = lowering::expression(l, exprs@[0])->0;
                        growth::lemma_give_back(l1, v);
                    }
                    self.translate_expr(program, &exprs[0])?
                };
                self.give_back(program, return_val);
                Ok(())
            },
            Statement::FunctCall(call) => {
                self.translate_function_call(program, call)?;
                Ok(())
            },
            Statement::Do(block) => {
                self.enter_scope(program);
                self.translate_block(program, block.as_slice())?;
                self.exit_scope(program);
                Ok(())
            },
            Statement::Function { name, params, body } => {
                let full_name = join_names(&name.qname);
                proof {
                    let f = lowering::function(l, params.names@, body@)->0;
                    let (l1, id) = lowering::install(
                        l,
                        f,
                        full_name@,
                        params.names.len(),
                    )->0;
                    growth::lemma_function(l, params.names@, body@);
                    growth::lemma_install(l, f, full_name@, params.names.len());
                    growth::lemma_publish(l1, id, full_name@);
                    growth::lemma_excused(l, l1, goal);
                }
                let id = self.translate_function(
                    program,
                    full_name.as_str(),
                    &params.names,
                    body,
                )?;
                self.publish(program, id, full_name.as_str())
            },
            Statement::ForEach { .. } => unreached(),
            Statement::Break => unreached(),
        }
    }

    /// Starts a `while` loop; the result is its condition, body and exit.
    fn begin_while(&mut self, program: &Program) -> (blocks: (Block, Block, Block))
        requires
            lowering::begin_while(lowering(*old(self), *program)) is Some,
        ensures
            goal_of(*final(self)) == goal_of(*old(self)),
            lowering::begin_while(
                lowering(*old(self), *program),
            ) == Some(lowering(*final(self), *program)),
            blocks.0 == lowering::new_block(Some(lowering(*old(self), *program))),
            blocks.1 == lowering::new_block(
                lowering::create_block(Some(lowering(*old(self), *program))),
            ),
            blocks.2 == lowering::new_block(
                lowering::create_block(
                    lowering::create_block(Some(lowering(*old(self), *program))),
                ),
            ),
    {
        proof {
            reveal(lowering::begin_while);
        }
        let header = clif::create_block(&mut self.builder);
        let body = clif::create_block(&mut self.builder);
        let exit = clif::create_block(&mut self.builder);
        if !clif::is_unreachable(&self.builder) {
            self.block_mgr.jump_to_block(&mut self.builder, header);
        }
        clif::switch_to_block(&mut self.builder, header);
        (header, body, exit)
    }

    /// Lets the condition of a `while` loop decide between the body and the exit.
    fn test_while(&mut self, program: &Program, v: Value, header: Block, body: Block, exit: Block)
        requires
            lowering::test_while(lowering(*old(self), *program), v@, header, body, exit) is Some,
        ensures
            goal_of(*final(self)) == goal_of(*old(self)),
            lowering::test_while(
                lowering(*old(self), *program),
                v@,
                header,
                body,
                exit,
            ) == Some(lowering(*final(self), *program)),
    {
        proof {
            reveal(lowering::test_while);
        }
        let none: Vec<Value> = Vec::new();
        assert(ir::origins(none@) =~= seq![]);
        clif::brif(&mut self.builder, v, body, &none, exit, &none);
        self.block_mgr.seal(&mut self.builder, header);
        clif::switch_to_block(&mut self.builder, body);
        self.enter_scope(program);
    }

    /// Ends a `while` loop.
    fn end_while(&mut self, program: &Program, header: Block, body: Block, exit: Block)
        requires
            lowering::end_while(lowering(*old(self), *program), header, body, exit) is Some,
        ensures
            goal_of(*final(self)) == goal_of(*old(self)),
            lowering::end_while(
                lowering(*old(self), *program),
                header,
                body,
                exit,
            ) == Some(lowering(*final(self), *program)),
    {
        proof {
            reveal(lowering::end_while);
        }
        let none: Vec<Value> = Vec::new();
        assert(ir::origins(none@) =~= seq![]);
        if !clif::is_unreachable(&self.builder) {
            clif::jump(&mut self.builder, header, &none);
        }
        self.leave_loop(program, body, exit);
    }

    /// Goes on after a loop.
    fn leave_loop(&mut self, program: &Program, body: Block, exit: Block)
        requires
            lowering::leave_loop(Some(lowering(*old(self), *program)), body, exit) is Some,
        ensures
            goal_of(*final(self)) == goal_of(*old(self)),
            lowering::leave_loop(
                Some(lowering(*old(self), *program)),
                body,
                exit,
            ) == Some(lowering(*final(self), *program)),
    {
        self.exit_scope(program);
        clif::switch_to_block(&mut self.builder, exit);
        self.block_mgr.seal(&mut self.builder, body);
        self.block_mgr.seal(&mut self.builder, exit);
    }

    /// Starts a `repeat` loop; the result is its body and exit.
    fn begin_repeat(&mut self, program: &Program) -> (blocks: (Block, Block))
        requires
            lowering::begin_repeat(lowering(*old(self), *program)) is Some,
        ensures
            goal_of(*final(self)) == goal_of(*old(self)),
            lowering::begin_repeat(
                lowering(*old(self), *program),
            ) == Some(lowering(*final(self), *program)),
            blocks.0 == lowering::new_block(Some(lowering(*old(self), *program))),
            blocks.1 == lowering::new_block(
                lowering::create_block(Some(lowering(*old(self), *program))),
            ),
    {
        proof {
            reveal(lowering::begin_repeat);
        }
        let none: Vec<Value> = Vec::new();
        assert(ir::origins(none@) =~= seq![]);
        let body = clif::create_block(&mut self.builder);
        let exit = clif::create_block(&mut self.builder);
        if !clif::is_unreachable(&self.builder) {
            clif::jump(&mut self.builder, body, &none);
        }
        clif::switch_to_block(&mut self.builder, body);
        self.enter_scope(program);
        (body, exit)
    }

    /// Ends a `repeat` loop.
    fn end_repeat(&mut self, program: &Program, v: Value, body: Block, exit: Block)
        requires
            lowering::end_repeat(lowering(*old(self), *program), v@, body, exit) is Some,
        ensures
            goal_of(*final(self)) == goal_of(*old(self)),
            lowering::end_repeat(
                lowering(*old(self), *program),
                v@,
                body,
                exit,
            ) == Some(lowering(*final(self), *program)),
    {
        proof {
            reveal(lowering::end_repeat);
        }
        let none: Vec<Value> = Vec::new();
        assert(ir::origins(none@) =~= seq![]);
        if !clif::is_unreachable(&self.builder) {
            clif::brif(&mut self.builder, v, exit, &none, body, &none);
        }
        self.leave_loop(program, body, exit);
    }

    /// Returns a value.
    fn give_back(&mut self, program: &Program, v: Value)
        requires
            lowering::give_back(lowering(*old(self), *program), v@) is Some,
        ensures
            goal_of(*final(self)) == goal_of(*old(self)),
            lowering::give_back(
                lowering(*old(self), *program),
                v@,
            ) == Some(lowering(*final(self), *program)),
    {
        proof {
            reveal(lowering::give_back);
        }
        if !clif::is_unreachable(&self.builder) {
            let args = single(v);
            clif::return_(&mut self.builder, &args);
        }
        if let Some(current) = self.block_mgr.get_current_block() {
            self.block_mgr.seal(&mut self.builder, current);
        }
        self.block_mgr.close();
        self.terminated = true;
    }

    /// Writes the address of a function to the global that stands for it.
    fn publish(
        &mut self,
        program: &mut Program,
        id: FuncId,
        name: &str,
    ) -> (r: Result<(), ModuleError>)
        requires
            lowering::publish(lowering(*old(self), *old(program)), id, name@) is Some,
        ensures
            goal_of(*final(self)) == goal_of(*old(self)),
            r is Err ==> excused(
                held(*old(program)),
                held(*final(program)),
                (lowering::publish(lowering(*old(self), *old(program)), id, name@)->0).module,
            ),
            r is Ok ==> lowering::publish(
                lowering(*old(self), *old(program)),
                id,
                name@,
            ) == Some(lowering(*final(self), *final(program))),
    {
        proof {
            reveal(lowering::publish);
            let l = lowering(*self, *program);
            let (l1, _) = lowering::global_pointer(l, "__fn_ptr_"@ + name@, None)->0;
            growth::lemma_same(l.module);
            growth::lemma_function_address(l1, id);
            growth::lemma_excused(l, l,
                (lowering::publish(l, id, name@)->0).module,
            );
        }
        let pointer_name = "__fn_ptr_".to_owned().concat(name);
        let ptr = self.global_pointer(program, pointer_name.as_str(), None)?;
        let address = self.function_address(program, id);
        clif::store(&mut self.builder, address, ptr, 0);
        Ok(())
    }

    /// Starts the branch without a condition.
    fn begin_else(&mut self, program: &Program)
        ensures
            goal_of(*final(self)) == goal_of(*old(self)),
            lowering::begin_else(
                lowering(*old(self), *program),
            ) == lowering(*final(self), *program),
    {
        self.enter_scope(program);
        self.terminated = false;
    }

    /// Starts a branch with a condition; the result is the branch and the next one.
    fn begin_case(&mut self, program: &Program, v: Value, test: Block) -> (blocks: (Block, Block))
        requires
            lowering::begin_case(lowering(*old(self), *program), v@, test) is Some,
        ensures
            goal_of(*final(self)) == goal_of(*old(self)),
            lowering::begin_case(
                lowering(*old(self), *program),
                v@,
                test,
            ) == Some(lowering(*final(self), *program)),
            blocks.0 == lowering::new_block(Some(lowering(*old(self), *program))),
            blocks.1 == lowering::new_block(
                lowering::create_block(Some(lowering(*old(self), *program))),
            ),
    {
        proof {
            reveal(lowering::begin_case);
        }
        let none: Vec<Value> = Vec::new();
        assert(ir::origins(none@) =~= seq![]);
        let then_block = self.block_mgr.create_block(&mut self.builder);
        let else_block = self.block_mgr.create_block(&mut self.builder);
        clif::brif(&mut self.builder, v, then_block, &none, else_block, &none);
        self.block_mgr.seal(&mut self.builder, test);
        self.block_mgr.switch_to_block(&mut self.builder, then_block);
        self.terminated = false;
        self.enter_scope(program);
        (then_block, else_block)
    }

    /// Ends a branch, which goes on after the statement unless it returns.
    fn end_branch(&mut self, program: &Program, fork: Fork, merge_block: Block) -> (f: Fork)
        requires
            lowering::join(lowering(*old(self), *program), fork, merge_block) is Some,
        ensures
            goal_of(*final(self)) == goal_of(*old(self)),
            lowering::join(
                lowering(*old(self), *program),
                fork,
                merge_block,
            ) == Some((lowering(*final(self), *program), f)),
    {
        let mut fork = fork;
        let terminated = self.terminated;
        self.exit_scope(program);
        if !terminated {
            fork.ended = false;
            if !clif::is_unreachable(&self.builder) {
                self.block_mgr.jump_to_block(&mut self.builder, merge_block);
                fork.joined = true;
            }
        }
        fork
    }

    /// Ends a branch with a condition, and opens the next branch.
    fn end_case(
        &mut self,
        program: &Program,
        fork: Fork,
        then_block: Block,
        else_block: Block,
        merge_block: Block,
    ) -> (f: Fork)
        requires
            lowering::end_case(
                lowering(*old(self), *program),
                fork,
                then_block,
                else_block,
                merge_block,
            ) is Some,
        ensures
            goal_of(*final(self)) == goal_of(*old(self)),
            lowering::end_case(
                lowering(*old(self), *program),
                fork,
                then_block,
                else_block,
                merge_block,
            ) == Some((lowering(*final(self), *program), f)),
    {
        proof {
            reveal(lowering::end_case);
        }
        let mut fork = self.end_branch(program, fork, merge_block);
        self.block_mgr.seal(&mut self.builder, then_block);
        self.block_mgr.switch_to_block(&mut self.builder, else_block);
        fork.test = else_block;
        fork
    }

    /// Ends the last branch, and the `if` statement.
    fn end_if(&mut self, program: &Program, fork: Fork, merge_block: Block)
        requires
            lowering::end_if(lowering(*old(self), *program), fork, merge_block) is Some,
        ensures
            goal_of(*final(self)) == goal_of(*old(self)),
            lowering::end_if(
                lowering(*old(self), *program),
                fork,
                merge_block,
            ) == Some(lowering(*final(self), *program)),
    {
        proof {
            reveal(lowering::end_if);
        }
        let fork = self.end_branch(program, fork, merge_block);
        self.block_mgr.seal(&mut self.builder, fork.test);
        if fork.joined {
            self.block_mgr.switch_to_block(&mut self.builder, merge_block);
            self.block_mgr.seal(&mut self.builder, merge_block);
            self.terminated = false;
        } else {
            self.terminated = fork.ended;
        }
    }

    /// Sees to it that the next statement has a block to go to.
    fn ensure_valid_block(&mut self, program: &Program)
        requires
            lowering::fresh_block(lowering(*old(self), *program)) is Some,
        ensures
            goal_of(*final(self)) == goal_of(*old(self)),
            lowering::fresh_block(
                lowering(*old(self), *program),
            ) == Some(lowering(*final(self), *program)),
    {
        proof {
            reveal(lowering::fresh_block);
        }
        let needed = match self.block_mgr.get_current_block() {
            Some(block) => clif::is_unreachable(&self.builder)
                || self.block_mgr.is_block_inserted(&self.builder, block),
            None => true,
        };
        if needed {
            let block = self.block_mgr.create_block(&mut self.builder);
            clif::append_function_params(&mut self.builder, block);
            self.block_mgr.switch_to_block(&mut self.builder, block);
        }
    }

    /// Lowers the branches with a condition.
    fn translate_cases(
        &mut self,
        program: &mut Program,
        fork: Fork,
        merge_block: Block,
        ifcases: &Vec<(Expression, Vec<Statement>)>,
    ) -> (r: Result<Fork, ModuleError>)
        requires
            lowering::cases(
                lowering(*old(self), *old(program)),
                fork,
                merge_block,
                ifcases@,
            ) is Some,
        ensures
            goal_of(*final(self)) == goal_of(*old(self)),
            r is Err ==> excused(
                held(*old(program)),
                held(*final(program)),
                (
                    lowering::cases(
                        lowering(*old(self), *old(program)),
                        fork,
                        merge_block,
                        ifcases@,
                    )->0
                ).0.module,
            ),
            r matches Ok(f) ==> lowering::cases(
                lowering(*old(self), *old(program)),
                fork,
                merge_block,
                ifcases@,
            ) == Some((lowering(*final(self), *final(program)), f)),
        decreases ifcases@, 0nat,
    {
        let ghost all = lowering::cases(lowering(*self, *program), fork, merge_block, ifcases@);
        let mut now = fork;
        let ghost l0 = lowering(*self, *program);
        let ghost goal = (all->0).0.module;
        proof {
            growth::lemma_same(l0.module);
        }
        let mut i: usize = 0;
        assert(ifcases@.skip(0) =~= ifcases@);
        while i < ifcases.len()
            invariant
                i <= ifcases@.len(),
                goal_of(*self) == goal_of(*old(self)),
                lowering::cases(
                    lowering(*self, *program),
                    now,
                    merge_block,
                    ifcases@.skip(i as int),
                ) == all,
                all is Some,
                all == lowering::cases(
                    lowering(*old(self), *old(program)),
                    fork,
                    merge_block,
                    ifcases@,
                ),
                goal == (all->0).0.module,
                l0 == lowering(*old(self), *old(program)),
                growth::feeds(l0, lowering(*self, *program)),
            decreases ifcases@.len() - i,
        {
            assert(ifcases@.skip(i as int)[0] == ifcases@[i as int]);
            assert(ifcases@.skip(i as int).skip(1) =~= ifcases@.skip(i + 1));
            proof {
                let l = lowering(*self, *program);
                let (l1, v) = lowering::expression(l, ifcases@[i as int].0)->0;
                let then_block = lowering::new_block(Some(l1));
                let else_block = lowering::new_block(lowering::create_block(Some(l1)));
                let l2 = lowering::begin_case(l1, v, now.test)->0;
                let l3 = lowering::block(l2, ifcases@[i as int].1@)->0;
                let (l4, fork4) = lowering::end_case(
                    l3,
                    now,
                    then_block,
                    else_block,
                    merge_block,
                )->0;
                growth::lemma_expression(l, ifcases@[i as int].0);
                growth::lemma_begin_case(l1, v, now.test);
                growth::lemma_block(l2, ifcases@[i as int].1@);
                growth::lemma_end_case(l3, now, then_block, else_block, merge_block);
                growth::lemma_cases(l4, fork4, merge_block, ifcases@.skip(i + 1));
                growth::lemma_grows(l3.module, l4.module, goal);
                growth::lemma_grows(l2.module, l3.module, goal);
                growth::lemma_grows(l1.module, l2.module, goal);
                growth::lemma_excused(l0, l, goal);
                growth::lemma_feeds(l0, l, l1);
                growth::lemma_feeds(l0, l1, l2);
                growth::lemma_excused(l0, l2, goal);
                growth::lemma_feeds(l0, l2, l3);
                growth::lemma_feeds(l0, l3, l4);
            }
            let cond_value = self.translate_expr(program, &ifcases[i].0)?;
            let (then_block, else_block) = self.begin_case(program, cond_value, now.test);
            self.translate_block(program, ifcases[i].1.as_slice())?;
            now = self.end_case(program, now, then_block, else_block, merge_block);
            i = i + 1;
        }
        Ok(now)
    }

    /// Gives the first names variables with the given values.
    fn bind_locals(
        &mut self,
        program: &Program,
        vars: &Vec<(String, Option<String>)>,
        values: &Vec<Value>,
    )
        requires
            lowering::bind_locals(
                lowering(*old(self), *program),
                vars@,
                ir::origins(values@),
            ) is Some,
        ensures
            goal_of(*final(self)) == goal_of(*old(self)),
            lowering::bind_locals(
                lowering(*old(self), *program),
                vars@,
                ir::origins(values@),
            ) == Some(lowering(*final(self), *program)),
    {
        let ghost all = lowering::bind_locals(
            lowering(*self, *program),
            vars@,
            ir::origins(values@),
        );
        let mut i: usize = 0;
        assert(vars@.skip(0) =~= vars@);
        assert(ir::origins(values@).skip(0) =~= ir::origins(values@));
        while i < vars.len() && i < values.len()
            invariant
                i <= vars@.len(),
                i <= values@.len(),
                goal_of(*self) == goal_of(*old(self)),
                lowering::bind_locals(
                    lowering(*self, *program),
                    vars@.skip(i as int),
                    ir::origins(values@).skip(i as int),
                ) == all,
                all is Some,
            decreases vars@.len() - i,
        {
            assert(vars@.skip(i as int)[0] == vars@[i as int]);
            assert(vars@.skip(i as int).skip(1) =~= vars@.skip(i + 1));
            let ghost origins = ir::origins(values@);
            assert(origins.skip(i as int)[0] == values@[i as int]@);
            assert(origins.skip(i as int).skip(1) =~= origins.skip(i + 1));
            self.bind_local(program, vars[i].0.as_str(), values[i]);
            i = i + 1;
        }
    }

    /// Lowers assignments, as long as there are targets and values.
    fn assign_all(
        &mut self,
        program: &mut Program,
        targets: &Vec<Expression>,
        values: &Vec<Value>,
    ) -> (r: Result<(), ModuleError>)
        requires
            lowering::assign_all(
                lowering(*old(self), *old(program)),
                targets@,
                ir::origins(values@),
            ) is Some,
        ensures
            goal_of(*final(self)) == goal_of(*old(self)),
            r is Err ==> excused(
                held(*old(program)),
                held(*final(program)),
                (
                    lowering::assign_all(
                        lowering(*old(self), *old(program)),
                        targets@,
                        ir::origins(values@),
                    )->0
                ).module,
            ),
            r is Ok ==> lowering::assign_all(
                lowering(*old(self), *old(program)),
                targets@,
                ir::origins(values@),
            ) == Some(lowering(*final(self), *final(program))),
        decreases targets@, 0nat,
    {
        let ghost all = lowering::assign_all(
            lowering(*self, *program),
            targets@,
            ir::origins(values@),
        );
        let ghost l0 = lowering(*self, *program);
        let ghost goal = (all->0).module;
        proof {
            growth::lemma_same(l0.module);
        }
        let mut i: usize = 0;
        assert(targets@.skip(0) =~= targets@);
        assert(ir::origins(values@).skip(0) =~= ir::origins(values@));
        while i < targets.len() && i < values.len()
            invariant
                i <= targets@.len(),
                i <= values@.len(),
                goal_of(*self) == goal_of(*old(self)),
                lowering::assign_all(
                    lowering(*self, *program),
                    targets@.skip(i as int),
                    ir::origins(values@).skip(i as int),
                ) == all,
                all is Some,
                all == lowering::assign_all(
                    lowering(*old(self), *old(program)),
                    targets@,
                    ir::origins(values@),
                ),
                goal == (all->0).module,
                l0 == lowering(*old(self), *old(program)),
                growth::feeds(l0, lowering(*self, *program)),
            decreases targets@.len() - i,
        {
            assert(targets@.skip(i as int)[0] == targets@[i as int]);
            assert(targets@.skip(i as int).skip(1) =~= targets@.skip(i + 1));
            let ghost origins = ir::origins(values@);
            assert(origins.skip(i as int)[0] == values@[i as int]@);
            assert(origins.skip(i as int).skip(1) =~= origins.skip(i + 1));
            proof {
                let l = lowering(*self, *program);
                let l1 = lowering::assign(l, targets@[i as int], values@[i as int]@)->0;
                growth::lemma_assign(l, targets@[i as int], values@[i as int]@);
                growth::lemma_assign_all(l1, targets@.skip(i + 1), origins.skip(i + 1));
                growth::lemma_excused(l0, l, goal);
                growth::lemma_feeds(l0, l, l1);
            }
            self.assign(program, &targets[i], values[i])?;
            i = i + 1;
        }
        Ok(())
    }

    /// Lowers the assignment of a value.
    fn assign(
        &mut self,
        program: &mut Program,
        target: &Expression,
        v: Value,
    ) -> (r: Result<(), ModuleError>)
        requires
            lowering::assign(lowering(*old(self), *old(program)), *target, v@) is Some,
        ensures
            goal_of(*final(self)) == goal_of(*old(self)),
            r is Err ==> excused(
                held(*old(program)),
                held(*final(program)),
                (lowering::assign(lowering(*old(self), *old(program)), *target, v@)->0).module,
            ),
            r is Ok ==> lowering::assign(
                lowering(*old(self), *old(program)),
                *target,
                v@,
            ) == Some(lowering(*final(self), *final(program))),
        decreases target, 1nat,
    {
        let ghost l = lowering(*self, *program);
        let ghost goal = (lowering::assign(l, *target, v@)->0).module;
        proof {
            growth::lemma_same(l.module);
            growth::lemma_same(goal);
            growth::lemma_excused(l, l, goal);
        }
        match target {
            Expression::Var(name) => self.store_variable(program, name.as_str(), v),
            Expression::Field(table, field) => if is_globals_table(table) {
                self.store_global(program, field.as_str(), v)
            } else {
                proof {
                    let (l1, t) = lowering::expression(l, **table)->0;
                    growth::lemma_expression(l, **table);
                    growth::lemma_store_field(l1, t, field@, v@);
                    growth::lemma_excused(l, l1, goal);
                }
                let table_val = self.translate_expr(program, table)?;
                self.store_field(program, table_val, field.as_str(), v)
            },
            Expression::Index(table, index) => {
                proof {
                    let (l1, t) = lowering::expression(l, **table)->0;
                    let (l2, i) = lowering::expression(l1, **index)->0;
                    growth::lemma_expression(l, **table);
                    growth::lemma_expression(l1, **index);
                    growth::lemma_store_entry(l2, t, i, v@);
                    growth::lemma_grows(l1.module, l2.module, goal);
                    growth::lemma_excused(l, l1, goal);
                }
                let table_val = self.translate_expr(program, table)?;
                let index_val = self.translate_expr(program, index)?;
                self.store_entry(program, table_val, index_val, v);
                Ok(())
            },
            _ => unreached(),
        }
    }
}

/// Lowers a program into the function in `ctx`.
pub fn translate_program(
    program: &mut Program,
    ctx: &mut Context,
    signature: Signature,
    params: &[String],
    stmts: &[Statement],
) -> (r: Result<(), ModuleError>)
    requires
        lowering::program(
            blank(*old(program), body(*old(ctx)), signature),
            params@,
            stmts@,
        ) is Some,
    ensures
        r is Err ==> excused(
            held(*old(program)),
            held(*final(program)),
            (lowering::program(
                blank(*old(program), body(*old(ctx)), signature),
                params@,
                stmts@,
            )->0).module,
        ),
        r is Ok ==> ({
            let l = lowering::program(
                blank(*old(program), body(*old(ctx)), signature),
                params@,
                stmts@,
            )->0;
            &&& module_state(final(program).module) == l.module
            &&& final(program).globals@ == l.globals
            &&& body(*final(ctx)) == l.code
        }),
{
    let ghost l0 = blank(*program, body(*ctx), signature);
    let ghost l1 = lowering::begin_program(l0, params@)->0;
    let ghost l2 = lowering::block(l1, stmts@)->0;
    proof {
        reveal(lowering::begin_program);
        reveal(lowering::end_program);
        growth::lemma_begin_program(l0, params@);
        growth::lemma_block(l1, stmts@);
        growth::lemma_end_program(l2);
        growth::lemma_same(l2.module);
        growth::lemma_excused(l0, l1, l2.module);
    }
    let mut scratch = clif::new_scratch();
    let builder = clif::begin(&program.module, ctx, &mut scratch, signature);
    let scopes: Vec<Vec<String>> = Vec::new();
    let mut t = Translator {
        word: signature.int,
        builder,
        block_mgr: BlockManager::new(signature.int),
        locals: StringHashMap::new(),
        scopes,
        next_var: 0,
        string_counter: 0,
        terminated: false,
    };
    assert(scopes_of(scopes@) =~= Seq::<Seq<Seq<char>>>::empty());
    assert(locals_of(t.locals@) =~= Map::<Seq<char>, Seq<Variable>>::empty());
    assert(lowering(t, *program) == l0);
    let entry_block = t.block_mgr.create_block(&mut t.builder);
    clif::append_function_params(&mut t.builder, entry_block);
    t.block_mgr.switch_to_block(&mut t.builder, entry_block);
    t.bind_params(program, entry_block, params);
    t.translate_block(program, stmts)?;
    if !clif::is_unreachable(&t.builder) {
        blocks::emit_return_zero(&mut t.builder, t.word);
    }
    t.block_mgr.finalize_blocks(&mut t.builder);
    let made = clif::finalize(t.builder);
    Ok(())
}

/// The state in which the lowering of a program starts.
pub open spec fn blank(program: Program, code: Seq<Request>, signature: Signature) -> Lowering {
    lowering::blank(code, signature, module_state(program.module), program.globals@)
}

/// Whether an expression is the table of global variables.
fn is_globals_table(e: &Expression) -> (yes: bool)
    ensures
        yes == lowering::is_globals_table(*e),
{
    match e {
        Expression::Var(name) => {
            let globals: String = "_G".to_owned();
            *name == globals
        },
        _ => false,
    }
}

/// The names with dots between them.
fn join_names(names: &Vec<String>) -> (text: String)
    ensures
        text@ == lowering::joined(names@),
{
    let mut text: String = "".to_owned();
    let mut i: usize = 0;
    proof {
        reveal_strlit("");
    }
    assert(text@ =~= Seq::<char>::empty());
    while i < names.len()
        invariant
            i <= names@.len(),
            text@ == lowering::joined(names@.take(i as int)),
        decreases names@.len() - i,
    {
        assert(names@.take(i + 1).drop_last() =~= names@.take(i as int));
        if i == 0 {
            text = names[0].as_str().to_owned();
        } else {
            text.append(".");
            text.append(names[i].as_str());
        }
        i = i + 1;
    }
    assert(names@.take(i as int) =~= names@);
    text
}

fn single(x: Value) -> (values: Vec<Value>)
    ensures
        ir::origins(values@) == seq![x@],
{
    let mut values: Vec<Value> = Vec::new();
    values.push(x);
    assert(ir::origins(values@) =~= seq![x@]);
    values
}

fn pair(x: Value, y: Value) -> (values: Vec<Value>)
    ensures
        ir::origins(values@) == seq![x@, y@],
{
    let mut values: Vec<Value> = Vec::new();
    values.push(x);
    values.push(y);
    assert(ir::origins(values@) =~= seq![x@, y@]);
    values
}

fn triple(x: Value, y: Value, z: Value) -> (values: Vec<Value>)
    ensures
        ir::origins(values@) == seq![x@, y@, z@],
{
    let mut values: Vec<Value> = Vec::new();
    values.push(x);
    values.push(y);
    values.push(z);
    assert(ir::origins(values@) =~= seq![x@, y@, z@]);
    values
}

/// The bytes of an initializer.
pub open spec fn bytes_of(initializer: Option<&[u8]>) -> Option<Seq<u8>> {
    match initializer {
        Some(bytes) => Some(bytes@),
        None => None,
    }
}

/// A copy of a list of variables.
fn copied(v: &Vec<Variable>) -> (w: Vec<Variable>)
    ensures
        w@ == v@,
{
    let mut w: Vec<Variable> = Vec::new();
    let mut i: usize = 0;
    while i < v.len()
        invariant
            i <= v@.len(),
            w@ =~= v@.take(i as int),
        decreases v@.len() - i,
    {
        w.push(v[i]);
        i = i + 1;
    }
    w
}

} // verus!
