//! The compiler.
use cranelift::codegen::Context;
use cranelift_jit::JITBuilder;
use cranelift_module::ModuleError;
use vstd::prelude::*;
use vstd::string::StringExecFns;

use crate::ast::{Source, Statement};
use crate::clif::body;
use crate::growth;
use crate::growth::{excused, Holdings};
use crate::ir;
use crate::ir::{limit, DataId, FuncId, Request, Signature};
use crate::lowering;
use crate::lowering::Lowering;
use crate::module;
use crate::module::{
    builder_flags, builder_hotswap, builder_symbols, careful, module_code, module_state, text_of,
    Linkage, ModuleState,
};
use crate::translator;
use crate::translator::Program;

verus! {

/// The addresses of the helper functions that compiled code calls.
pub struct Helpers {
    pub lua_len: usize,
    pub lua_newtable: usize,
    pub lua_settable: usize,
    pub lua_concat: usize,
    pub lua_next: usize,
    pub lua_gettable: usize,
}

impl Helpers {
    /// The helper functions by their names.
    pub open spec fn symbols(self) -> Map<Seq<char>, usize> {
        Map::empty().insert("lua_len"@, self.lua_len).insert(
            "lua_newtable"@,
            self.lua_newtable,
        ).insert("lua_settable"@, self.lua_settable).insert("lua_concat"@, self.lua_concat).insert(
            "lua_next"@,
            self.lua_next,
        ).insert("lua_gettable"@, self.lua_gettable)
    }
}

/// What a compiler knows.
pub struct JITState {
    pub module: ModuleState,
    /// The data objects that global names stand for.
    pub globals: Map<Seq<char>, DataId>,
    /// What has been left in the function for the program.
    pub draft: Seq<Request>,
    /// The parameters and results that this function has already.
    pub params: usize,
    pub returns: usize,
}

impl JITState {
    /// Whether programs can be compiled at all.
    pub open spec fn is_ready(self) -> bool {
        &&& self.module.is_static()
        &&& self.module.is_careful()
        &&& self.module.int.is_known()
        &&& self.module.is_consistent()
        &&& self.module.backs(self.globals)
    }

    /// The signature of the next program: parameters and results are added to
    /// those that are there.
    pub open spec fn signature(self, params: Seq<String>) -> Signature {
        Signature {
            int: self.module.int,
            params: (self.params + params.len()) as usize,
            returns: (self.returns + 1) as usize,
        }
    }

    /// The program, lowered.
    pub open spec fn lowered(self, params: Seq<String>, block: Seq<Statement>) -> Option<Lowering> {
        lowering::program(
            lowering::blank(self.draft, self.signature(params), self.module, self.globals),
            params,
            block,
        )
    }

    /// The compiler after `main` was declared for a program lowered to `l`.
    pub open spec fn declared(self, params: Seq<String>, l: Lowering) -> JITState {
        JITState {
            module: l.module.declare_function("main"@, Linkage::Export, self.signature(params)),
            globals: l.globals,
            draft: l.code,
            params: self.signature(params).params,
            returns: self.signature(params).returns,
        }
    }

    /// The function that a program lowered to `l` can be put into: `main`, if
    /// nothing else has this name and it has no body yet.
    pub open spec fn place(self, params: Seq<String>, l: Lowering) -> Option<FuncId> {
        match l.module.function_named("main"@, self.signature(params)) {
            Some(id) => if self.declared(params, l).module.function_is_open(id) {
                Some(id)
            } else {
                None
            },
            None => None,
        }
    }

    /// The function that a program is put into.
    pub open spec fn target(self, params: Seq<String>, block: Seq<Statement>) -> FuncId {
        self.place(params, self.lowered(params, block)->0)->0
    }

    /// The compiler after a program lowered to `l` was put into function `id`.
    pub open spec fn finished(self, params: Seq<String>, l: Lowering, id: FuncId) -> JITState {
        JITState {
            module: self.declared(params, l).module.define_function(id, l.code).finish(),
            globals: l.globals,
            draft: Seq::empty(),
            params: 0,
            returns: 0,
        }
    }

    /// Whether a program can be given to the compiler: it can be lowered, it
    /// does not exceed what can be numbered, and all that it refers to is there.
    pub open spec fn accepts(self, params: Seq<String>, block: Seq<Statement>) -> bool {
        &&& self.params + params.len() < limit()
        &&& self.returns + 1 < limit()
        &&& self.lowered(params, block) matches Some(l)
        &&& l.module.functions.len() < limit()
        &&& self.place(params, l) matches Some(id) ==> self.declared(
            params,
            l,
        ).module.define_function(id, l.code).is_linked() && ir::compilable(l.code)
    }

    /// What compiling a program can end in, and how it leaves the compiler.
    ///
    /// It succeeds, unless `main` is taken, if nothing on the way fails for
    /// want of memory or because code could not be generated.
    pub open spec fn compiles(
        self,
        params: Seq<String>,
        block: Seq<Statement>,
        after: JITState,
        outcome: Outcome,
    ) -> bool {
        let l = self.lowered(params, block)->0;
        let main = l.module.function_named("main"@, self.signature(params));
        match outcome {
            Outcome::NotLowered(_) => self.is_stuck(params, after, l.module),
            Outcome::NotDeclared(e) => {
                &&& main is None
                &&& after == self.declared(params, l)
                &&& l.module.names["main"@] is Data ==> text_of(e)
                    == "Incompatible declaration of identifier: main"@
            },
            Outcome::NotDefined(e) => main matches Some(id) && match self.place(params, l) {
                Some(_) => {
                    &&& self.is_stuck(params, after, self.finished(params, l, id).module)
                    &&& after.module == self.declared(params, l).module
                    &&& after.globals == l.globals
                },
                None => {
                    &&& after == self.declared(params, l)
                    &&& text_of(e) == "Duplicate definition of identifier: main"@
                },
            },
            Outcome::NotFinalized(_) => self.place(params, l) matches Some(id) && after
                == self.finished(params, l, id),
            Outcome::NotVerified(_) => false,
            Outcome::Finished(_) => self.place(params, l) matches Some(id) && after
                == self.finished(params, l, id),
        }
    }

    /// Whether compiling a program with parameters can give `r`, and leave the
    /// compiler as `after`.
    pub open spec fn may_return(
        self,
        params: Seq<String>,
        block: Seq<Statement>,
        after: JITState,
        r: Result<usize, Seq<char>>,
    ) -> bool {
        exists|outcome: Outcome| #[trigger]
            self.compiles(params, block, after, outcome) && outcome.gives(r)
    }

    /// Whether compiling a program can give `r`, and leave the compiler as
    /// `after`.
    pub open spec fn may_end(
        self,
        block: Seq<Statement>,
        after: JITState,
        r: Result<(), Seq<char>>,
    ) -> bool {
        exists|outcome: Outcome| #[trigger]
            self.compiles(Seq::empty(), block, after, outcome) && match r {
                Ok(_) => outcome is Finished,
                Err(text) => outcome.gives(Err(text)),
            }
    }

    /// Whether this is a compiler that has not compiled anything, with the given
    /// settings and helper functions.
    pub open spec fn is_new(self, flags: Map<Seq<char>, Seq<char>>, helpers: Helpers) -> bool {
        &&& self.is_ready()
        &&& self.module.names.dom() == Set::<Seq<char>>::empty()
        &&& self.module.functions == Seq::<module::FunctionRecord>::empty()
        &&& self.module.data == Seq::<module::DataRecord>::empty()
        &&& self.module.symbols == helpers.symbols()
        &&& self.module.flags == flags
        &&& self.globals.dom() == Set::<Seq<char>>::empty()
        &&& self.draft == Seq::<Request>::empty()
        &&& self.params == 0
        &&& self.returns == 0
    }

    /// What is kept from one program to the next.
    pub open spec fn holdings(self) -> Holdings {
        Holdings { module: self.module, globals: self.globals }
    }

    /// Whether the compiler may be left as `after` on the way to a module
    /// `goal`. What the function for the program has got it keeps.
    pub open spec fn is_stuck(
        self,
        params: Seq<String>,
        after: JITState,
        goal: ModuleState,
    ) -> bool {
        &&& excused(self.holdings(), after.holdings(), goal)
        &&& after.params == self.signature(params).params
        &&& after.returns == self.signature(params).returns
    }
}

impl JITState {
    /// The module only grows, whatever comes of a program.
    pub proof fn lemma_outcomes(self, params: Seq<String>, block: Seq<Statement>)
        requires
            self.is_ready(),
            self.accepts(params, block),
        ensures
            ({
                let l = self.lowered(params, block)->0;
                let declared = self.declared(params, l).module;
                &&& self.module.grows_to(l.module)
                &&& self.globals.submap_of(l.globals)
                &&& self.module.grows_to(declared)
                &&& l.module.is_consistent()
                &&& declared.is_consistent()
                &&& self.place(params, l) matches Some(id) ==> {
                    let finished = self.finished(params, l, id).module;
                    &&& id.0 < declared.functions.len()
                    &&& l.module.grows_to(finished)
                    &&& self.module.grows_to(finished)
                    &&& self.module.gets_more(finished)
                }
                &&& declared.backs(l.globals)
                &&& self.place(params, l) matches Some(id) ==> self.finished(
                    params,
                    l,
                    id,
                ).module.backs(l.globals)
                &&& forall|m: ModuleState| #[trigger]
                    self.module.grows_to(m) ==> m.is_static() && m.is_careful()
                        && m.int.is_known() && m.is_consistent()
            }),
    {
        let l = self.lowered(params, block)->0;
        let signature = self.signature(params);
        let start = lowering::blank(self.draft, signature, self.module, self.globals);
        let declared = self.declared(params, l).module;
        growth::lemma_program(start, params, block);
        growth::lemma_consistent(self.module, l.module);
        growth::lemma_declare_function(l.module, "main"@, Linkage::Export, signature);
        growth::lemma_grows(self.module, l.module, declared);
        growth::lemma_consistent(self.module, declared);
        growth::lemma_backs(l.module, declared, l.globals);
        match self.place(params, l) {
            Some(id) => {
                let defined = declared.define_function(id, l.code);
                let finished = self.finished(params, l, id).module;
                assert(l.module.names.contains_key("main"@) ==> l.module.knows("main"@));
                growth::lemma_define_function(declared, id, l.code);
                growth::lemma_finish(defined);
                growth::lemma_grows(declared, defined, finished);
                growth::lemma_grows(l.module, declared, finished);
                growth::lemma_backs(l.module, finished, l.globals);
                growth::lemma_grows(self.module, declared, finished);
                assert(declared.gets_more(defined));
                growth::lemma_gets_more(self.module, declared, defined, finished);
            },
            None => {},
        }
        assert forall|m: ModuleState| #[trigger] self.module.grows_to(m) implies m.is_static()
            && m.is_careful() && m.int.is_known() && m.is_consistent() by {
            growth::lemma_consistent(self.module, m);
            reveal(ModuleState::grows_to);
        }
    }
}

/// How far a program got.
pub enum Outcome {
    /// Something that the program needs could not be defined.
    NotLowered(ModuleError),
    /// `main` could not be declared.
    NotDeclared(ModuleError),
    /// `main` could not be defined.
    NotDefined(ModuleError),
    /// The code could not be made ready.
    NotFinalized(ModuleError),
    /// What is left over does not verify, for the reason given.
    NotVerified(String),
    /// The code is at the address given.
    Finished(usize),
}

impl Outcome {
    /// Whether `r` is what the outcome is answered with: the address, or the text
    /// of the error and before it what could not be done.
    pub open spec fn gives(self, r: Result<usize, Seq<char>>) -> bool {
        r == match self {
            Outcome::NotLowered(e) => Err(text_of(e)),
            Outcome::NotDeclared(e) => Err(text_of(e)),
            Outcome::NotDefined(e) => Err(text_of(e)),
            Outcome::NotFinalized(e) => Err("Failed to finalize definitions: "@ + text_of(e)),
            Outcome::NotVerified(reason) => Err("Verification failed: "@ + reason@),
            Outcome::Finished(address) => Ok(address),
        }
    }
}

/// A result, with its error as a sequence of characters.
pub open spec fn shown(r: Result<usize, String>) -> Result<usize, Seq<char>> {
    match r {
        Ok(address) => Ok(address),
        Err(text) => Err(text@),
    }
}

/// How far a program got whose definition, finalization and verification ended
/// as given; what comes after a failure does not count.
pub fn conclude(
    defined: Result<(), ModuleError>,
    finalized: Result<(), ModuleError>,
    address: usize,
    verified: Result<(), String>,
) -> (outcome: Outcome)
    ensures
        outcome == match defined {
            Err(e) => Outcome::NotDefined(e),
            Ok(_) => match finalized {
                Err(e) => Outcome::NotFinalized(e),
                Ok(_) => match verified {
                    Err(reason) => Outcome::NotVerified(reason),
                    Ok(_) => Outcome::Finished(address),
                },
            },
        },
{
    match defined {
        Err(e) => Outcome::NotDefined(e),
        Ok(_) => match finalized {
            Err(e) => Outcome::NotFinalized(e),
            Ok(_) => match verified {
                Err(reason) => Outcome::NotVerified(reason),
                Ok(_) => Outcome::Finished(address),
            },
        },
    }
}

/// What an outcome is answered with.
pub fn answer(outcome: Outcome) -> (r: Result<usize, String>)
    ensures
        outcome.gives(shown(r)),
{
    match outcome {
        Outcome::NotLowered(e) => Err(module::error_text(&e)),
        Outcome::NotDeclared(e) => Err(module::error_text(&e)),
        Outcome::NotDefined(e) => Err(module::error_text(&e)),
        Outcome::NotFinalized(e) => {
            let text = module::error_text(&e);
            Err("Failed to finalize definitions: ".to_owned().concat(text.as_str()))
        },
        Outcome::NotVerified(reason) => {
            Err("Verification failed: ".to_owned().concat(reason.as_str()))
        },
        Outcome::Finished(address) => Ok(address),
    }
}

/// A just-in-time compiler.
pub struct JIT {
    ctx: Context,
    params: usize,
    returns: usize,
    program: Program,
}

impl View for JIT {
    type V = JITState;

    closed spec fn view(&self) -> JITState {
        JITState {
            module: module_state(self.program.module),
            globals: self.program.globals@,
            draft: body(self.ctx),
            params: self.params,
            returns: self.returns,
        }
    }
}

/// Whether a builder is for modules that the compiler can use, and knows no
/// outside names yet.
pub open spec fn is_blank(builder: JITBuilder) -> bool {
    &&& builder_flags(builder).contains_key("is_pic"@)
    &&& builder_flags(builder)["is_pic"@] == "false"@
    &&& careful(builder_flags(builder))
    &&& !builder_hotswap(builder)
    &&& builder_symbols(builder).dom() == Set::<Seq<char>>::empty()
}

/// Whether a builder, if one was had, has the settings that the compiler makes.
pub open spec fn is_set_up(builder: Result<JITBuilder, String>) -> bool {
    builder matches Ok(b) ==> {
        &&& is_blank(b)
        &&& builder_flags(b).dom() == set!["use_colocated_libcalls"@, "is_pic"@]
        &&& builder_flags(b)["use_colocated_libcalls"@] == "false"@
    }
}

/// Whether `r` is what there is for a builder: a compiler if it was had, else a
/// text that says why not.
pub open spec fn is_made_from(
    r: Result<JIT, String>,
    builder: Result<JITBuilder, String>,
    helpers: Helpers,
) -> bool {
    match builder {
        Ok(b) => r matches Ok(jit) && jit@.is_new(builder_flags(b), helpers),
        Err(text) => r matches Err(e) && e@ == "host machine is not supported: "@ + text@,
    }
}

/// The names of the settings differ.
proof fn lemma_settings()
    ensures
        "use_colocated_libcalls"@ != "is_pic"@,
{
    reveal_strlit("use_colocated_libcalls");
    reveal_strlit("is_pic");
    assert("use_colocated_libcalls"@.len() == 22);
    assert("is_pic"@.len() == 6);
}

impl JIT {
    /// A compiler for this machine, which may not be supported.
    pub fn new(helpers: Helpers) -> (r: Result<JIT, String>)
        ensures
            exists|builder: Result<JITBuilder, String>| #[trigger]
                is_set_up(builder) && is_made_from(r, builder, helpers),
    {
        let mut flags = module::new_settings();
        module::set_flag(&mut flags, "use_colocated_libcalls", "false")?;
        module::set_flag(&mut flags, "is_pic", "false")?;
        let builder = module::native_builder(flags);
        proof {
            lemma_settings();
            if builder is Ok {
                assert(builder_flags(builder->Ok_0).dom() =~= set![
                    "use_colocated_libcalls"@,
                    "is_pic"@,
                ]);
            }
            assert(is_set_up(builder));
        }
        JIT::with_builder(builder, helpers)
    }

    /// A compiler for the machine that a builder was had for. Where none was had,
    /// the machine is not supported.
    pub fn with_builder(builder: Result<JITBuilder, String>, helpers: Helpers) -> (r: Result<
        JIT,
        String,
    >)
        requires
            builder matches Ok(b) ==> is_blank(b),
        ensures
            is_made_from(r, builder, helpers),
    {
        let mut builder = match builder {
            Ok(builder) => builder,
            Err(text) => {
                return Err("host machine is not supported: ".to_owned().concat(text.as_str()));
            },
        };
        module::define_symbol(&mut builder, "lua_len", helpers.lua_len);
        module::define_symbol(&mut builder, "lua_newtable", helpers.lua_newtable);
        module::define_symbol(&mut builder, "lua_settable", helpers.lua_settable);
        module::define_symbol(&mut builder, "lua_concat", helpers.lua_concat);
        module::define_symbol(&mut builder, "lua_next", helpers.lua_next);
        module::define_symbol(&mut builder, "lua_gettable", helpers.lua_gettable);
        let module = module::new_module(builder);
        let ctx = module::make_context(&module);
        let jit = JIT { ctx, params: 0, returns: 0, program: Program::new(module) };
        assert(jit@.module.backs(jit@.globals)) by {
            reveal(ModuleState::backs);
        }
        assert(jit@.module.symbols =~= helpers.symbols());
        Ok(jit)
    }

    /// The addresses of the code of the functions that are ready to be run.
    pub closed spec fn code(&self) -> Map<FuncId, usize> {
        module_code(self.program.module)
    }

    /// Compiles a program.
    pub fn compile(&mut self, source: &Source) -> (r: Result<(), String>)
        requires
            old(self)@.is_ready(),
            old(self)@.accepts(Seq::empty(), source.block@),
        ensures
            final(self)@.is_ready(),
            old(self)@.may_end(
                source.block@,
                final(self)@,
                match r {
                    Ok(_) => Ok(()),
                    Err(text) => Err(text@),
                },
            ),
    {
        let params: Vec<String> = Vec::new();
        assert(params@ =~= Seq::empty());
        self.compile_fn(params.as_slice(), source.block.as_slice())?;
        Ok(())
    }

    /// Compiles a program with parameters; the result is the address of its code.
    pub fn compile_fn(&mut self, params: &[String], block: &[Statement]) -> (r: Result<
        usize,
        String,
    >)
        requires
            old(self)@.is_ready(),
            old(self)@.accepts(params@, block@),
        ensures
            final(self)@.is_ready(),
            old(self)@.may_return(params@, block@, final(self)@, shown(r)),
            r matches Ok(address) ==> address != 0 && final(self).code()[old(self)@.target(
                params@,
                block@,
            )] == address,
    {
        let outcome = self.run(params, block);
        answer(outcome)
    }

    /// Compiles a program, as far as that goes.
    fn run(&mut self, params: &[String], block: &[Statement]) -> (outcome: Outcome)
        requires
            old(self)@.is_ready(),
            old(self)@.accepts(params@, block@),
        ensures
            final(self)@.is_ready(),
            old(self)@.compiles(params@, block@, final(self)@, outcome),
            outcome matches Outcome::Finished(address) ==> address != 0 && final(
                self).code()[old(self)@.target(params@, block@)] == address,
    {
        let ghost start = self@;
        let ghost l = start.lowered(params@, block@)->0;
        proof {
            start.lemma_outcomes(params@, block@);
            reveal(excused);
            reveal_strlit("main");
            reveal_strlit("Incompatible declaration of identifier: ");
            reveal_strlit("Incompatible declaration of identifier: main");
            reveal_strlit("Duplicate definition of identifier: ");
            reveal_strlit("Duplicate definition of identifier: main");
            assert("Incompatible declaration of identifier: "@ + "main"@
                =~= "Incompatible declaration of identifier: main"@);
            assert("Duplicate definition of identifier: "@ + "main"@
                =~= "Duplicate definition of identifier: main"@);
        }
        let word = module::pointer_type(&self.program.module);
        self.params = self.params + params.len();
        self.returns = self.returns + 1;
        let signature = Signature { int: word, params: self.params, returns: self.returns };
        match translator::translate_program(
            &mut self.program,
            &mut self.ctx,
            signature,
            params,
            block,
        ) {
            Ok(_) => {},
            Err(e) => {
                return Outcome::NotLowered(e);
            },
        }
        let id = match module::declare_function(
            &mut self.program.module,
            "main",
            Linkage::Export,
            signature,
        ) {
            Ok(id) => id,
            Err(e) => {
                return Outcome::NotDeclared(e);
            },
        };
        match module::define_function(&mut self.program.module, id, &mut self.ctx) {
            Ok(_) => {},
            Err(e) => {
                return conclude(Err(e), Ok(()), 0, Ok(()));
            },
        }
        module::clear_context(&self.program.module, &mut self.ctx);
        self.params = 0;
        self.returns = 0;
        match module::finalize_definitions(&mut self.program.module) {
            Ok(_) => {},
            Err(e) => {
                return conclude(Ok(()), Err(e), 0, Ok(()));
            },
        }
        let code: usize = module::finalized_function(&self.program.module, id);
        let verified = module::verify(&self.program.module, &self.ctx);
        conclude(Ok(()), Ok(()), code, verified)
    }
}

} // verus!
