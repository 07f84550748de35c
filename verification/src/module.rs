//! The module that functions and data objects are collected in.
//!
//! A module is described by what it holds: the names that were declared, and
//! for each function and data object how it was declared and defined.
use cranelift::codegen::settings;
use cranelift::codegen::settings::Configurable;
use cranelift::codegen::{verify_function, Context};
use cranelift::prelude::AbiParam;
use cranelift_jit::{JITBuilder, JITModule};
use cranelift_module::{DataDescription, Module, ModuleError};
use vstd::prelude::*;

use crate::clif::body;
use crate::ir;
use crate::ir::{limit, DataId, FuncId, IntType, Request, Signature};

verus! {

/// Where a function or data object is defined, and who can see it.
#[derive(Clone, Copy, PartialEq, Eq, Structural, Debug)]
pub enum Linkage {
    /// Outside of the module.
    Import,
    /// In the module, for the module alone.
    Local,
    /// In the module, for everyone.
    Export,
}

impl Linkage {
    /// The linkage of what is declared with one linkage and then with another.
    pub open spec fn merge(self, other: Linkage) -> Linkage {
        match self {
            Linkage::Export => Linkage::Export,
            Linkage::Local => if other is Export {
                Linkage::Export
            } else {
                Linkage::Local
            },
            Linkage::Import => other,
        }
    }
}

/// What a name was declared as.
pub enum Symbol {
    Function(FuncId),
    Data(DataId),
}

/// A function of a module.
pub struct FunctionRecord {
    pub name: Seq<char>,
    pub linkage: Linkage,
    pub signature: Signature,
    /// The requests that its body was made from, once it is defined.
    pub body: Option<Seq<Request>>,
    /// Whether its code has been given the addresses of all that it refers to.
    pub finished: bool,
}

/// A data object of a module.
pub struct DataRecord {
    pub name: Seq<char>,
    pub linkage: Linkage,
    pub writable: bool,
    /// Its initial contents, once it is defined.
    pub contents: Option<Seq<u8>>,
}

impl FunctionRecord {
    /// Whether this can be the record of the same function at a later time.
    pub open spec fn becomes(self, later: FunctionRecord) -> bool {
        &&& later.name == self.name
        &&& later.signature == self.signature
        &&& self.body is Some ==> later.body == self.body
        &&& self.body is Some && self.finished ==> later.finished
    }
}

impl DataRecord {
    /// Whether this can be the record of the same data object at a later time.
    pub open spec fn becomes(self, later: DataRecord) -> bool {
        &&& later.name == self.name
        &&& self.writable ==> later.writable
        &&& self.contents is Some ==> later.contents == self.contents
    }
}

/// What a module holds.
pub struct ModuleState {
    pub names: Map<Seq<char>, Symbol>,
    pub functions: Seq<FunctionRecord>,
    pub data: Seq<DataRecord>,
    /// The names that are defined outside, with their addresses.
    pub symbols: Map<Seq<char>, usize>,
    /// The settings of the code generator.
    pub flags: Map<Seq<char>, Seq<char>>,
    /// The type of pointers.
    pub int: IntType,
}

/// Whether the settings leave the verifier of the code generator on and its
/// optimizer off, as they are from the start: only what kind of addresses code
/// has is set.
pub open spec fn careful(flags: Map<Seq<char>, Seq<char>>) -> bool {
    forall|name: Seq<char>| #[trigger]
        flags.contains_key(name) ==> name == "is_pic"@ || name == "use_colocated_libcalls"@
}

/// The most bytes of a data object: its pages must be fewer than can be addressed.
pub open spec fn most_bytes() -> int {
    isize::MAX - 0x10_0000
}

/// Whether two signatures are the same.
pub open spec fn same_signature(a: Signature, b: Signature) -> bool {
    &&& a.params == b.params
    &&& a.returns == b.returns
    &&& a.params + a.returns == 0 || a.int == b.int
}

impl ModuleState {
    /// Whether the code generator makes position-dependent code, in which
    /// declarations take no memory.
    pub open spec fn is_static(self) -> bool {
        self.flags.contains_key("is_pic"@) && self.flags["is_pic"@] == "false"@
    }

    /// Whether the code generator looks over functions before it compiles them,
    /// and compiles them as they are.
    pub open spec fn is_careful(self) -> bool {
        careful(self.flags)
    }

    /// The function that `name` becomes when it is declared as one; `None` if
    /// it is a data object or a function of another signature.
    pub open spec fn function_named(self, name: Seq<char>, signature: Signature) -> Option<FuncId> {
        if !self.names.contains_key(name) {
            Some(FuncId(self.functions.len() as u32))
        } else {
            match self.names[name] {
                Symbol::Function(id) => if same_signature(
                    self.functions[id.0 as int].signature,
                    signature,
                ) {
                    Some(id)
                } else {
                    None
                },
                Symbol::Data(_) => None,
            }
        }
    }

    /// The module after `name` was declared as a function.
    pub open spec fn declare_function(
        self,
        name: Seq<char>,
        linkage: Linkage,
        signature: Signature,
    ) -> ModuleState {
        if !self.names.contains_key(name) {
            let record = FunctionRecord { name, linkage, signature, body: None, finished: false };
            ModuleState {
                names: self.names.insert(
                    name,
                    Symbol::Function(FuncId(self.functions.len() as u32)),
                ),
                functions: self.functions.push(record),
                ..self
            }
        } else {
            match self.names[name] {
                Symbol::Function(id) if id.0 < self.functions.len() => {
                    let record = self.functions[id.0 as int];
                    let merged = FunctionRecord {
                        linkage: record.linkage.merge(linkage),
                        ..record
                    };
                    ModuleState { functions: self.functions.update(id.0 as int, merged), ..self }
                },
                _ => self,
            }
        }
    }

    /// The data object that `name` becomes when it is declared as one; `None`
    /// if it is a function.
    pub open spec fn data_named(self, name: Seq<char>) -> Option<DataId> {
        if !self.names.contains_key(name) {
            Some(DataId(self.data.len() as u32))
        } else {
            match self.names[name] {
                Symbol::Data(id) => Some(id),
                Symbol::Function(_) => None,
            }
        }
    }

    /// The module after `name` was declared as a data object.
    pub open spec fn declare_data(
        self,
        name: Seq<char>,
        linkage: Linkage,
        writable: bool,
    ) -> ModuleState {
        if !self.names.contains_key(name) {
            let record = DataRecord { name, linkage, writable, contents: None };
            ModuleState {
                names: self.names.insert(name, Symbol::Data(DataId(self.data.len() as u32))),
                data: self.data.push(record),
                ..self
            }
        } else {
            match self.names[name] {
                Symbol::Data(id) if id.0 < self.data.len() => {
                    let record = self.data[id.0 as int];
                    let merged = DataRecord {
                        linkage: record.linkage.merge(linkage),
                        writable: record.writable || writable,
                        ..record
                    };
                    ModuleState { data: self.data.update(id.0 as int, merged), ..self }
                },
                _ => self,
            }
        }
    }

    /// Whether a data object still lacks its definition and may get one here.
    pub open spec fn data_is_open(self, id: DataId) -> bool {
        self.data[id.0 as int].linkage !is Import && self.data[id.0 as int].contents is None
    }

    /// The module after a data object was given its contents.
    pub open spec fn define_data(self, id: DataId, contents: Seq<u8>) -> ModuleState {
        let record = DataRecord { contents: Some(contents), ..self.data[id.0 as int] };
        ModuleState { data: self.data.update(id.0 as int, record), ..self }
    }

    /// Whether a function still lacks its definition and may get one here.
    pub open spec fn function_is_open(self, id: FuncId) -> bool {
        self.functions[id.0 as int].linkage !is Import && self.functions[id.0 as int].body is None
    }

    /// Whether a function of the module has been given its body.
    pub open spec fn is_defined(self, id: FuncId) -> bool {
        self.functions[id.0 as int].linkage !is Import && self.functions[id.0 as int].body is Some
    }

    /// The module after a function was given its body.
    pub open spec fn define_function(self, id: FuncId, made: Seq<Request>) -> ModuleState {
        let record = FunctionRecord {
            body: Some(made),
            finished: false,
            ..self.functions[id.0 as int]
        };
        ModuleState { functions: self.functions.update(id.0 as int, record), ..self }
    }

    /// Whether what a request imports has an address.
    pub open spec fn resolves(self, r: Request) -> bool {
        match r {
            Request::ImportFunction { func, .. } => {
                &&& func.0 < self.functions.len()
                &&& self.functions[func.0 as int].body is Some || self.symbols.contains_key(
                    self.functions[func.0 as int].name,
                )
            },
            Request::ImportData { data } => {
                &&& data.0 < self.data.len()
                &&& self.data[data.0 as int].contents is Some
            },
            _ => true,
        }
    }

    /// Whether everything that function bodies refer to has an address.
    pub open spec fn is_linked(self) -> bool {
        forall|i: int, k: int|
            #![trigger (self.functions[i].body->0)[k]]
            0 <= i < self.functions.len() && self.functions[i].body is Some && 0 <= k < (
            self.functions[i].body->0).len() ==> self.resolves((self.functions[i].body->0)[k])
    }

    /// The module after the code of all defined functions was given its addresses.
    pub open spec fn finish(self) -> ModuleState {
        ModuleState {
            functions: self.functions.map_values(
                |f: FunctionRecord| FunctionRecord { finished: f.body is Some, ..f },
            ),
            ..self
        }
    }

    /// Whether the code of a function is there, with all its addresses.
    pub open spec fn is_finished(self, id: FuncId) -> bool {
        &&& id.0 < self.functions.len()
        &&& self.functions[id.0 as int].body is Some
        &&& self.functions[id.0 as int].finished
    }

    /// Whether what `name` was declared as is there, under that name.
    pub open spec fn knows(self, name: Seq<char>) -> bool {
        match self.names[name] {
            Symbol::Function(id) => id.0 < self.functions.len() && self.functions[id.0 as int].name
                == name,
            Symbol::Data(id) => id.0 < self.data.len() && self.data[id.0 as int].name == name,
        }
    }

    /// Whether all names stand for something.
    pub open spec fn is_consistent(self) -> bool {
        forall|name: Seq<char>| #[trigger] self.names.contains_key(name) ==> self.knows(name)
    }

    /// Whether each of `globals` is what its name was declared as.
    #[verifier::opaque]
    pub open spec fn backs(self, globals: Map<Seq<char>, DataId>) -> bool {
        forall|name: Seq<char>| #[trigger]
            globals.contains_key(name) ==> self.names.contains_key(name) && self.names[name]
                == Symbol::Data(globals[name])
    }

    /// Whether the module can have become `later` by declarations and
    /// definitions: nothing that it holds is lost, no definition is changed,
    /// and new names stand for something.
    #[verifier::opaque]
    pub open spec fn grows_to(self, later: ModuleState) -> bool {
        &&& later.symbols == self.symbols
        &&& later.flags == self.flags
        &&& later.int == self.int
        &&& self.names.submap_of(later.names)
        &&& forall|name: Seq<char>|
            !self.names.contains_key(name) && #[trigger] later.names.contains_key(name)
                ==> later.knows(name)
        &&& self.functions.len() <= later.functions.len()
        &&& self.data.len() <= later.data.len()
        &&& forall|i: int|
            0 <= i < self.functions.len() ==> self.functions[i].becomes(
                #[trigger] later.functions[i],
            )
        &&& forall|i: int|
            0 <= i < self.data.len() ==> self.data[i].becomes(#[trigger] later.data[i])
    }

    /// Whether a function is defined later that is not defined yet.
    pub open spec fn gets_function(self, later: ModuleState, i: int) -> bool {
        &&& 0 <= i < later.functions.len()
        &&& later.functions[i].body is Some
        &&& i >= self.functions.len() || self.functions[i].body is None
    }

    /// Whether a data object is defined later that is not defined yet.
    pub open spec fn gets_data(self, later: ModuleState, i: int) -> bool {
        &&& 0 <= i < later.data.len()
        &&& later.data[i].contents is Some
        &&& i >= self.data.len() || self.data[i].contents is None
    }

    /// Whether anything is defined later that is not defined yet.
    pub open spec fn gets_more(self, later: ModuleState) -> bool {
        ||| exists|i: int| self.gets_function(later, i)
        ||| exists|i: int| self.gets_data(later, i)
    }

    /// The import of a function into another.
    pub open spec fn import_of(self, func: FuncId) -> Request {
        Request::ImportFunction { func, signature: self.functions[func.0 as int].signature }
    }
}

/// `cranelift::codegen::settings::Builder`, a set of settings.
#[verifier::external_type_specification]
#[verifier::external_body]
pub struct ExSettings(settings::Builder);

/// `cranelift_jit::JITBuilder`, from which a module is made.
#[verifier::external_type_specification]
#[verifier::external_body]
pub struct ExJITBuilder(JITBuilder);

/// `cranelift_jit::JITModule`, the module.
#[verifier::external_type_specification]
#[verifier::external_body]
pub struct ExJITModule(JITModule);

/// `cranelift_module::ModuleError`, why something could not be put into a module.
#[verifier::external_type_specification]
#[verifier::external_body]
pub struct ExModuleError(ModuleError);

/// The settings that were made.
pub uninterp spec fn settings_made(flags: settings::Builder) -> Map<Seq<char>, Seq<char>>;

/// The group that the settings belong to.
pub uninterp spec fn settings_group(flags: settings::Builder) -> Seq<char>;

/// The settings that the module will have.
pub uninterp spec fn builder_flags(builder: JITBuilder) -> Map<Seq<char>, Seq<char>>;

/// The outside names that the module will know.
pub uninterp spec fn builder_symbols(builder: JITBuilder) -> Map<Seq<char>, usize>;

/// Whether functions of the module could be defined anew.
pub uninterp spec fn builder_hotswap(builder: JITBuilder) -> bool;

/// The declared names.
pub uninterp spec fn module_names(module: JITModule) -> Map<Seq<char>, Symbol>;

/// The functions, by their numbers.
pub uninterp spec fn module_functions(module: JITModule) -> Seq<FunctionRecord>;

/// The data objects, by their numbers.
pub uninterp spec fn module_data(module: JITModule) -> Seq<DataRecord>;

/// The outside names.
pub uninterp spec fn module_symbols(module: JITModule) -> Map<Seq<char>, usize>;

/// The settings.
pub uninterp spec fn module_flags(module: JITModule) -> Map<Seq<char>, Seq<char>>;

/// The type of pointers on the machine that the module makes code for.
pub uninterp spec fn module_int(module: JITModule) -> IntType;

/// The addresses of the code of those functions whose code is ready.
pub uninterp spec fn module_code(module: JITModule) -> Map<FuncId, usize>;

/// The text of an error.
pub uninterp spec fn text_of(e: ModuleError) -> Seq<char>;

/// What `module` holds.
pub open spec fn module_state(module: JITModule) -> ModuleState {
    ModuleState {
        names: module_names(module),
        functions: module_functions(module),
        data: module_data(module),
        symbols: module_symbols(module),
        flags: module_flags(module),
        int: module_int(module),
    }
}

/// `settings::builder`: the settings that all targets share, none of them made.
#[verifier::external_body]
pub(crate) fn new_settings() -> (flags: settings::Builder)
    ensures
        settings_made(flags).dom() == Set::<Seq<char>>::empty(),
        settings_group(flags) == "shared"@,
{
    settings::builder()
}

/// `Configurable::set`: makes a setting, if there is one of that name and it
/// can have that value. Among those that all targets share are `is_pic` and
/// `use_colocated_libcalls`, which can be true or false.
#[verifier::external_body]
pub(crate) fn set_flag(flags: &mut settings::Builder, name: &str, value: &str) -> (r: Result<
    (),
    String,
>)
    ensures
        settings_group(*final(flags)) == settings_group(*old(flags)),
        r is Ok ==> settings_made(
            *final(flags),
        ) == settings_made(*old(flags)).insert(name@, value@),
        r is Err ==> settings_made(*final(flags)) == settings_made(*old(flags)),
        settings_group(*old(flags)) == "shared"@ && (name@ == "is_pic"@ || name@
            == "use_colocated_libcalls"@) && (value@ == "true"@ || value@ == "false"@) ==> r is Ok,
{
    flags.set(name, value).map_err(|e| e.to_string())
}

/// `cranelift_native::builder`, `isa::Builder::finish` and `JITBuilder::with_isa`:
/// a builder for modules of this machine, which may not be supported.
#[verifier::external_body]
pub(crate) fn native_builder(flags: settings::Builder) -> (r: Result<JITBuilder, String>)
    requires
        settings_group(flags) == "shared"@,
    ensures
        r matches Ok(builder) ==> builder_flags(builder) == settings_made(flags)
            && builder_symbols(builder).dom() == Set::<Seq<char>>::empty() && !builder_hotswap(
            builder,
        ),
{
    let isa = cranelift_native::builder()?;
    let isa = isa.finish(settings::Flags::new(flags)).map_err(|e| e.to_string())?;
    Ok(JITBuilder::with_isa(isa, cranelift_module::default_libcall_names()))
}

/// `JITBuilder::symbol`: makes an outside name known.
#[verifier::external_body]
pub(crate) fn define_symbol(builder: &mut JITBuilder, name: &str, address: usize)
    ensures
        builder_flags(*final(builder)) == builder_flags(*old(builder)),
        builder_hotswap(*final(builder)) == builder_hotswap(*old(builder)),
        builder_symbols(*final(builder)) == builder_symbols(*old(builder)).insert(name@, address),
{
    builder.symbol(name, address as _);
}

/// `JITModule::new`: an empty module, for a machine whose pointers are integers
/// of a width that there is.
#[verifier::external_body]
pub(crate) fn new_module(builder: JITBuilder) -> (module: JITModule)
    requires
        builder_flags(builder).contains_key("is_pic"@),
        builder_flags(builder)["is_pic"@] == "false"@,
        !builder_hotswap(builder),
    ensures
        module_names(module).dom() == Set::<Seq<char>>::empty(),
        module_functions(module) == Seq::<FunctionRecord>::empty(),
        module_data(module) == Seq::<DataRecord>::empty(),
        module_symbols(module) == builder_symbols(builder),
        module_flags(module) == builder_flags(builder),
        module_int(module).is_known(),
{
    JITModule::new(builder)
}

/// `Module::target_config` and `TargetFrontendConfig::pointer_bits`.
#[verifier::external_body]
pub(crate) fn pointer_type(module: &JITModule) -> (word: IntType)
    ensures
        word == module_int(*module),
{
    IntType { bits: module.target_config().pointer_bits() as u16 }
}

/// `Module::make_context`: a function without anything in it.
#[verifier::external_body]
pub(crate) fn make_context(module: &JITModule) -> (ctx: Context)
    ensures
        body(ctx) == Seq::<Request>::empty(),
{
    module.make_context()
}

/// `Module::clear_context`: removes everything from the function.
#[verifier::external_body]
pub(crate) fn clear_context(module: &JITModule, ctx: &mut Context)
    ensures
        body(*final(ctx)) == Seq::<Request>::empty(),
{
    module.clear_context(ctx)
}

/// `Module::declare_function`, with a signature of the module's calling
/// convention. It fails on the name of a data object and on a function of
/// another signature. The text that it then fails with shows both signatures
/// in full; of that text nothing is said here.
#[verifier::external_body]
pub(crate) fn declare_function(
    module: &mut JITModule,
    name: &str,
    linkage: Linkage,
    signature: Signature,
) -> (r: Result<FuncId, ModuleError>)
    requires
        module_state(*old(module)).is_static(),
        module_state(*old(module)).functions.len() < limit(),
        signature.is_known(),
    ensures
        module_state(*final(module)) == module_state(*old(module)).declare_function(
            name@,
            linkage,
            signature,
        ),
        match r {
            Ok(id) => module_state(*old(module)).function_named(name@, signature) == Some(id),
            Err(e) => {
                &&& module_state(*old(module)).function_named(name@, signature) is None
                &&& module_state(*old(module)).names[name@] is Data ==> text_of(e)
                    == "Incompatible declaration of identifier: "@ + name@
            },
        },
{
    let word = AbiParam::new(cranelift::prelude::Type::int(signature.int.bits).unwrap());
    let mut s = module.make_signature();
    s.params = vec![word; signature.params];
    s.returns = vec![word; signature.returns];
    let linkage = match linkage {
        Linkage::Import => cranelift_module::Linkage::Import,
        Linkage::Local => cranelift_module::Linkage::Local,
        Linkage::Export => cranelift_module::Linkage::Export,
    };
    let declared = module.declare_function(name, linkage, &s);
    declared.map(|id| FuncId(id.as_u32()))
}

/// `Module::declare_data`, of data that no thread has for itself. It fails on
/// the name of a function.
#[verifier::external_body]
pub(crate) fn declare_data(
    module: &mut JITModule,
    name: &str,
    linkage: Linkage,
    writable: bool,
) -> (r: Result<DataId, ModuleError>)
    requires
        module_state(*old(module)).is_static(),
        module_state(*old(module)).data.len() < limit(),
    ensures
        module_state(*final(module)) == module_state(*old(module)).declare_data(
            name@,
            linkage,
            writable,
        ),
        match r {
            Ok(id) => module_state(*old(module)).data_named(name@) == Some(id),
            Err(e) => {
                &&& module_state(*old(module)).data_named(name@) is None
                &&& text_of(e) == "Incompatible declaration of identifier: "@ + name@
            },
        },
{
    let linkage = match linkage {
        Linkage::Import => cranelift_module::Linkage::Import,
        Linkage::Local => cranelift_module::Linkage::Local,
        Linkage::Export => cranelift_module::Linkage::Export,
    };
    let declared = module.declare_data(name, linkage, writable, false);
    declared.map(|id| DataId(id.as_u32()))
}

/// `DataDescription::define` and `Module::define_data`: gives a data object its
/// contents. It fails if the object has some or is an import, and where memory
/// cannot be had.
#[verifier::external_body]
pub(crate) fn define_data(module: &mut JITModule, id: DataId, contents: &[u8]) -> (r: Result<
    (),
    ModuleError,
>)
    requires
        id.0 < module_state(*old(module)).data.len(),
        contents@.len() <= most_bytes(),
    ensures
        r is Ok ==> module_state(*old(module)).data_is_open(id) && module_state(*final(module))
            == module_state(*old(module)).define_data(id, contents@),
        r is Err ==> module_state(*final(module)) == module_state(*old(module)),
{
    let mut description = DataDescription::new();
    description.define(contents.into());
    let id = cranelift_module::DataId::from_bits(id.0);
    module.define_data(id, &description)
}

/// `DataDescription::define_zeroinit` and `Module::define_data`: gives a data
/// object `size` zeroes. It fails as `define_data` does.
#[verifier::external_body]
pub(crate) fn define_zeroes(module: &mut JITModule, id: DataId, size: usize) -> (r: Result<
    (),
    ModuleError,
>)
    requires
        id.0 < module_state(*old(module)).data.len(),
        size <= most_bytes(),
    ensures
        r is Ok ==> module_state(*old(module)).data_is_open(id) && module_state(*final(module))
            == module_state(*old(module)).define_data(id, Seq::new(size as nat, |i: int| 0u8)),
        r is Err ==> module_state(*final(module)) == module_state(*old(module)),
{
    let mut description = DataDescription::new();
    description.define_zeroinit(size);
    let id = cranelift_module::DataId::from_bits(id.0);
    module.define_data(id, &description)
}

/// `Module::define_function`: gives a function its body, which is compiled. It
/// fails if the function has one or is an import, in which case the context is
/// not touched, and where the body does not verify or compile. The code generator
/// expects a first block, and makes two instructions of some.
#[verifier::external_body]
pub(crate) fn define_function(module: &mut JITModule, id: FuncId, ctx: &mut Context) -> (r: Result<
    (),
    ModuleError,
>)
    requires
        id.0 < module_state(*old(module)).functions.len(),
        module_state(*old(module)).is_careful(),
        module_state(*old(module)).function_is_open(id) ==> ir::compilable(body(*old(ctx))),
    ensures
        r is Ok ==> module_state(*old(module)).function_is_open(id) && module_state(*final(module))
            == module_state(*old(module)).define_function(id, body(*old(ctx))),
        r is Err ==> module_state(*final(module)) == module_state(*old(module)),
        !module_state(*old(module)).function_is_open(id) ==> body(*final(ctx)) == body(*old(ctx)),
        r matches Err(e) ==> (module_state(*old(module)).is_defined(id) ==> text_of(e)
            == "Duplicate definition of identifier: "@ + module_state(
            *old(module),
        ).functions[id.0 as int].name),
{
    module.define_function(
        cranelift_module::FuncId::from_bits(id.0),
        ctx,
    )
}

/// `JITModule::finalize_definitions`: fills the addresses of what they import
/// into all defined functions, and makes their memory executable; where memory
/// cannot be protected it fails at the end of that.
#[verifier::external_body]
pub(crate) fn finalize_definitions(module: &mut JITModule) -> (r: Result<(), ModuleError>)
    requires
        module_state(*old(module)).is_linked(),
    ensures
        module_state(*final(module)) == module_state(*old(module)).finish(),
{
    module.finalize_definitions()
}

/// `JITModule::get_finalized_function`: the address of the code of a function,
/// which takes up memory.
#[verifier::external_body]
pub(crate) fn finalized_function(module: &JITModule, id: FuncId) -> (address: usize)
    requires
        module_state(*module).is_finished(id),
    ensures
        address == module_code(*module)[id],
        address != 0,
{
    module.get_finalized_function(cranelift_module::FuncId::from_bits(id.0)) as usize
}

/// `ModuleError::to_string`: the text of an error.
#[verifier::external_body]
pub(crate) fn error_text(e: &ModuleError) -> (text: String)
    ensures
        text@ == text_of(*e),
{
    e.to_string()
}

/// `verify_function`: nothing is wrong with a function that has nothing in it.
#[verifier::external_body]
pub(crate) fn verify(module: &JITModule, ctx: &Context) -> (r: Result<(), String>)
    requires
        body(*ctx).len() == 0,
    ensures
        r is Ok,
{
    verify_function(&ctx.func, module.isa()).map_err(|e| format!("{:?}", e))
}

} // verus!
