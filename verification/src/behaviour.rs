//! What whole programs do when they are run.
use vstd::prelude::*;

use crate::ast::{Expression, Statement};
use crate::blocks;
use crate::blocks::{Cursor, ManagerState};
use crate::courses::{law_block, law_statement, lemma_prefixes};
use crate::execution::{
    fits_in, is_on, is_ready, is_titled, lemma_fits_in, lemma_idle, pick, seen, tracks,
};
use crate::flow;
use crate::flow::is_settled;
use crate::growth;
use crate::growth::title;
use crate::ir;
use crate::ir::{Block, DataId, Inst, Origin, Request, Signature, Type, Variable};
use crate::jit::JITState;
use crate::lowering;
use crate::lowering::{stack_of, Lowering};
use crate::machine::{imported_data, lemma_run, run, Machine, World};
use crate::meaning;
use crate::meaning::{executes_all, finish, Setting, Store};
use crate::module::ModuleState;
use crate::paths;
use crate::sequel;
use crate::sequel::{follows, lemma_start};
use crate::statements::{are_plain, comes_to, Passage};
use crate::storing::lemma_bind_local;

verus! {

/// The parameters of a program, with the arguments that it is run with.
pub open spec fn arguments(params: Seq<String>, args: Seq<int>) -> Seq<(Seq<char>, int)> {
    Seq::new(params.len(), |i: int| (params[i]@, args[i]))
}

/// The parameters of the first block are the arguments.
proof fn lemma_entry_params(w: World, h: Seq<Request>, ty: Type, k: nat)
    requires
        ir::params(h, w.entry).len() == 0,
    ensures
        ({
            let r = Request::AppendParam { block: w.entry, ty };
            let h1 = h + Seq::new(k, |i: int| r);
            let m = run(w, h);
            let m1 = run(w, h1);
            &&& ir::params(h1, w.entry).len() == k
            &&& forall|i: int| 0 <= i < k ==> m1.values[#[trigger] ir::params(h1, w.entry)[i]]
                == w.args[i]
            &&& forall|i: int|
                0 <= i < k ==> (#[trigger] ir::params(h1, w.entry)[i]).len() <= h1.len()
            &&& flow::is_like(m, m1)
            &&& ir::position(h1) == ir::position(h)
            &&& ir::block_count(h1) == ir::block_count(h)
            &&& forall|b: Block| #[trigger] ir::sealed(h1, b) == ir::sealed(h, b)
            &&& forall|b: Block| #[trigger] ir::inserted(h1, b) == ir::inserted(h, b)
        }),
    decreases k,
{
    let r = Request::AppendParam { block: w.entry, ty };
    let h1 = h + Seq::new(k, |i: int| r);
    if k == 0 {
        assert(h1 =~= h);
    } else {
        let h0 = h + Seq::new((k - 1) as nat, |i: int| r);
        lemma_entry_params(w, h, ty, (k - 1) as nat);
        ir::lemma_push(h0, r);
        lemma_run(w, h0, r);
        assert(h0.push(r) =~= h1);
        let before = ir::params(h0, w.entry);
        assert forall|i: int| 0 <= i < k implies run(w, h1).values[#[trigger] ir::params(
            h1,
            w.entry,
        )[i]] == w.args[i] && ir::params(h1, w.entry)[i].len() <= h1.len() by {
            if i < k - 1 {
                assert(ir::params(h1, w.entry)[i] == before[i]);
                assert(before[i].len() <= h0.len());
            }
        }
    }
}

/// The block that is made first has control, and its parameters are the arguments.
proof fn lemma_start_block(c: Setting, l: Lowering, bs: Seq<(Seq<char>, Variable)>)
    requires
        l.manager.current is None,
        l.manager.sealed == Set::<u32>::empty(),
        ir::is_orderly(l.code),
        run(c.world, l.code) == Machine::start(c.world),
        c.world.entry == lowering::new_block(Some(l)),
        l.word.bits == c.world.bits,
        is_titled(c, l),
        tracks(l, bs),
    ensures
        lowering::start_block(l) matches Some(l1) ==> {
            let w = c.world;
            let m1 = run(w, l1.code);
            let params = ir::params(l1.code, w.entry);
            &&& is_ready(c, l1, bs)
            &&& is_settled(l1.cursor())
            &&& l1.terminated == l.terminated
            &&& l1.module == l.module
            &&& l1.globals == l.globals
            &&& l1.manager.current == Some(w.entry)
            &&& !ir::inserted(l1.code, w.entry)
            &&& m1.memory == w.memory
            &&& m1.variables == Map::<Variable, int>::empty()
            &&& params.len() == ir::signature(l.code).params
            &&& forall|i: int|
                0 <= i < params.len() ==> m1.values[#[trigger] params[i]] == w.args[i]
        },
{
    match lowering::start_block(l) {
        Some(l3) => {
            let w = c.world;
            let block = w.entry;
            let r = Request::CreateBlock;
            let h1 = l.code.push(r);
            let l1 = lowering::create_known(Some(l))->0;
            let l2 = lowering::append_function_params(Some(l1), block)->0;
            assert(l1.code == h1);
            sequel::lemma_count(l.code);
            ir::lemma_push(l.code, r);
            lemma_run(w, l.code, r);
            assert(ir::params(l.code, block).len() == 0 && !ir::inserted(l.code, block)
                && !ir::sealed(l.code, block)) by {
                reveal(ir::is_orderly);
            }
            let ty = Type::Int(ir::signature(h1).int);
            let k = ir::signature(h1).params as nat;
            lemma_entry_params(w, h1, ty, k);
            assert(Seq::new(k, |i: int| Request::AppendParam { block, ty }) =~= Seq::new(
                k,
                |i: int| Request::AppendParam { block, ty: Type::Int(ir::signature(h1).int) },
            ));
            assert(l2.code == h1 + Seq::new(k, |i: int| Request::AppendParam { block, ty }));
            let r3 = Request::Switch { block };
            assert(l3.code == l2.code.push(r3));
            lemma_run(w, l2.code, r3);
            ir::lemma_push(l2.code, r3);
            flow::lemma_untouched(l3.code, block);
            assert(is_on(w, l3.code)) by {
                reveal(is_on);
            }
            assert(ir::is_orderly(l3.code)) by {
                broadcast use ir::group_orderly;

            }
            assert(is_titled(c, l3)) by {
                reveal(is_titled);
            }
            assert(tracks(l3, bs)) by {
                reveal(tracks);
            }
            reveal(is_settled);
        },
        None => {},
    }
}

/// The names of a function get variables with the arguments.
proof fn lemma_bind_params(
    c: Setting,
    l: Lowering,
    names: Seq<String>,
    i: nat,
    bs: Seq<(Seq<char>, Variable)>,
) -> (bs1: Seq<(Seq<char>, Variable)>)
    requires
        is_ready(c, l, bs),
        is_settled(l.cursor()),
        i <= names.len(),
        seen(run(c.world, l.code), bs).locals == arguments(names, c.world.args).take(i as int),
        ({
            let params = ir::params(l.code, c.world.entry);
            forall|j: int|
                0 <= j < params.len() ==> run(c.world, l.code).values[#[trigger] params[j]]
                    == c.world.args[j]
        }),
    ensures
        lowering::bind_params(l, c.world.entry, names, i) matches Some(l1) ==> {
            &&& is_ready(c, l1, bs1)
            &&& is_settled(l1.cursor())
            &&& l1.terminated == l.terminated
            &&& seen(run(c.world, l1.code), bs1) == (Store {
                locals: arguments(names, c.world.args),
                memory: run(c.world, l.code).memory,
            })
        },
    decreases names.len() - i,
{
    let entry = c.world.entry;
    let all = arguments(names, c.world.args);
    let params = ir::params(l.code, entry);
    if i >= names.len() {
        assert(all.take(i as int) =~= all);
        bs
    } else if i >= params.len() {
        bs
    } else {
        let v = params[i as int];
        lemma_bind_local(c, l, names[i as int]@, v, bs);
        match lowering::bind_local(l, names[i as int]@, v) {
            Some(l1) => {
                let bs1 = bs.push((names[i as int]@, Variable(l.next_var as u32)));
                growth::lemma_bind_local(l, names[i as int]@, v);
                crate::calm::lemma_bind_local(l, names[i as int]@, v);
                assert(l1.manager == l.manager && l1.terminated == l.terminated && ir::params(
                    l1.code,
                    entry,
                ) == params) by {
                    reveal(lowering::bind_local);
                    let var = Variable(l.next_var as u32);
                    let r = Request::DeclareVar { var, ty: l.word };
                    ir::lemma_push(l.code, r);
                    ir::lemma_push(l.code.push(r), Request::DefVar { var, value: v });
                }
                crate::statements::lemma_settled(l, l1);
                assert(all.take(i as int).push(all[i as int]) =~= all.take(i as int + 1));
                lemma_bind_params(c, l1, names, i + 1, bs1)
            },
            None => bs,
        }
    }
}

/// Sealing blocks changes nothing after a return.
proof fn lemma_seal_all(w: World, c: Cursor, stack: Seq<Block>)
    requires
        run(w, c.code).at is None,
        ir::position(c.code) is Some,
    ensures
        c.seal_all(stack) matches Some(c1) ==> run(w, c1.code) == run(w, c.code),
    decreases stack.len(),
{
    if stack.len() != 0 {
        flow::lemma_seal(w, c, stack[0]);
        match c.seal(stack[0]) {
            Some(c1) => {
                lemma_seal_all(w, c1, stack.skip(1));
            },
            None => {},
        }
    }
}

/// What is returned by a program that has come to its end.
proof fn lemma_end_program(c: Setting, l: Lowering)
    requires
        is_on(c.world, l.code) || run(c.world, l.code).at is None,
    ensures
        lowering::end_program(l) matches Some(l1) ==> {
            let m = run(c.world, l.code);
            let m1 = run(c.world, l1.code);
            &&& m1.at is None
            &&& m1.memory == m.memory
            &&& m1.result == if m.at is None {
                m.result
            } else {
                Some(0int)
            }
        },
{
    match lowering::end_program(l) {
        Some(l2) => {
            reveal(lowering::end_program);
            let w = c.world;
            assert(is_on(w, l.code) ==> !ir::unreachable(l.code) && run(w, l.code).at is Some) by {
                reveal(is_on);
            }
            let l1 = if ir::unreachable(l.code) {
                l
            } else {
                lowering::return_zero(Some(l))->0
            };
            flow::lemma_return_zero(w, l.code, l.word);
            lemma_seal_all(w, l1.cursor(), l1.manager.stack);
        },
        None => {},
    }
}

/// A program that is run does what its statements say: with its parameters as
/// local variables, which have the arguments as values, its statements are
/// executed in order. What they return is returned, and zero if they do not
/// return.
///
/// That is so unless control goes through a loop, or a declaration, assignment
/// or call with `and` or `or` in it is followed by another statement.
pub proof fn law_program(
    c: Setting,
    code: Seq<Request>,
    signature: Signature,
    module: ModuleState,
    globals: Map<Seq<char>, DataId>,
    params: Seq<String>,
    stmts: Seq<Statement>,
) -> (r: Passage)
    requires
        are_plain(stmts, true),
        ir::is_orderly(code),
        c.world.entry == ir::next_block(code),
        c.world.bits == signature.int.bits,
        forall|name: Seq<char>| #[trigger]
            globals.contains_key(name) ==> c.older.contains(globals[name]),
        ({
            let l = lowering::blank(code, signature, module, globals);
            lowering::program(l, params, stmts) matches Some(l1) ==> fits_in(l1, c)
        }),
    ensures
        ({
            let l = lowering::blank(code, signature, module, globals);
            lowering::program(l, params, stmts) matches Some(l1) ==> {
                let m = run(c.world, l1.code);
                let s = Store {
                    locals: arguments(params, c.world.args),
                    memory: c.world.memory,
                };
                &&& executes_all(c, stmts, s, r.store, r.end)
                &&& m.at is None
                &&& m.result == finish(r.end)
                &&& m.memory == r.store.memory
            }
        }),
{
    let l = lowering::blank(code, signature, module, globals);
    let nothing = Passage {
        variables: Seq::empty(),
        store: Store { locals: Seq::empty(), memory: Map::empty() },
        end: None,
    };
    match lowering::program(l, params, stmts) {
        Some(l4) => {
            let w = c.world;
            let l1 = lowering::start_block(l)->0;
            let l2 = lowering::begin_program(l, params)->0;
            let l3 = lowering::block(l2, stmts)->0;
            let begin = Request::Begin { signature };
            assert(l.code == code.push(begin));
            ir::lemma_push(code, begin);
            assert(ir::is_orderly(l.code)) by {
                reveal(ir::is_orderly);
            }
            assert(lowering::start_block(l) == Some(l1) && lowering::bind_params(
                l1,
                w.entry,
                params,
                0,
            ) == Some(l2)) by {
                reveal(lowering::begin_program);
            }
            assert(is_titled(c, l)) by {
                reveal(is_titled);
            }
            growth::lemma_bind_params(l1, w.entry, params, 0);
            growth::lemma_block(l2, stmts);
            growth::lemma_end_program(l3);
            lemma_fits_in(l3, l4, c);
            lemma_run(w, code, begin);
            assert(tracks(l, Seq::empty())) by {
                reveal(tracks);
            }
            lemma_start_block(c, l, Seq::empty());
            assert(seen(run(w, l1.code), Seq::empty()).locals =~= arguments(params, w.args).take(
                0,
            ));
            let bs = lemma_bind_params(c, l1, params, 0, Seq::empty());
            let r = law_block(c, l2, stmts, bs, true);
            lemma_end_program(c, l3);
            assert(r.end is None ==> run(w, l3.code).at is Some) by {
                reveal(is_on);
            }
            r
        },
        None => nothing,
    }
}

/// What a program that was compiled is run in.
pub open spec fn setting(w: World, before: JITState, after: JITState) -> Setting {
    Setting {
        world: w,
        module: after.module,
        globals: after.globals,
        older: before.globals.values(),
    }
}

/// The function that a program was compiled to does what the program says: its
/// statements are executed in order, with the arguments as the values of its
/// parameters. It gives back what they return, and zero if they do not return.
pub proof fn law_compiled_program(
    w: World,
    s: JITState,
    params: Seq<String>,
    block: Seq<Statement>,
) -> (r: Passage)
    requires
        s.is_ready(),
        s.accepts(params, block),
        s.draft.len() == 0,
        s.place(params, s.lowered(params, block)->0) is Some,
        are_plain(block, true),
        w.entry == Block(0),
        w.bits == s.module.int.bits,
    ensures
        ({
            let id = s.target(params, block);
            let after = s.finished(params, s.lowered(params, block)->0, id);
            let store = Store { locals: arguments(params, w.args), memory: w.memory };
            &&& after.module.functions[id.0 as int].body matches Some(code)
            &&& executes_all(setting(w, s, after), block, store, r.store, r.end)
            &&& run(w, code).at is None
            &&& run(w, code).result == finish(r.end)
            &&& run(w, code).memory == r.store.memory
        }),
{
    let l = s.lowered(params, block)->0;
    let id = s.target(params, block);
    let after = s.finished(params, l, id);
    let c = setting(w, s, after);
    s.lemma_outcomes(params, block);
    assert(ir::is_orderly(s.draft)) by {
        reveal(ir::is_orderly);
    }
    assert forall|name: Seq<char>| #[trigger]
        s.globals.contains_key(name) implies c.older.contains(s.globals[name]) by {
        assert(s.globals.dom().contains(name));
    }
    law_program(c, s.draft, s.signature(params), s.module, s.globals, params, block)
}

// ---------------------------------------------------------------------------
// Functions in functions

/// Statements are put where statements are put.
proof fn lemma_every_follows(h: Seq<Request>, n: nat, l: Lowering, stmts: Seq<Statement>)
    requires
        follows(h, n, l.code),
    ensures
        lowering::every(l, stmts) matches Some(l1) ==> follows(h, n, l1.code),
    decreases stmts.len(),
{
    if stmts.len() != 0 {
        paths::lemma_statement(h, n, l, stmts[0]);
        match lowering::statement(l, stmts[0]) {
            Some(l1) => {
                lemma_every_follows(h, n, l1, stmts.skip(1));
            },
            None => {},
        }
    }
}

/// The code of the statements of a function does what they say.
proof fn lemma_every(
    c: Setting,
    l: Lowering,
    stmts: Seq<Statement>,
    bs: Seq<(Seq<char>, Variable)>,
) -> (r: Passage)
    requires
        is_ready(c, l, bs),
        is_settled(l.cursor()),
        !l.terminated,
        are_plain(stmts, true),
        lowering::every(l, stmts) matches Some(l1) ==> fits_in(l1, c),
    ensures
        lowering::every(l, stmts) matches Some(l1) ==> comes_to(c, l1, bs, r, false)
            && executes_all(c, stmts, seen(run(c.world, l.code), bs), r.store, r.end),
    decreases stmts.len(),
{
    let s = seen(run(c.world, l.code), bs);
    let nothing = Passage { variables: bs, store: s, end: None };
    assert(bs =~= bs.subrange(0, bs.len() as int));
    if stmts.len() == 0 {
        meaning::lemma_executes_none(c, stmts, s);
        nothing
    } else {
        let rest = stmts.skip(1);
        match lowering::every(l, stmts) {
            Some(l2) => {
                let l1 = lowering::statement(l, stmts[0])->0;
                assert(lowering::every(l1, rest) == Some(l2));
                growth::lemma_statement(l, stmts[0]);
                growth::lemma_every(l1, rest);
                lemma_fits_in(l1, l2, c);
                let r1 = law_statement(c, l, stmts[0], bs, stmts.len() == 1);
                match r1.end {
                    Some(v) => {
                        let n = ir::block_count(l1.code);
                        lemma_start(l1.code, n);
                        lemma_every_follows(l1.code, n, l1, rest);
                        lemma_idle(c.world, l1.code, n, l2.code);
                        ir::lemma_created(l1.code, l2.code);
                        meaning::lemma_executes_first(
                            c,
                            stmts,
                            s,
                            r1.store,
                            r1.end,
                            r1.store,
                            r1.end,
                        );
                        r1
                    },
                    None => {
                        if stmts.len() == 1 {
                            assert(rest.len() == 0);
                            assert(l2 == l1);
                            meaning::lemma_executes_none(c, rest, r1.store);
                            meaning::lemma_executes_first(
                                c,
                                stmts,
                                s,
                                r1.store,
                                None,
                                r1.store,
                                None,
                            );
                            r1
                        } else {
                            let r2 = lemma_every(c, l1, rest, r1.variables);
                            meaning::lemma_executes_first(
                                c,
                                stmts,
                                s,
                                r1.store,
                                None,
                                r2.store,
                                r2.end,
                            );
                            if r2.end is None {
                                lemma_prefixes(bs, r1.variables, r2.variables);
                            }
                            r2
                        }
                    },
                }
            },
            None => nothing,
        }
    }
}

/// Parameters get variables, which nothing is written to while control is elsewhere.
proof fn lemma_bind_elsewhere(
    w: World,
    l: Lowering,
    entry: Block,
    names: Seq<String>,
    i: nat,
    bs: Seq<(Seq<char>, Variable)>,
) -> (bs1: Seq<(Seq<char>, Variable)>)
    requires
        i <= names.len(),
        bs.len() == i,
        tracks(l, bs),
        forall|j: int| 0 <= j < i ==> (#[trigger] bs[j]).0 == names[j]@,
        run(w, l.code).at != ir::position(l.code),
    ensures
        lowering::bind_params(l, entry, names, i) matches Some(l1) ==> {
            &&& tracks(l1, bs1)
            &&& bs1.len() == names.len()
            &&& forall|j: int| 0 <= j < bs1.len() ==> (#[trigger] bs1[j]).0 == names[j]@
            &&& run(w, l1.code) == run(w, l.code)
            &&& l1.manager == l.manager
            &&& l1.terminated == l.terminated
            &&& l1.word == l.word
            &&& l1.globals == l.globals
            &&& l1.strings == l.strings
            &&& l1.module == l.module
            &&& ir::block_count(l1.code) == ir::block_count(l.code)
        },
    decreases names.len() - i,
{
    let params = ir::params(l.code, entry);
    if i >= names.len() || i >= params.len() {
        bs
    } else {
        let name = names[i as int]@;
        let v = params[i as int];
        match lowering::bind_local(l, name, v) {
            Some(l1) => {
                reveal(lowering::bind_local);
                let var = Variable(l.next_var as u32);
                let bs1 = bs.push((name, var));
                let r = Request::DeclareVar { var, ty: l.word };
                let r1 = Request::DefVar { var, value: v };
                ir::lemma_push(l.code, r);
                lemma_run(w, l.code, r);
                ir::lemma_push(l.code.push(r), r1);
                lemma_run(w, l.code.push(r), r1);
                assert(bs1.drop_last() =~= bs);
                assert(tracks(l1, bs1)) by {
                    reveal(tracks);
                    assert forall|n: Seq<char>| #[trigger] stack_of(l1.locals, n) == pick(
                        bs1,
                        n,
                    ) by {
                        assert(stack_of(l.locals, n) == pick(bs, n));
                    }
                    assert forall|n: Seq<char>| #[trigger]
                        l1.locals.contains_key(n) implies l1.locals[n].len() != 0 by {
                        if n != name {
                            assert(l.locals.contains_key(n));
                        }
                    }
                }
                lemma_bind_elsewhere(w, l1, entry, names, i + 1, bs1)
            },
            None => bs,
        }
    }
}

/// The start of a function in a function: nothing has been run.
proof fn lemma_begin_function(c: Setting, l: Lowering, params: Seq<String>) -> (bs: Seq<
    (Seq<char>, Variable),
>)
    requires
        c.world.entry == Block(1),
        l.word.bits == c.world.bits,
        is_titled(c, l),
    ensures
        lowering::begin_function(l, params) matches Some(l1) ==> {
            &&& l1.manager == ManagerState::fresh(l.word)
            &&& ir::is_orderly(l1.code)
            &&& run(c.world, l1.code) == Machine::start(c.world)
            &&& lowering::new_block(Some(l1)) == Block(1)
            &&& l1.word == l.word
            &&& !l1.terminated
            &&& is_titled(c, l1)
            &&& tracks(l1, bs)
            &&& bs.len() == params.len()
            &&& forall|j: int| 0 <= j < bs.len() ==> (#[trigger] bs[j]).0 == params[j]@
        },
{
    match lowering::begin_function(l, params) {
        Some(l2) => {
            growth::lemma_begin_function(l, params);
            let l1 = lowering::function_start(l, params.len() as usize)->0;
            assert(lowering::function_start(l, params.len() as usize) == Some(l1)
                && lowering::bind_params(l1, lowering::entry(), params, 0) == Some(l2)) by {
                reveal(lowering::begin_function);
            }
            let w = c.world;
            let signature = Signature {
                int: l.word,
                params: params.len() as usize,
                returns: 1,
            };
            let none = Seq::<Request>::empty();
            let begin = Request::Begin { signature };
            let block = lowering::entry();
            let h0 = none.push(begin);
            assert(seq![begin] =~= h0);
            let h1 = h0.push(Request::CreateBlock);
            ir::lemma_push(none, begin);
            lemma_run(w, none, begin);
            ir::lemma_push(h0, Request::CreateBlock);
            lemma_run(w, h0, Request::CreateBlock);
            let r = Request::AppendParam { block, ty: Type::Int(ir::signature(h1).int) };
            let k = ir::signature(h1).params as nat;
            flow::lemma_function_params(w, h1, r, k);
            let h2 = h1 + Seq::new(k, |i: int| r);
            assert(Seq::new(k, |i: int| r) =~= Seq::new(
                k,
                |i: int| Request::AppendParam { block, ty: Type::Int(ir::signature(h1).int) },
            ));
            let r3 = Request::Switch { block };
            let h3 = h2.push(r3);
            ir::lemma_push(h2, r3);
            lemma_run(w, h2, r3);
            let r4 = Request::Seal { block };
            ir::lemma_push(h3, r4);
            lemma_run(w, h3, r4);
            assert(l1.code == h3.push(r4));
            assert(tracks(l1, Seq::empty())) by {
                reveal(tracks);
            }
            let bs = lemma_bind_elsewhere(w, l1, block, params, 0, Seq::empty());
            assert(is_titled(c, l2)) by {
                reveal(is_titled);
            }
            bs
        },
        None => Seq::empty(),
    }
}

/// The code of a function in a function does what its statements say. Control
/// starts in the block of the first statement, which the block that has the
/// arguments does not lead to; so the parameters are zero.
pub proof fn law_function(
    c: Setting,
    l: Lowering,
    params: Seq<String>,
    body: Seq<Statement>,
) -> (r: Passage)
    requires
        body.len() != 0,
        are_plain(body, true),
        c.world.entry == Block(1),
        l.word.bits == c.world.bits,
        is_titled(c, l),
        lowering::function(l, params, body) matches Some(f) ==> fits_in(f, c),
    ensures
        lowering::function(l, params, body) matches Some(f) ==> {
            let m = run(c.world, f.code);
            let s = Store {
                locals: Seq::new(params.len(), |i: int| (params[i]@, 0int)),
                memory: c.world.memory,
            };
            &&& executes_all(c, body, s, r.store, r.end)
            &&& m.at is None
            &&& m.result == finish(r.end)
            &&& m.memory == r.store.memory
        },
{
    match lowering::function(l, params, body) {
        Some(f) => {
            let w = c.world;
            let l1 = lowering::begin_function(l, params)->0;
            let l3 = lowering::every(l1, body)->0;
            assert(lowering::end_function(l3) == Some(f));
            growth::lemma_every(l1, body);
            growth::lemma_end_function(l3);
            lemma_fits_in(l3, f, c);
            let bs = lemma_begin_function(c, l, params);
            let l2 = lowering::fresh_block(l1)->0;
            assert(lowering::fresh_block(l1) == lowering::start_block(l1)) by {
                reveal(lowering::fresh_block);
            }
            lemma_start_block(c, l1, bs);
            assert(lowering::fresh_block(l2) == Some(l2)) by {
                reveal(lowering::fresh_block);
                reveal(is_on);
            }
            assert(lowering::statement(l2, body[0]) == lowering::statement(l1, body[0]));
            assert(lowering::every(l2, body) == Some(l3));
            let r = lemma_every(c, l2, body, bs);
            let m2 = run(w, l2.code);
            assert(seen(m2, bs).locals =~= Seq::new(params.len(), |i: int| (params[i]@, 0int)));
            assert(lowering::return_zero(Some(l3)) == Some(f)) by {
                reveal(lowering::end_function);
            }
            flow::lemma_return_zero(w, l3.code, l3.word);
            assert(r.end is Some ==> run(w, l3.code).at is None);
            r
        },
        None => Passage {
            variables: Seq::empty(),
            store: Store { locals: Seq::empty(), memory: Map::empty() },
            end: None,
        },
    }
}

/// A function in a function without statements returns zero.
pub proof fn law_empty_function(
    c: Setting,
    l: Lowering,
    params: Seq<String>,
    body: Seq<Statement>,
)
    requires
        body.len() == 0,
        c.world.entry == Block(0),
    ensures
        lowering::function(l, params, body) matches Some(f) ==> {
            let m = run(c.world, f.code);
            &&& m.at is None
            &&& m.result == Some(0int)
            &&& m.memory == c.world.memory
        },
{
    match lowering::function(l, params, body) {
        Some(f) => {
            let w = c.world;
            let l2 = lowering::begin_function(l, params)->0;
            assert(lowering::end_function(l2) == Some(f));
            let l1 = lowering::function_start(l, params.len() as usize)->0;
            assert(lowering::function_start(l, params.len() as usize) == Some(l1)
                && lowering::bind_params(l1, lowering::entry(), params, 0) == Some(l2)) by {
                reveal(lowering::begin_function);
            }
            let signature = Signature {
                int: l.word,
                params: params.len() as usize,
                returns: 1,
            };
            let none = Seq::<Request>::empty();
            let begin = Request::Begin { signature };
            let block = lowering::entry();
            let h0 = none.push(begin);
            assert(seq![begin] =~= h0);
            let h1 = h0.push(Request::CreateBlock);
            ir::lemma_push(none, begin);
            lemma_run(w, none, begin);
            ir::lemma_push(h0, Request::CreateBlock);
            lemma_run(w, h0, Request::CreateBlock);
            let ty = Type::Int(ir::signature(h1).int);
            let r = Request::AppendParam { block, ty };
            let k = ir::signature(h1).params as nat;
            assert(ir::params(none, block).len() == 0);
            lemma_entry_params(w, h1, ty, k);
            let h2 = h1 + Seq::new(k, |i: int| r);
            assert(Seq::new(k, |i: int| Request::AppendParam { block: w.entry, ty }) =~= Seq::new(
                k,
                |i: int| Request::AppendParam { block, ty: Type::Int(ir::signature(h1).int) },
            ));
            assert(Seq::new(k, |i: int| r) =~= Seq::new(
                k,
                |i: int| Request::AppendParam { block: w.entry, ty },
            ));
            let r3 = Request::Switch { block };
            let h3 = h2.push(r3);
            ir::lemma_push(h2, r3);
            lemma_run(w, h2, r3);
            let r4 = Request::Seal { block };
            ir::lemma_push(h3, r4);
            lemma_run(w, h3, r4);
            assert(l1.code == h3.push(r4));
            lemma_bind_anywhere(w, l1, block, params, 0);
            assert(lowering::return_zero(Some(l2)) == Some(f)) by {
                reveal(lowering::end_function);
            }
            let zero = Inst::Iconst { ty: l2.word, imm: 0 };
            let h5 = ir::emit(l2.code, zero)->0;
            let back = Inst::Return { args: seq![h5] };
            ir::lemma_push(l2.code, Request::Emit { block, inst: zero });
            lemma_run(w, l2.code, Request::Emit { block, inst: zero });
            lemma_run(w, h5, Request::Emit { block, inst: back });
        },
        None => {},
    }
}

/// Variables for parameters leave control and memory alone.
proof fn lemma_bind_anywhere(w: World, l: Lowering, entry: Block, names: Seq<String>, i: nat)
    ensures
        lowering::bind_params(l, entry, names, i) matches Some(l1) ==> {
            &&& run(w, l1.code).at == run(w, l.code).at
            &&& run(w, l1.code).memory == run(w, l.code).memory
            &&& ir::position(l1.code) == ir::position(l.code)
        },
    decreases names.len() - i,
{
    let params = ir::params(l.code, entry);
    if i < names.len() && i < params.len() {
        let name = names[i as int]@;
        let v = params[i as int];
        match lowering::bind_local(l, name, v) {
            Some(l1) => {
                reveal(lowering::bind_local);
                let var = Variable(l.next_var as u32);
                let r = Request::DeclareVar { var, ty: l.word };
                let r1 = Request::DefVar { var, value: v };
                ir::lemma_push(l.code, r);
                lemma_run(w, l.code, r);
                ir::lemma_push(l.code.push(r), r1);
                lemma_run(w, l.code.push(r), r1);
                lemma_bind_anywhere(w, l1, entry, names, i + 1);
            },
            None => {},
        }
    }
}

// ---------------------------------------------------------------------------
// What code refers to

/// The names of a function statement are put together with dots between them.
pub proof fn law_joined(names: Seq<String>, name: String)
    ensures
        names.len() == 0 ==> lowering::joined(names.push(name)) == name@,
        names.len() != 0 ==> lowering::joined(names.push(name)) == lowering::joined(names) + "."@
            + name@,
{
    assert(names.push(name).drop_last() =~= names);
}

/// A new global variable is a zero of eight bytes.
pub proof fn law_new_global(l: Lowering, name: Seq<char>)
    requires
        !l.globals.contains_key(name),
    ensures
        lowering::declare_global(l, name, None) matches Some((l1, id)) ==> {
            &&& l1.globals == l.globals.insert(name, id)
            &&& l1.module.data[id.0 as int].contents matches Some(bytes)
            &&& bytes.len() == 8
            &&& forall|i: int| 0 <= i < 8 ==> #[trigger] bytes[i] == 0
        },
{
}

/// A computed function is called as one that takes as many words as there are
/// arguments, and gives back one.
pub proof fn law_call_signature(l: Lowering, func: Origin, args: Seq<Origin>)
    requires
        ir::signature_imports(l.code) <= u32::MAX,
    ensures
        lowering::call_value(l, func, args) matches Some((l1, _)) ==> (l1.code.last()
            matches Request::Emit { inst: Inst::CallIndirect { signature, .. }, .. } && (
        ir::imported_signature(l1.code, signature) matches Some(s) && s.int == l.word && s.params
            == args.len() as usize && s.returns == 1)),
{
    match lowering::call_value(l, func, args) {
        Some((l1, _)) => {
            reveal(lowering::call_value);
            let signature = Signature { int: l.word, params: args.len() as usize, returns: 1 };
            let h1 = l.code.push(Request::ImportSignature { signature });
            assert(h1.drop_last() =~= l.code);
            assert(l1.code.drop_last() =~= h1);
        },
        None => {},
    }
}

/// A helper function is called as one that takes as many words as there are
/// arguments, and gives back one.
pub proof fn law_helper_signature(l: Lowering, name: Seq<char>, args: Seq<Origin>)
    requires
        ir::function_imports(l.code) <= u32::MAX,
    ensures
        lowering::call_helper(l, name, args) matches Some((l1, _)) ==> (l1.code.last()
            matches Request::Emit { inst: Inst::Call { callee, .. }, .. } && (ir::callee_signature(
            l1.code,
            callee,
        ) matches Some(s) && s.int == l.word && s.params == args.len() as usize && s.returns
            == 1)),
{
    match lowering::call_helper(l, name, args) {
        Some((l1, _)) => {
            reveal(lowering::call_helper);
            let (l2, callee) = lowering::import_helper(l, name, args.len() as usize)->0;
            assert(l2.code.drop_last() =~= l.code);
            assert(l1.code.drop_last() =~= l2.code);
        },
        None => {},
    }
}

/// Whether a value is the address of a data object.
pub open spec fn points_to(v: Origin, id: DataId) -> bool {
    &&& v.len() != 0
    &&& v.last() matches Request::Emit { inst: Inst::SymbolValue { data, .. }, .. }
    &&& imported_data(v.drop_last(), data) == id
}

/// Whether the last request is a call with the given arguments.
pub open spec fn passes(h: Seq<Request>, args: Seq<Origin>) -> bool {
    h.last() matches Request::Emit { inst: Inst::Call { args: passed, .. }, .. } && passed == args
}

/// Whether `key` is the address of a new data object with the given contents.
pub open spec fn is_new_text(l: Lowering, l1: Lowering, key: Origin, bytes: Seq<u8>) -> bool {
    let id = l1.globals[title(l.strings)];
    &&& l1.globals.contains_key(title(l.strings))
    &&& l1.module.data[id.0 as int].contents == Some(bytes)
    &&& points_to(key, id)
}

proof fn lemma_new_text(l: Lowering, bytes: Seq<u8>)
    requires
        !l.globals.contains_key(title(l.strings)),
    ensures
        lowering::string_pointer(l, bytes) matches Some((l1, key)) ==> is_new_text(
            l,
            l1,
            key,
            bytes,
        ),
{
    match lowering::string_pointer(l, bytes) {
        Some((l3, key)) => {
            reveal(lowering::string_pointer);
            reveal(lowering::global_pointer);
            let l1 = lowering::made_up(l)->0;
            let (l2, id) = lowering::declare_global(l1, title(l.strings), Some(bytes))->0;
            let r = Request::ImportData { data: id };
            crate::execution::lemma_imported(l2.code, r);
            assert(key.drop_last() =~= l2.code.push(r));
        },
        None => {},
    }
}

/// A string literal is the address of a new data object with exactly its bytes,
/// if its name is not taken.
pub proof fn law_string_literal(l: Lowering, bytes: Vec<u8>)
    requires
        !l.globals.contains_key(title(l.strings)),
    ensures
        lowering::expression(l, Expression::String(bytes)) matches Some((l1, key)) ==> is_new_text(
            l,
            l1,
            key,
            bytes@,
        ),
{
    lemma_new_text(l, bytes@);
}

/// A field of a table is looked up by a new string with exactly its name, if the
/// name of the string is not taken.
pub proof fn law_field_is_read(l: Lowering, table: Origin, field: Seq<char>)
    requires
        !l.globals.contains_key(title(l.strings)),
    ensures
        lowering::load_field(l, table, field) matches Some((l1, _)) ==> exists|key: Origin|
            #[trigger]
            is_new_text(l, l1, key, vstd::utf8::encode_utf8(field)) && passes(
                l1.code,
                seq![table, key],
            ),
{
    match lowering::load_field(l, table, field) {
        Some((l2, _)) => {
            reveal(lowering::load_field);
            let bytes = vstd::utf8::encode_utf8(field);
            let (l1, key) = lowering::string_pointer(l, bytes)->0;
            lemma_new_text(l, bytes);
            reveal(lowering::call_helper);
            assert(is_new_text(l, l2, key, bytes));
        },
        None => {},
    }
}

/// A field of a table is written by a new string with exactly its name, if the
/// name of the string is not taken.
pub proof fn law_field_is_written(l: Lowering, table: Origin, field: Seq<char>, v: Origin)
    requires
        !l.globals.contains_key(title(l.strings)),
    ensures
        lowering::store_field(l, table, field, v) matches Some(l1) ==> exists|key: Origin|
            #[trigger]
            is_new_text(l, l1, key, vstd::utf8::encode_utf8(field)) && passes(
                l1.code,
                seq![table, key, v],
            ),
{
    match lowering::store_field(l, table, field, v) {
        Some(l2) => {
            reveal(lowering::store_field);
            reveal(lowering::store_entry);
            let bytes = vstd::utf8::encode_utf8(field);
            let (l1, key) = lowering::string_pointer(l, bytes)->0;
            lemma_new_text(l, bytes);
            reveal(lowering::call_helper);
            assert(is_new_text(l, l2, key, bytes));
        },
        None => {},
    }
}

} // verus!
