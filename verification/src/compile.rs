use vstd::prelude::*;

use crate::assembly::{
    asm_function, asm_program, chunk_state, constant_view, copy_bytes, tables_of, Asm, AsmTables,
    AssemblyPass,
};
use crate::ast::Function;
use crate::chunk::{Chunk, Constant};
use crate::flat_resolution::{flat_errors, flat_stmts};
use crate::executable::{ClassDef, Executable, FunctionDef, Place};
use crate::name_pass::{
    resolution_output, resolvable, stmts_classes, stmts_funs, table_view, FunctionInfo, NameResolutionOutput,
    NameResolutionPass,
};
use crate::name_resolution::CompileError;
use crate::parser::Ast;
use crate::punctuated::punctuated_items;

verus! {

/// What compiling gives: the executable, where one was assembled, and the
/// errors found.
pub struct CompileOutput {
    pub executable: Option<Executable>,
    pub errors: Vec<CompileError>,
}

/// An empty chunk at top level, with no strings interned yet.
pub open spec fn empty_state() -> Asm {
    Asm { code: seq![], spans: seq![], constants: seq![], strings: seq![], global: true }
}

/// The state of a new pass over the code assembled so far: no strings
/// interned, at top level.
pub open spec fn fresh(a: Asm) -> Asm {
    Asm { strings: seq![], global: true, ..a }
}

/// The code after the bodies of the first `n` functions, each assembled by
/// a pass of its own, follow the code `a`.
pub open spec fn asm_bodies(t: AsmTables, a: Asm, fs: Seq<Function>, n: int) -> Option<Asm>
    decreases n,
{
    if n <= 0 {
        Some(a)
    } else {
        match asm_bodies(t, a, fs, n - 1) {
            Some(a1) => asm_function(t, fresh(a1), fs[n - 1]),
            None => None,
        }
    }
}

/// The functions that name resolution found, by function decoration.
pub open spec fn resolved_functions(out: NameResolutionOutput) -> Seq<Function> {
    out.function_infos@.map_values(|f: FunctionInfo| *f.function)
}

pub open spec fn resolved_tables(out: NameResolutionOutput) -> AsmTables {
    tables_of(out.resolutions@, out.block_locals@)
}

/// The code of the program, then of each function body in turn; `None`
/// where a jump, an operand or the code does not fit.
pub open spec fn assembled(ast: Ast, out: NameResolutionOutput) -> Option<Asm> {
    let t = resolved_tables(out);
    match asm_program(t, empty_state(), ast.program) {
        Some(a) => asm_bodies(t, a, resolved_functions(out), out.function_infos@.len() as int),
        None => None,
    }
}

/// Where the code of function `i` starts.
pub open spec fn body_start(ast: Ast, out: NameResolutionOutput, i: int) -> int {
    let t = resolved_tables(out);
    asm_bodies(t, asm_program(t, empty_state(), ast.program).unwrap(), resolved_functions(out), i).unwrap().code.len() as int
}

/// Every parameter list can be counted in a `usize`.
pub open spec fn arities_fit(out: NameResolutionOutput) -> bool {
    forall|i: int|
        0 <= i < out.function_infos@.len() ==> (#[trigger] out.function_infos@[i]).function.params.values@.len()
            < usize::MAX
}

/// The chunk holds the code, spans and constants of `a`.
pub open spec fn holds(chunk: Chunk, a: Asm) -> bool {
    &&& chunk.wf()
    &&& chunk.code() == a.code
    &&& chunk.byte_spans() == a.spans
    &&& chunk.constant_table().map_values(|c: Constant| constant_view(c)) == a.constants
}

/// The executable is the program's code and its functions and classes, as
/// name resolution described them.
pub open spec fn executable_of(e: Executable, ast: Ast, out: NameResolutionOutput) -> bool {
    &&& assembled(ast, out) is Some
    &&& holds(e.chunk, assembled(ast, out).unwrap())
    &&& e.functions@.len() == out.function_infos@.len()
    &&& forall|i: int|
        0 <= i < e.functions@.len() ==> {
            let f = #[trigger] e.functions@[i];
            let info = out.function_infos@[i];
            &&& f.name@ == info.identifier.value@
            &&& f.arity == punctuated_items(info.function.params).len()
            &&& f.ip == body_start(ast, out, i)
            &&& f.captures@ == info.captures@
        }
    &&& e.classes@.len() == out.class_infos@.len()
    &&& forall|i: int|
        0 <= i < e.classes@.len() ==> {
            let c = #[trigger] e.classes@[i];
            let info = out.class_infos@[i];
            &&& c.name@ == info.identifier.value@
            &&& c.methods@.len() == info.methods@.len()
            &&& forall|j: int|
                0 <= j < c.methods@.len() ==> (#[trigger] c.methods@[j]).0@ == info.methods@[j].0@
                    && c.methods@[j].1 == info.methods@[j].1
            &&& !c.has_superclass
        }
}

fn copy_places(places: &Vec<Place>) -> (r: Vec<Place>)
    ensures
        r@ == places@,
{
    let mut r: Vec<Place> = Vec::new();
    let mut i: usize = 0;
    while i < places.len()
        invariant
            i <= places@.len(),
            r@ == places@.subrange(0, i as int),
        decreases places@.len() - i,
    {
        r.push(places[i]);
        i += 1;
        proof {
            assert(r@ =~= places@.subrange(0, i as int));
        }
    }
    proof {
        assert(places@.subrange(0, i as int) =~= places@);
    }
    r
}

fn copy_methods(methods: &Vec<(Vec<u8>, usize)>) -> (r: Vec<(Vec<u8>, usize)>)
    ensures
        r@.len() == methods@.len(),
        forall|j: int| 0 <= j < r@.len() ==> (#[trigger] r@[j]).0@ == methods@[j].0@ && r@[j].1 == methods@[j].1,
{
    let mut r: Vec<(Vec<u8>, usize)> = Vec::new();
    let mut i: usize = 0;
    while i < methods.len()
        invariant
            i <= methods@.len(),
            r@.len() == i,
            forall|j: int| 0 <= j < i ==> (#[trigger] r@[j]).0@ == methods@[j].0@ && r@[j].1 == methods@[j].1,
        decreases methods@.len() - i,
    {
        r.push((copy_bytes(&methods[i].0), methods[i].1));
        i += 1;
    }
    r
}

proof fn lemma_new_chunk_state(chunk: Chunk)
    requires
        chunk.code() == Seq::<u8>::empty(),
        chunk.byte_spans() == Seq::<crate::span::Span>::empty(),
        chunk.constant_table() == Seq::<Constant>::empty(),
    ensures
        chunk_state(chunk, true) == empty_state(),
{
    assert(chunk.constant_table().map_values(|c: Constant| constant_view(c)) =~= Seq::<(int, Seq<u8>, usize)>::empty());
    assert(chunk_state(chunk, true) =~= empty_state());
}

/// Assembles the program and then each function body, after the code
/// before it, from what name resolution found; `None` where a jump, an
/// operand or the code does not fit, or a parameter list cannot be counted.
pub fn assemble<'ast>(ast: &'ast Ast, output: &NameResolutionOutput<'ast>) -> (r: Option<Executable>)
    ensures
        r is Some == (assembled(*ast, *output) is Some && arities_fit(*output)),
        r is Some ==> executable_of(r.unwrap(), *ast, *output),
{
    let ghost t = resolved_tables(*output);
    let ghost fs = resolved_functions(*output);
    let empty = Chunk::new();
    proof {
        lemma_new_chunk_state(empty);
    }
    let pass = AssemblyPass::new(&output.resolutions, &output.block_locals, empty);
    let mut chunk = match pass.try_compile_program(&ast.program) {
        Some(chunk) => chunk,
        None => return None,
    };
    let ghost a0 = asm_program(t, empty_state(), ast.program).unwrap();
    let mut functions: Vec<FunctionDef> = Vec::new();
    let n = output.function_infos.len();
    let mut i: usize = 0;
    while i < n
        invariant
            i <= n,
            n == output.function_infos@.len(),
            fs == resolved_functions(*output),
            t == resolved_tables(*output),
            a0 == asm_program(t, empty_state(), ast.program).unwrap(),
            asm_program(t, empty_state(), ast.program) is Some,
            asm_bodies(t, a0, fs, i as int) is Some,
            holds(chunk, asm_bodies(t, a0, fs, i as int).unwrap()),
            functions@.len() == i,
            forall|j: int| 0 <= j < i ==> (#[trigger] output.function_infos@[j]).function.params.values@.len() < usize::MAX,
            forall|j: int|
                0 <= j < i ==> {
                    let f = #[trigger] functions@[j];
                    let info = output.function_infos@[j];
                    &&& f.name@ == info.identifier.value@
                    &&& f.arity == punctuated_items(info.function.params).len()
                    &&& f.ip == asm_bodies(t, a0, fs, j).unwrap().code.len()
                    &&& f.captures@ == info.captures@
                },
        decreases n - i,
    {
        let info = &output.function_infos[i];
        let ghost before = asm_bodies(t, a0, fs, i as int).unwrap();
        if info.function.params.values.len() == usize::MAX {
            proof {
                assert(!arities_fit(*output));
            }
            return None;
        }
        let ip = chunk.current();
        functions.push(
            FunctionDef {
                name: copy_bytes(&info.identifier.value),
                arity: info.function.params.len(),
                ip,
                captures: copy_places(&info.captures),
            },
        );
        let pass = AssemblyPass::new(&output.resolutions, &output.block_locals, chunk);
        proof {
            assert(chunk_state(chunk, true) =~= fresh(before));
            assert(fs[i as int] == *info.function);
        }
        chunk = match pass.try_compile_function(info.function) {
            Some(chunk) => chunk,
            None => {
                proof {
                    assert(asm_bodies(t, a0, fs, i + 1) is None);
                    lemma_bodies_fail(t, a0, fs, i + 1, n as int);
                }
                return None;
            },
        };
        i += 1;
    }
    let mut classes: Vec<ClassDef> = Vec::new();
    let m = output.class_infos.len();
    let mut k: usize = 0;
    while k < m
        invariant
            k <= m,
            m == output.class_infos@.len(),
            classes@.len() == k,
            forall|j: int|
                0 <= j < k ==> {
                    let c = #[trigger] classes@[j];
                    let info = output.class_infos@[j];
                    &&& c.name@ == info.identifier.value@
                    &&& c.methods@.len() == info.methods@.len()
                    &&& forall|l: int|
                        0 <= l < c.methods@.len() ==> (#[trigger] c.methods@[l]).0@ == info.methods@[l].0@
                            && c.methods@[l].1 == info.methods@[l].1
                    &&& !c.has_superclass
                },
        decreases m - k,
    {
        let info = &output.class_infos[k];
        classes.push(
            ClassDef {
                name: copy_bytes(&info.identifier.value),
                methods: copy_methods(&info.methods),
                has_superclass: false,
            },
        );
        k += 1;
    }
    let r = Executable { chunk, functions, classes };
    proof {
        assert forall|j: int| 0 <= j < r.functions@.len() implies r.functions@[j].ip == body_start(*ast, *output, j) by {
        }
    }
    Some(r)
}

/// Once the bodies of the first `i` functions fail to assemble, so do those
/// of the first `n`.
proof fn lemma_bodies_fail(t: AsmTables, a: Asm, fs: Seq<Function>, i: int, n: int)
    requires
        i <= n,
        asm_bodies(t, a, fs, i) is None,
    ensures
        asm_bodies(t, a, fs, n) is None,
    decreases n - i,
{
    if i < n {
        lemma_bodies_fail(t, a, fs, i + 1, n);
    }
}

/// What compiling gives after name resolution gave `out`: its errors where
/// it found some or assembly was not asked for; else the executable
/// assembled from `out`, or `None` where that does not fit.
pub open spec fn compiled_from(ast: Ast, should_assemble: bool, out: NameResolutionOutput, r: Option<Result<Executable, Vec<CompileError>>>) -> bool {
    if !should_assemble || out.errors@.len() > 0 {
        r matches Some(Err(es)) && es@ == out.errors@
    } else {
        &&& r is None <==> !(assembled(ast, out) is Some && arities_fit(out))
        &&& r is Some ==> (r matches Some(Ok(e)) && executable_of(e, ast, out))
    }
}

/// Resolves the names of a program and, where asked to and no error was
/// found, assembles it. `None` where the program is too large to assemble:
/// a jump, an operand or the code does not fit.
pub fn compile(ast: &Ast, should_assemble: bool) -> (r: Option<Result<Executable, Vec<CompileError>>>)
    requires
        resolvable(*ast),
    ensures
        exists|out: NameResolutionOutput|
            resolution_output(*ast, out) && #[trigger] compiled_from(*ast, should_assemble, out, r),
        !should_assemble ==> r matches Some(Err(_)),
        r is None ==> should_assemble,
        flat_stmts(ast.program.stmts, 0) && (!should_assemble || flat_errors(*ast).len() > 0) ==> (r matches Some(
            Err(es),
        ) && es@ == flat_errors(*ast)),
        flat_stmts(ast.program.stmts, 0) && should_assemble && flat_errors(*ast).len() == 0 ==> !(r is Some
            && r.unwrap() is Err),
        r matches Some(Ok(e)) ==> should_assemble && e.functions@.len() == ast.decorator.counts()[2]
            && e.classes@.len() == ast.decorator.counts()[3] && exists|out: NameResolutionOutput|
            out.errors@.len() == 0 && #[trigger] executable_of(e, *ast, out),
        r matches Some(Ok(e)) ==> forall|i: int|
            0 <= i < stmts_funs(ast.program.stmts, 0).len() ==> {
                let f = #[trigger] stmts_funs(ast.program.stmts, 0)[i];
                let d = f.1.decoration.spec_index() as int;
                &&& 0 <= d < e.functions@.len()
                &&& e.functions@[d].name@ == f.0.value@
                &&& e.functions@[d].arity == punctuated_items(f.1.params).len()
            },
        r matches Some(Ok(e)) ==> forall|i: int|
            0 <= i < stmts_classes(ast.program.stmts, 0).len() ==> {
                let c = #[trigger] stmts_classes(ast.program.stmts, 0)[i];
                &&& c.0 < e.classes@.len()
                &&& e.classes@[c.0 as int].name@ == c.1.value@
                &&& table_view(e.classes@[c.0 as int].methods@) == c.2
            },
{
    let output = NameResolutionPass::compile(ast);
    if !should_assemble || output.errors.len() > 0 {
        let ghost out = output;
        let r = Some(Err(output.errors));
        proof {
            assert(compiled_from(*ast, should_assemble, out, r));
        }
        return r;
    }
    match assemble(ast, &output) {
        Some(executable) => {
            proof {
                assert(executable_of(executable, *ast, output));
                let funs = stmts_funs(ast.program.stmts, 0);
                assert forall|i: int| 0 <= i < funs.len() implies {
                    let f = #[trigger] funs[i];
                    let d = f.1.decoration.spec_index() as int;
                    &&& 0 <= d < executable.functions@.len()
                    &&& executable.functions@[d].name@ == f.0.value@
                    &&& executable.functions@[d].arity == punctuated_items(f.1.params).len()
                } by {
                    let d = funs[i].1.decoration.spec_index() as int;
                    assert(executable.functions@[d].name@ == output.function_infos@[d].identifier.value@);
                }
                let classes = stmts_classes(ast.program.stmts, 0);
                assert forall|i: int| 0 <= i < classes.len() implies {
                    let c = #[trigger] classes[i];
                    &&& c.0 < executable.classes@.len()
                    &&& executable.classes@[c.0 as int].name@ == c.1.value@
                    &&& table_view(executable.classes@[c.0 as int].methods@) == c.2
                } by {
                    let d = classes[i].0 as int;
                    let m = executable.classes@[d].methods@;
                    let n = output.class_infos@[d].methods@;
                    assert(table_view(m) =~= table_view(n));
                }
            }
            let r = Some(Ok(executable));
            proof {
                assert(compiled_from(*ast, should_assemble, output, r));
            }
            r
        },
        None => {
            proof {
                assert(compiled_from(*ast, should_assemble, output, None));
            }
            None
        },
    }
}

} // verus!
