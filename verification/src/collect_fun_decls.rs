use vstd::prelude::*;

use crate::ast::{ElseClause, FunDeclStmt, Function, Method, Stmt};
use crate::decoration::{Dec, DecorationKind, FunctionDecoration};
use crate::parser::Ast;

verus! {

/// The function declarations in a statement, at any depth, each after those
/// declared inside it: the order in which their functions are numbered.
pub open spec fn stmt_fun_decls(s: Stmt) -> Seq<FunDeclStmt>
    decreases s, 0int,
{
    match s {
        Stmt::FunDecl(x) => function_fun_decls(x.function) + seq![x],
        Stmt::ClassDecl(x) => methods_fun_decls(x.methods, 0),
        Stmt::Block(x) => stmts_fun_decls(x.stmts, 0),
        Stmt::If(x) => stmt_fun_decls(*x.stmt) + else_fun_decls(x.else_clause),
        Stmt::While(x) => stmt_fun_decls(*x.body),
        _ => seq![],
    }
}

pub open spec fn else_fun_decls(c: Option<ElseClause>) -> Seq<FunDeclStmt>
    decreases c, 0int,
{
    match c {
        Some(c) => stmt_fun_decls(*c.stmt),
        None => seq![],
    }
}

pub open spec fn function_fun_decls(f: Function) -> Seq<FunDeclStmt>
    decreases f, 0int,
{
    stmts_fun_decls(f.body.stmts, 0)
}

pub open spec fn stmts_fun_decls(ss: Vec<Stmt>, i: int) -> Seq<FunDeclStmt>
    decreases ss, ss@.len() - i,
{
    if 0 <= i < ss@.len() {
        stmt_fun_decls(ss@[i]) + stmts_fun_decls(ss, i + 1)
    } else {
        seq![]
    }
}

pub open spec fn methods_fun_decls(ms: Vec<Method>, i: int) -> Seq<FunDeclStmt>
    decreases ms, ms@.len() - i,
{
    if 0 <= i < ms@.len() {
        function_fun_decls(ms@[i].function) + methods_fun_decls(ms, i + 1)
    } else {
        seq![]
    }
}

/// The decoration index of a declared function.
pub open spec fn fun_index(f: FunDeclStmt) -> int {
    f.function.decoration.spec_index() as int
}

/// Each function decoration of the program numbers exactly one function
/// declaration: every index below the count belongs to a declaration, and
/// no two declarations share one.
pub open spec fn fun_decls_numbered(ast: Ast) -> bool {
    let ds = stmts_fun_decls(ast.program.stmts, 0);
    &&& forall|k: int| 0 <= k < ds.len() ==> fun_index(#[trigger] ds[k]) < ast.decorator.counts()[2]
    &&& forall|j: int, k: int|
        0 <= j < k < ds.len() ==> fun_index(#[trigger] ds[j]) != fun_index(#[trigger] ds[k])
    &&& forall|i: int| 0 <= i < ast.decorator.counts()[2] ==> #[trigger] numbers(ds, i)
}

/// Some declaration of `ds` has the function decoration `i`.
pub open spec fn numbers(ds: Seq<FunDeclStmt>, i: int) -> bool {
    exists|k: int| 0 <= k < ds.len() && fun_index(#[trigger] ds[k]) == i
}

/// Collects the function declarations of a program.
pub struct CollectFunDeclsPass<'ast> {
    functions: Vec<&'ast FunDeclStmt>,
}

impl<'ast> CollectFunDeclsPass<'ast> {
    pub closed spec fn collected(&self) -> Seq<FunDeclStmt> {
        self.functions@.map_values(|f: &'ast FunDeclStmt| *f)
    }

    /// The function declarations of the program, at any depth, each at the
    /// index of its function's decoration.
    pub fn compile(ast: &'ast Ast) -> (r: Vec<&'ast FunDeclStmt>)
        requires
            ast.decorator.wf(),
            fun_decls_numbered(*ast),
        ensures
            r@.len() == ast.decorator.counts()[2],
            forall|i: int| 0 <= i < r@.len() ==> fun_index(*#[trigger] r@[i]) == i,
            forall|k: int|
                0 <= k < stmts_fun_decls(ast.program.stmts, 0).len() ==> *r@[fun_index(
                    #[trigger] stmts_fun_decls(ast.program.stmts, 0)[k],
                )] == stmts_fun_decls(ast.program.stmts, 0)[k],
    {
        let mut pass = CollectFunDeclsPass { functions: Vec::new() };
        proof {
            assert(pass.collected() =~= Seq::<FunDeclStmt>::empty());
        }
        pass.visit_stmts(&ast.program.stmts);
        let ghost ds = stmts_fun_decls(ast.program.stmts, 0);
        proof {
            assert(pass.collected() =~= ds);
            assert(FunctionDecoration::spec_decoration_index() == 2);
        }
        let functions = pass.functions;
        let mut table: Dec<FunctionDecoration, &'ast FunDeclStmt> = Dec::new(&ast.decorator);
        let n = functions.len();
        let mut i: usize = 0;
        while i < n
            invariant
                n == functions@.len(),
                n == ds.len(),
                i <= n,
                fun_decls_numbered(*ast),
                ds == stmts_fun_decls(ast.program.stmts, 0),
                forall|k: int| 0 <= k < n ==> *functions@[k] == ds[k],
                table.wf(),
                table.slots().len() == ast.decorator.counts()[2],
                forall|k: int| 0 <= k < i ==> table.slots()[fun_index(#[trigger] ds[k])] == Some(functions@[k]),
                forall|j: int|
                    0 <= j < table.slots().len() && #[trigger] table.slots()[j] is Some ==> exists|k: int|
                        0 <= k < i && fun_index(#[trigger] ds[k]) == j,
            decreases n - i,
        {
            let f = functions[i];
            proof {
                assert(*functions@[i as int] == ds[i as int]);
                assert(fun_index(ds[i as int]) < table.slots().len());
                if table.slots()[fun_index(ds[i as int])] is Some {
                    let k = choose|k: int| 0 <= k < i && fun_index(#[trigger] ds[k]) == fun_index(ds[i as int]);
                    assert(fun_index(ds[k]) != fun_index(ds[i as int]));
                }
            }
            table.insert(f.function.decoration, f);
            proof {
                assert forall|k: int| 0 <= k < i + 1 implies table.slots()[fun_index(#[trigger] ds[k])] == Some(
                    functions@[k],
                ) by {
                    if k < i {
                        assert(fun_index(ds[k]) != fun_index(ds[i as int]));
                    }
                }
            }
            i += 1;
        }
        proof {
            assert forall|j: int| 0 <= j < table.slots().len() implies table.slots()[j] is Some by {
                assert(numbers(ds, j));
                let k = choose|k: int| 0 <= k < ds.len() && fun_index(#[trigger] ds[k]) == j;
                assert(table.slots()[fun_index(ds[k])] == Some(functions@[k]));
            }
            table.lemma_full();
        }
        let ghost slots = table.slots();
        let r = table.unwrap();
        proof {
            assert forall|i: int| 0 <= i < r@.len() implies fun_index(*#[trigger] r@[i]) == i by {
                assert(numbers(ds, i));
                let k = choose|k: int| 0 <= k < ds.len() && fun_index(#[trigger] ds[k]) == i;
                assert(slots[fun_index(ds[k])] == Some(functions@[k]));
                assert(Some(r@[i]) == slots[i]);
            }
            assert forall|k: int| 0 <= k < ds.len() implies *r@[fun_index(#[trigger] ds[k])] == ds[k] by {
                assert(slots[fun_index(ds[k])] == Some(functions@[k]));
                assert(Some(r@[fun_index(ds[k])]) == slots[fun_index(ds[k])]);
            }
        }
        r
    }

    fn push(&mut self, f: &'ast FunDeclStmt)
        ensures
            final(self).collected() == old(self).collected().push(*f),
    {
        self.functions.push(f);
        proof {
            assert(self.collected() =~= old(self).collected().push(*f));
        }
    }

    fn visit_stmts(&mut self, stmts: &'ast Vec<Stmt>)
        ensures
            final(self).collected() == old(self).collected() + stmts_fun_decls(*stmts, 0),
        decreases stmts,
    {
        let mut i: usize = 0;
        while i < stmts.len()
            invariant
                i <= stmts@.len(),
                old(self).collected() + stmts_fun_decls(*stmts, 0) == self.collected() + stmts_fun_decls(
                    *stmts,
                    i as int,
                ),
            decreases stmts@.len() - i,
        {
            let ghost before = self.collected();
            self.visit_stmt(&stmts[i]);
            proof {
                assert(before + stmts_fun_decls(*stmts, i as int) =~= self.collected() + stmts_fun_decls(
                    *stmts,
                    i + 1,
                ));
            }
            i += 1;
        }
        proof {
            assert(self.collected() + stmts_fun_decls(*stmts, i as int) =~= self.collected());
        }
    }

    fn visit_methods(&mut self, methods: &'ast Vec<Method>)
        ensures
            final(self).collected() == old(self).collected() + methods_fun_decls(*methods, 0),
        decreases methods,
    {
        let mut i: usize = 0;
        while i < methods.len()
            invariant
                i <= methods@.len(),
                old(self).collected() + methods_fun_decls(*methods, 0) == self.collected() + methods_fun_decls(
                    *methods,
                    i as int,
                ),
            decreases methods@.len() - i,
        {
            let ghost before = self.collected();
            self.visit_stmts(&methods[i].function.body.stmts);
            proof {
                assert(methods_fun_decls(*methods, i as int) == function_fun_decls(methods@[i as int].function)
                    + methods_fun_decls(*methods, i + 1));
                assert(function_fun_decls(methods@[i as int].function) == stmts_fun_decls(
                    methods@[i as int].function.body.stmts,
                    0,
                ));
                assert(before + methods_fun_decls(*methods, i as int) =~= self.collected() + methods_fun_decls(
                    *methods,
                    i + 1,
                ));
            }
            i += 1;
        }
        proof {
            assert(self.collected() + methods_fun_decls(*methods, i as int) =~= self.collected());
        }
    }

    fn visit_stmt(&mut self, stmt: &'ast Stmt)
        ensures
            final(self).collected() == old(self).collected() + stmt_fun_decls(*stmt),
        decreases stmt,
    {
        let ghost start = self.collected();
        match stmt {
            Stmt::FunDecl(x) => {
                self.visit_stmts(&x.function.body.stmts);
                self.push(x);
                proof {
                    assert(function_fun_decls(x.function) == stmts_fun_decls(x.function.body.stmts, 0));
                    assert(self.collected() =~= start + stmt_fun_decls(*stmt));
                }
            },
            Stmt::ClassDecl(x) => self.visit_methods(&x.methods),
            Stmt::Block(x) => self.visit_stmts(&x.stmts),
            Stmt::If(x) => {
                self.visit_stmt(&x.stmt);
                let ghost middle = self.collected();
                match &x.else_clause {
                    Some(c) => {
                        self.visit_stmt(&c.stmt);
                        assert(else_fun_decls(x.else_clause) == stmt_fun_decls(*c.stmt));
                    },
                    None => {
                        assert(else_fun_decls(x.else_clause) == Seq::<FunDeclStmt>::empty());
                    },
                }
                proof {
                    assert(self.collected() =~= middle + else_fun_decls(x.else_clause));
                    assert(self.collected() =~= start + stmt_fun_decls(*stmt));
                }
            },
            Stmt::While(x) => self.visit_stmt(&x.body),
            _ => {
                proof {
                    assert(self.collected() =~= start + stmt_fun_decls(*stmt));
                }
            },
        }
    }
}

} // verus!
