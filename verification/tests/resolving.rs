use rox::ast::{Expr, Stmt};
use rox::executable::Place;
use rox::lexer::Lexer;
use rox::name_pass::{global_names, map_insert, NameResolutionPass};
use rox::name_resolution::{CompileError, FrameKind, LocalDeclaration, Resolution};
use rox::parser::{Ast, Parser};
use rox::resolvability::check_resolvable;
use rox::resolver::{NameResolution, ResolveError};
use rox::span::Span;

fn parse(source: &str) -> Ast {
    let lexed = Lexer::new(source).lex();
    assert!(lexed.errors.is_empty());
    let output = Parser::new(lexed.tokens).parse();
    assert!(output.errors.is_empty());
    output.ast.unwrap()
}

fn printed_variable(stmt: &Stmt) -> usize {
    match stmt {
        Stmt::Print(print) => match &print.expr {
            Expr::Variable(v) => v.name.decoration.index(),
            _ => panic!("expected a variable"),
        },
        _ => panic!("expected a print statement"),
    }
}

#[test]
fn top_level_variables_are_global() {
    let ast = parse("var a = 1; print a;");
    let output = NameResolutionPass::compile(&ast);
    assert!(output.errors.is_empty());
    let index = printed_variable(&ast.program.stmts[1]);
    assert_eq!(output.resolutions[index], Resolution::Global);
    assert!(output.block_locals.is_empty());
}

#[test]
fn block_variables_are_local() {
    let ast = parse("{ var a = 1; var b = 2; print b; }");
    let output = NameResolutionPass::compile(&ast);
    assert!(output.errors.is_empty());
    let block = match &ast.program.stmts[0] {
        Stmt::Block(b) => b,
        _ => panic!("expected a block"),
    };
    let index = printed_variable(&block.stmts[2]);
    assert_eq!(output.resolutions[index], Resolution::Local { local_index: 1 });
    assert_eq!(
        output.block_locals[block.decoration.index()],
        vec![LocalDeclaration::Local, LocalDeclaration::Local]
    );
}

#[test]
fn inner_declaration_shadows_outer() {
    let ast = parse("{ var a = 1; { var a = 2; print a; } }");
    let output = NameResolutionPass::compile(&ast);
    assert!(output.errors.is_empty());
    let outer = match &ast.program.stmts[0] {
        Stmt::Block(b) => b,
        _ => panic!("expected a block"),
    };
    let inner = match &outer.stmts[1] {
        Stmt::Block(b) => b,
        _ => panic!("expected a block"),
    };
    let index = printed_variable(&inner.stmts[1]);
    assert_eq!(output.resolutions[index], Resolution::Local { local_index: 1 });
}

#[test]
fn closures_capture_enclosing_locals() {
    let ast = parse("fun outer() { var x = 1; fun inner() { print x; } }");
    let output = NameResolutionPass::compile(&ast);
    assert!(output.errors.is_empty());
    let outer = match &ast.program.stmts[0] {
        Stmt::FunDecl(f) => f,
        _ => panic!("expected a function"),
    };
    let inner = match &outer.function.body.stmts[1] {
        Stmt::FunDecl(f) => f,
        _ => panic!("expected a function"),
    };
    let index = printed_variable(&inner.function.body.stmts[0]);
    assert_eq!(output.resolutions[index], Resolution::Upvalue { upvalue_index: 0 });
    assert_eq!(
        output.block_locals[outer.function.body.decoration.index()],
        vec![LocalDeclaration::Capture, LocalDeclaration::Local]
    );
    let inner_info = &output.function_infos[inner.function.decoration.index()];
    assert_eq!(inner_info.captures, vec![Place::Local { local_index: 1 }]);
    assert_eq!(inner_info.kind, FrameKind::Function);
    assert_eq!(inner_info.identifier.value, b"inner".to_vec());
    let outer_info = &output.function_infos[outer.function.decoration.index()];
    assert!(outer_info.captures.is_empty());
}

#[test]
fn parameters_are_locals_after_the_reserved_slot() {
    let ast = parse("fun f(a, b) { print b; }");
    let output = NameResolutionPass::compile(&ast);
    let f = match &ast.program.stmts[0] {
        Stmt::FunDecl(f) => f,
        _ => panic!("expected a function"),
    };
    let index = printed_variable(&f.function.body.stmts[0]);
    assert_eq!(output.resolutions[index], Resolution::Local { local_index: 2 });
}

#[test]
fn undefined_global_is_reported() {
    let ast = parse("print y;");
    let output = NameResolutionPass::compile(&ast);
    assert_eq!(output.errors, vec![CompileError::UndefinedItem { span: Span::new(6, 7) }]);
}

#[test]
fn builtin_clock_is_defined() {
    let ast = parse("print clock;");
    let output = NameResolutionPass::compile(&ast);
    assert!(output.errors.is_empty());
    assert_eq!(global_names(), vec![b"clock".to_vec()]);
}

#[test]
fn global_redefinition_is_reported() {
    let ast = parse("var a; var a;");
    let output = NameResolutionPass::compile(&ast);
    assert_eq!(
        output.errors,
        vec![CompileError::ItemRedefined { original: Span::new(4, 5), redefinition: Span::new(11, 12) }]
    );
}

#[test]
fn local_redefinition_is_reported() {
    let ast = parse("{ var a; var a; }");
    let output = NameResolutionPass::compile(&ast);
    assert_eq!(
        output.errors,
        vec![CompileError::ItemRedefined { original: Span::new(6, 7), redefinition: Span::new(13, 14) }]
    );
}

#[test]
fn map_insert_keeps_keys_once() {
    let mut methods = Vec::new();
    map_insert(&mut methods, b"init".to_vec(), 1);
    map_insert(&mut methods, b"run".to_vec(), 2);
    map_insert(&mut methods, b"init".to_vec(), 3);
    assert_eq!(methods, vec![(b"init".to_vec(), 3), (b"run".to_vec(), 2)]);
}

#[test]
fn resolver_counts_scopes() {
    let ast = parse("var a = 1; { var b = a; { print b; } }");
    let mut pass = NameResolution::new().pass(vec![]);
    for stmt in &ast.program.stmts {
        pass.visit_stmt(stmt);
    }
    let (resolution, globals, result) = pass.finish();
    assert!(result.is_ok());
    assert_eq!(globals, vec![b"a".to_vec()]);
    let outer = match &ast.program.stmts[1] {
        Stmt::Block(b) => b,
        _ => panic!("expected a block"),
    };
    let a_use = match &outer.stmts[0] {
        Stmt::VarDecl(v) => match &v.assignment.as_ref().unwrap().expr {
            Expr::Variable(var) => var.name.decoration,
            _ => panic!("expected a variable"),
        },
        _ => panic!("expected a declaration"),
    };
    assert_eq!(resolution.get(a_use), Some(1));
    let inner = match &outer.stmts[1] {
        Stmt::Block(b) => b,
        _ => panic!("expected a block"),
    };
    let b_use = match &inner.stmts[0] {
        Stmt::Print(p) => match &p.expr {
            Expr::Variable(var) => var.name.decoration,
            _ => panic!("expected a variable"),
        },
        _ => panic!("expected a print"),
    };
    assert_eq!(resolution.get(b_use), Some(1));
}

#[test]
fn resolver_reports_undefined_and_misplaced_names() {
    let ast = parse("print c; print this; return 1;");
    let mut pass = NameResolution::new().pass(vec![]);
    for stmt in &ast.program.stmts {
        pass.visit_stmt(stmt);
    }
    let (_, _, result) = pass.finish();
    assert_eq!(
        result.unwrap_err(),
        vec![
            ResolveError::UndefinedVariable { span: Span::new(6, 7) },
            ResolveError::ThisOutsideClass { span: Span::new(15, 19) },
            ResolveError::TopLevelReturn { span: Span::new(21, 27) },
        ]
    );
}

#[test]
fn resolver_methods_see_this() {
    let ast = parse("class A { m() { print this; } }");
    let mut pass = NameResolution::new().pass(vec![]);
    for stmt in &ast.program.stmts {
        pass.visit_stmt(stmt);
    }
    let (resolution, _, result) = pass.finish();
    assert!(result.is_ok());
    let class = match &ast.program.stmts[0] {
        Stmt::ClassDecl(c) => c,
        _ => panic!("expected a class"),
    };
    let this_use = match &class.methods[0].function.body.stmts[0] {
        Stmt::Print(p) => match &p.expr {
            Expr::This(t) => t.decoration,
            _ => panic!("expected this"),
        },
        _ => panic!("expected a print"),
    };
    assert_eq!(resolution.get(this_use), Some(1));
}

#[test]
fn resolvable_programs_are_recognized() {
    assert!(check_resolvable(&parse("print 1;")));
    assert!(check_resolvable(&parse("var a = 1; { var b = a; print b; }")));
    assert!(check_resolvable(&parse("fun f(x) { print x; } f(1);")));
    assert!(check_resolvable(&parse("fun f() { return; }")));
}

#[test]
fn unfilled_decorations_are_recognized() {
    assert!(!check_resolvable(&parse("fun f(a) { return a; }")));
    assert!(!check_resolvable(&parse("class A { }")));
}

#[test]
fn names_at_top_level_resolve_to_globals() {
    let ast = parse("var a = 1; if (a) print a; else a = 2; while (a) print a;");
    let output = NameResolutionPass::compile(&ast);
    assert!(output.errors.is_empty());
    assert!(!output.resolutions.is_empty());
    for resolution in &output.resolutions {
        assert_eq!(*resolution, Resolution::Global);
    }
}

#[test]
fn each_undefined_global_is_reported_once_in_order() {
    let ast = parse("print x; print y; print x;");
    let output = NameResolutionPass::compile(&ast);
    assert_eq!(
        output.errors,
        vec![
            CompileError::UndefinedItem { span: Span::new(6, 7) },
            CompileError::UndefinedItem { span: Span::new(15, 16) },
        ]
    );
    assert_eq!(output.resolutions, vec![Resolution::Global, Resolution::Global, Resolution::Global]);
}

#[test]
fn global_defined_after_its_use_is_not_reported() {
    let ast = parse("print a; var a = 1;");
    let output = NameResolutionPass::compile(&ast);
    assert!(output.errors.is_empty());
    assert_eq!(output.resolutions, vec![Resolution::Global]);
}

#[test]
fn nested_blocks_number_their_locals_from_the_outer_ones() {
    let ast = parse("{ var a = 1; { var b = a; print b; } print a; }");
    let output = NameResolutionPass::compile(&ast);
    assert!(output.errors.is_empty());
    assert_eq!(
        output.resolutions,
        vec![Resolution::Local { local_index: 0 }, Resolution::Local { local_index: 1 }, Resolution::Local { local_index: 0 }]
    );
    let outer = match &ast.program.stmts[0] {
        Stmt::Block(b) => b,
        _ => panic!("expected a block"),
    };
    let inner = match &outer.stmts[1] {
        Stmt::Block(b) => b,
        _ => panic!("expected a block"),
    };
    assert_eq!(output.block_locals[outer.decoration.index()], vec![LocalDeclaration::Local]);
    assert_eq!(output.block_locals[inner.decoration.index()], vec![LocalDeclaration::Local]);
}
