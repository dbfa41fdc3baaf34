use rox::collect_fun_decls::CollectFunDeclsPass;
use rox::compile::{assemble, compile, CompileOutput};
use rox::executable::Place;
use rox::lexer::Lexer;
use rox::ast::Stmt;
use rox::name_pass::{ClassInfo, FunctionInfo, NameResolutionOutput, NameResolutionPass};
use rox::name_resolution::{CompileError, FrameKind};
use rox::parser::{Ast, Parser};

fn parse(source: &str) -> Ast {
    let lexed = Lexer::new(source).lex();
    assert!(lexed.errors.is_empty());
    let output = Parser::new(lexed.tokens).parse();
    assert!(output.errors.is_empty());
    output.ast.unwrap()
}

#[test]
fn nothing_is_assembled_unless_asked() {
    let ast = parse("print 1;");
    match compile(&ast, false) {
        Some(Err(errors)) => assert!(errors.is_empty()),
        _ => panic!("expected the errors alone"),
    }
}

#[test]
fn name_errors_stop_assembly() {
    let ast = parse("print x;");
    match compile(&ast, true) {
        Some(Err(errors)) => {
            assert_eq!(errors.len(), 1);
            assert!(matches!(errors[0], CompileError::UndefinedItem { .. }));
        }
        _ => panic!("expected an error"),
    }
}

#[test]
fn functions_follow_the_program_code() {
    let ast = parse("fun f(a) { print a; }");
    let executable = match compile(&ast, true) {
        Some(Ok(executable)) => executable,
        _ => panic!("expected an executable"),
    };
    assert_eq!(executable.chunk.bytes(), &[32, 0, 17, 0, 1, 0, 23, 1, 15, 1, 0][..]);
    assert_eq!(executable.functions.len(), 1);
    assert_eq!(executable.functions[0].name, b"f".to_vec());
    assert_eq!(executable.functions[0].arity, 1);
    assert_eq!(executable.functions[0].ip, 6);
    assert!(executable.functions[0].captures.is_empty());
    assert!(executable.classes.is_empty());
}

#[test]
fn closures_record_their_captures() {
    let ast = parse("fun outer() { var x = 1; fun inner() { print x; } }");
    let executable = match compile(&ast, true) {
        Some(Ok(executable)) => executable,
        _ => panic!("expected an executable"),
    };
    assert_eq!(executable.functions.len(), 2);
    assert_eq!(executable.functions[0].name, b"inner".to_vec());
    assert_eq!(executable.functions[0].captures, vec![Place::Local { local_index: 1 }]);
    assert_eq!(executable.functions[1].name, b"outer".to_vec());
    assert!(executable.functions[0].ip < executable.functions[1].ip);
}

#[test]
fn classes_list_their_methods() {
    let ast = parse("class A { m() { print 1; } }");
    let class = match &ast.program.stmts[0] {
        Stmt::ClassDecl(class) => class,
        _ => panic!("expected a class"),
    };
    let method = &class.methods[0];
    let output = NameResolutionOutput {
        resolutions: Vec::new(),
        block_locals: vec![Vec::new(), Vec::new()],
        function_infos: vec![FunctionInfo {
            identifier: &method.identifier,
            function: &method.function,
            captures: Vec::new(),
            kind: FrameKind::Method,
        }],
        class_infos: vec![ClassInfo { identifier: &class.identifier, methods: vec![(b"m".to_vec(), 0)] }],
        errors: Vec::new(),
    };
    let executable = assemble(&ast, &output).unwrap();
    assert_eq!(executable.chunk.bytes(), &[39, 0, 17, 0, 1, 0, 4, 1, 15, 1, 0][..]);
    assert_eq!(executable.classes.len(), 1);
    assert_eq!(executable.classes[0].name, b"A".to_vec());
    assert_eq!(executable.classes[0].methods, vec![(b"m".to_vec(), 0)]);
    assert!(!executable.classes[0].has_superclass);
    assert_eq!(executable.functions[0].name, b"m".to_vec());
    assert_eq!(executable.functions[0].ip, 6);
}

#[test]
fn assemble_uses_the_resolution_it_is_given() {
    let ast = parse("var a = 1; print a;");
    let output = NameResolutionPass::compile(&ast);
    let executable = assemble(&ast, &output).unwrap();
    assert_eq!(executable.chunk.bytes(), &[4, 0, 17, 1, 19, 1, 15, 1, 0][..]);
    let result = CompileOutput { executable: Some(executable), errors: output.errors };
    assert!(result.errors.is_empty());
    assert!(result.executable.is_some());
}

#[test]
fn function_declarations_inner_first() {
    let ast = parse("fun a() { fun b() { } } { fun c() { } }");
    let decls = CollectFunDeclsPass::compile(&ast);
    let names: Vec<Vec<u8>> = decls.iter().map(|f| f.identifier.value.clone()).collect();
    assert_eq!(names, vec![b"b".to_vec(), b"a".to_vec(), b"c".to_vec()]);
    for (i, f) in decls.iter().enumerate() {
        assert_eq!(f.function.decoration.index(), i);
    }
}

#[test]
fn name_errors_come_back_exactly() {
    let ast = parse("print x; { var a; print a; } print y;");
    match compile(&ast, true) {
        Some(Err(errors)) => assert_eq!(
            errors,
            vec![
                CompileError::UndefinedItem { span: rox::span::Span::new(6, 7) },
                CompileError::UndefinedItem { span: rox::span::Span::new(35, 36) },
            ]
        ),
        _ => panic!("expected the name errors"),
    }
}
