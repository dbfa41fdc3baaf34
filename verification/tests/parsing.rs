use rox::ast::{BinaryOperator, Expr, Literal, Stmt};
use rox::lexer::Lexer;
use rox::parser::{ParseError, ParseOutput, Parser};
use rox::span::Span;

fn parse(source: &str) -> ParseOutput {
    let lexed = Lexer::new(source).lex();
    Parser::new(lexed.tokens).parse()
}

#[test]
fn parse_print_of_sum() {
    let output = parse("print 1 + 2;");
    assert!(output.errors.is_empty());
    let ast = output.ast.unwrap();
    assert_eq!(ast.program.stmts.len(), 1);
    match &ast.program.stmts[0] {
        Stmt::Print(print) => match &print.expr {
            Expr::Binary(binary) => {
                assert!(matches!(binary.operator, BinaryOperator::Add(_)));
                assert!(matches!(&*binary.left, Expr::Literal(l) if matches!(&l.literal, Literal::Float { value, .. } if value == b"1")));
                assert!(matches!(&*binary.right, Expr::Literal(l) if matches!(&l.literal, Literal::Float { value, .. } if value == b"2")));
            }
            _ => panic!("expected a binary expression"),
        },
        _ => panic!("expected a print statement"),
    }
}

#[test]
fn parse_precedence() {
    let output = parse("print 1 + 2 * 3;");
    let ast = output.ast.unwrap();
    match &ast.program.stmts[0] {
        Stmt::Print(print) => match &print.expr {
            Expr::Binary(binary) => {
                assert!(matches!(binary.operator, BinaryOperator::Add(_)));
                assert!(matches!(&*binary.right, Expr::Binary(inner) if matches!(inner.operator, BinaryOperator::Multiply(_))));
            }
            _ => panic!("expected a binary expression"),
        },
        _ => panic!("expected a print statement"),
    }
}

#[test]
fn parse_missing_expression() {
    let output = parse("print 1 +;");
    assert_eq!(output.errors, vec![ParseError::ExpectedExpression(Span::new(9, 10))]);
}

#[test]
fn parse_missing_semicolon() {
    let output = parse("print 1");
    assert_eq!(
        output.errors,
        vec![ParseError::UnterminatedStatement { stmt: Span::new(0, 7), next: Span::new(7, 7) }]
    );
}

#[test]
fn parse_declarations() {
    let output = parse("var a = 1; fun f(x, y) { return x; } class C { m() {} }");
    assert!(output.errors.is_empty());
    let ast = output.ast.unwrap();
    assert_eq!(ast.program.stmts.len(), 3);
    assert!(matches!(&ast.program.stmts[0], Stmt::VarDecl(v) if v.identifier.value == b"a"));
    match &ast.program.stmts[1] {
        Stmt::FunDecl(f) => {
            assert_eq!(f.identifier.value, b"f".to_vec());
            assert_eq!(f.function.params.len(), 2);
        }
        _ => panic!("expected a function declaration"),
    }
    match &ast.program.stmts[2] {
        Stmt::ClassDecl(c) => {
            assert_eq!(c.identifier.value, b"C".to_vec());
            assert_eq!(c.methods.len(), 1);
        }
        _ => panic!("expected a class declaration"),
    }
}

#[test]
fn parse_repl_line() {
    let lexed = Lexer::new("var a = 2;").lex();
    let output = Parser::new(lexed.tokens).parse_repl();
    assert!(output.errors.is_empty());
    assert_eq!(output.ast.unwrap().program.stmts.len(), 1);
}

#[test]
fn statements_after_a_bad_one_are_kept_in_order() {
    let lexed = Lexer::new("print 1; print ; print 2;").lex();
    let output = Parser::new(lexed.tokens).parse();
    assert_eq!(output.errors.len(), 1);
    let program = output.ast.unwrap().program;
    assert_eq!(program.stmts.len(), 2);
    match (&program.stmts[0], &program.stmts[1]) {
        (Stmt::Print(first), Stmt::Print(second)) => {
            assert_eq!(first.print, Span::new(0, 5));
            assert_eq!(second.print, Span::new(17, 22));
            assert_eq!(second.semi, Span::new(24, 25));
        }
        _ => panic!("expected two print statements"),
    }
    assert_eq!(program.eof, Span::new(25, 25));
}

#[test]
fn for_loops_become_while_loops_in_a_block() {
    let lexed = Lexer::new("for (var i = 0; i < 3; i = i + 1) print i;").lex();
    let output = Parser::new(lexed.tokens).parse();
    assert!(output.errors.is_empty());
    let program = output.ast.unwrap().program;
    assert_eq!(program.stmts.len(), 1);
    let for_ = Span::new(0, 3);
    let block = match &program.stmts[0] {
        Stmt::Block(block) => block,
        _ => panic!("expected a block"),
    };
    assert_eq!(block.lbrace, for_);
    assert_eq!(block.rbrace, for_);
    assert_eq!(block.stmts.len(), 2);
    assert!(matches!(block.stmts[0], Stmt::VarDecl(_)));
    let w = match &block.stmts[1] {
        Stmt::While(w) => w,
        _ => panic!("expected a while loop"),
    };
    assert_eq!(w.while_, for_);
    assert_eq!(w.lparen, Span::new(4, 5));
    assert!(matches!(w.expr, Expr::Binary(_)));
    match &*w.body {
        Stmt::Block(body) => {
            assert_eq!(body.lbrace, for_);
            assert_eq!(body.stmts.len(), 2);
            assert!(matches!(body.stmts[0], Stmt::Print(_)));
            match &body.stmts[1] {
                Stmt::Expr(increment) => {
                    assert!(matches!(increment.expr, Expr::Assign(_)));
                    assert_eq!(increment.semi, for_);
                }
                _ => panic!("expected the increment"),
            }
        }
        _ => panic!("expected a block around the body"),
    }
}

#[test]
fn for_without_increment_keeps_its_body() {
    let lexed = Lexer::new("for (; x; ) print 1;").lex();
    let output = Parser::new(lexed.tokens).parse();
    assert!(output.errors.is_empty());
    let program = output.ast.unwrap().program;
    let block = match &program.stmts[0] {
        Stmt::Block(block) => block,
        _ => panic!("expected a block"),
    };
    assert_eq!(block.stmts.len(), 1);
    match &block.stmts[0] {
        Stmt::While(w) => {
            assert!(matches!(w.expr, Expr::Variable(_)));
            assert!(matches!(*w.body, Stmt::Print(_)));
        }
        _ => panic!("expected a while loop"),
    }
}

#[test]
fn class_without_brace_is_skipped_with_one_error() {
    let output = parse("class A;");
    assert_eq!(output.errors, vec![ParseError::ExpectedLeftBrace(Span::new(7, 8))]);
    assert!(output.ast.unwrap().program.stmts.is_empty());
}

#[test]
fn function_without_body_is_skipped_silently() {
    let output = parse("fun f() x; print 1;");
    assert!(output.errors.is_empty());
    let ast = output.ast.unwrap();
    assert_eq!(ast.program.stmts.len(), 1);
    assert!(matches!(ast.program.stmts[0], Stmt::Print(_)));
}

#[test]
fn for_without_parenthesis_is_an_error() {
    let output = parse("for x");
    assert_eq!(output.errors, vec![ParseError::ExpectedLeftParen(Span::new(4, 5))]);
    assert!(output.ast.unwrap().program.stmts.is_empty());
}

#[test]
fn bare_name_at_the_prompt_is_printed() {
    let lexed = Lexer::new("x").lex();
    let output = Parser::new(lexed.tokens).parse_repl();
    assert!(output.errors.is_empty());
    let ast = output.ast.unwrap();
    assert_eq!(ast.program.stmts.len(), 1);
    match &ast.program.stmts[0] {
        Stmt::Print(print) => {
            assert_eq!(print.print, Span::null());
            assert_eq!(print.semi, Span::null());
            match &print.expr {
                Expr::Variable(v) => {
                    assert_eq!(v.name.identifier.value, b"x".to_vec());
                    assert_eq!(v.name.decoration.index(), 0);
                }
                _ => panic!("expected a variable"),
            }
        }
        _ => panic!("expected a print statement"),
    }
}

#[test]
fn simple_statements_parse_without_error() {
    let output = parse("print x; var a = 1; var b; true; print nil; this;");
    assert!(output.errors.is_empty());
    let ast = output.ast.unwrap();
    assert_eq!(ast.program.stmts.len(), 6);
    assert!(matches!(ast.program.stmts[0], Stmt::Print(_)));
    assert!(matches!(ast.program.stmts[1], Stmt::VarDecl(_)));
    assert!(matches!(ast.program.stmts[2], Stmt::VarDecl(_)));
    assert!(matches!(ast.program.stmts[3], Stmt::Expr(_)));
    assert!(matches!(ast.program.stmts[4], Stmt::Print(_)));
    assert!(matches!(ast.program.stmts[5], Stmt::Expr(_)));
}

#[test]
fn simple_control_flow_parses_without_error() {
    let output = parse("var a = 1; if (a) { print a; var b; } else print nil; while (false) { a; { } }");
    assert!(output.errors.is_empty());
    let ast = output.ast.unwrap();
    assert_eq!(ast.program.stmts.len(), 3);
    assert!(matches!(ast.program.stmts[1], Stmt::If(_)));
    assert!(matches!(ast.program.stmts[2], Stmt::While(_)));
}

#[test]
fn simple_functions_parse_without_error() {
    let output = parse("fun f(a, b,) { var c = a; return c; } fun g() { return; } print f;");
    assert!(output.errors.is_empty());
    let ast = output.ast.unwrap();
    assert_eq!(ast.program.stmts.len(), 3);
    assert!(matches!(ast.program.stmts[0], Stmt::FunDecl(_)));
    assert!(matches!(ast.program.stmts[1], Stmt::FunDecl(_)));
}

#[test]
fn full_expressions_parse_without_error() {
    let output = parse(
        "print 1 + 2 * 3 - -4 / 2; var a = f(1, 2).x; a = 3; a.b.c = a or b and !c; print a == b != c < d >= e;",
    );
    assert!(output.errors.is_empty());
    let ast = output.ast.unwrap();
    assert_eq!(ast.program.stmts.len(), 5);
    match &ast.program.stmts[2] {
        Stmt::Expr(s) => assert!(matches!(s.expr, Expr::Assign(_))),
        _ => panic!("expected an expression statement"),
    }
    match &ast.program.stmts[3] {
        Stmt::Expr(s) => assert!(matches!(s.expr, Expr::SetField(_))),
        _ => panic!("expected an expression statement"),
    }
}

#[test]
fn assignment_to_a_call_is_an_error() {
    let output = parse("f() = 1;");
    assert_eq!(output.errors, vec![ParseError::InvalidAssignmentTarget(Span::new(0, 3))]);
    assert!(output.ast.unwrap().program.stmts.is_empty());
}

#[test]
fn for_loops_parse_without_error() {
    let output = parse("for (var i = 0; i < 3; i = i + 1) print i; for (; true;) { } for (x = 1; x; ) print x;");
    assert!(output.errors.is_empty());
    let ast = output.ast.unwrap();
    assert_eq!(ast.program.stmts.len(), 3);
    for stmt in &ast.program.stmts {
        assert!(matches!(stmt, Stmt::Block(_)));
    }
}

#[test]
fn for_with_empty_condition_reads_no_increment() {
    let output = parse("for (;;) print 1;");
    assert_eq!(output.errors[0], ParseError::ExpectedExpression(Span::new(6, 7)));
}

#[test]
fn classes_parse_without_error() {
    let output = parse("class A { f() { return this.x; } g(a) { } } class B < A { } print B;");
    assert!(output.errors.is_empty());
    let ast = output.ast.unwrap();
    assert_eq!(ast.program.stmts.len(), 3);
    match &ast.program.stmts[0] {
        Stmt::ClassDecl(c) => {
            assert_eq!(c.methods.len(), 2);
            assert!(c.inheritance.is_none());
        }
        _ => panic!("expected a class"),
    }
    match &ast.program.stmts[1] {
        Stmt::ClassDecl(c) => assert!(c.inheritance.is_some()),
        _ => panic!("expected a class"),
    }
}

#[test]
fn statement_at_the_prompt_parses_without_error() {
    let lexed = Lexer::new("var x = 1 + f(2);").lex();
    let output = Parser::new(lexed.tokens).parse_repl();
    assert!(output.errors.is_empty());
    let ast = output.ast.unwrap();
    assert_eq!(ast.program.eof, Span::null());
    assert!(matches!(ast.program.stmts[0], Stmt::VarDecl(_)));
}

#[test]
fn class_without_brace_keeps_the_statements_after_it() {
    let output = parse("class A; print 1; var b;");
    assert_eq!(output.errors, vec![ParseError::ExpectedLeftBrace(Span::new(7, 8))]);
    let ast = output.ast.unwrap();
    assert_eq!(ast.program.stmts.len(), 2);
    assert!(matches!(ast.program.stmts[0], Stmt::Print(_)));
    assert!(matches!(ast.program.stmts[1], Stmt::VarDecl(_)));
}
