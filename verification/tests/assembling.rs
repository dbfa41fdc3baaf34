use rox::assembly::AssemblyPass;
use rox::ast::{Expr, Stmt};
use rox::chunk::{Chunk, Constant};
use rox::lexer::Lexer;
use rox::name_pass::{NameResolutionOutput, NameResolutionPass};
use rox::name_resolution::Resolution;
use rox::parser::{Ast, Parser};
use rox::span::Span;
use rox::token::{Token, TokenKind};

fn parse(source: &str) -> Ast {
    let lexed = Lexer::new(source).lex();
    assert!(lexed.errors.is_empty());
    let output = Parser::new(lexed.tokens).parse();
    assert!(output.errors.is_empty());
    output.ast.unwrap()
}

fn assemble_program(ast: &Ast, output: &NameResolutionOutput) -> Chunk {
    assert!(output.errors.is_empty());
    AssemblyPass::new(&output.resolutions, &output.block_locals, Chunk::new())
        .compile_program(&ast.program)
}

fn float_text(constant: &Constant) -> &[u8] {
    match constant {
        Constant::Float(text) => text,
        _ => panic!("expected a number constant"),
    }
}

fn string_text(constant: &Constant) -> &[u8] {
    match constant {
        Constant::String(text) => text,
        _ => panic!("expected a string constant"),
    }
}

#[test]
fn print_of_a_number() {
    let ast = parse("print 1;");
    let output = NameResolutionPass::compile(&ast);
    let chunk = assemble_program(&ast, &output);
    assert_eq!(chunk.bytes(), &[4, 0, 15, 1, 0][..]);
    assert_eq!(chunk.constants().len(), 1);
    assert_eq!(float_text(&chunk.constants()[0]), b"1");
}

#[test]
fn instructions_carry_their_spans() {
    let ast = parse("print 1;");
    let output = NameResolutionPass::compile(&ast);
    let chunk = assemble_program(&ast, &output);
    assert_eq!(chunk.span(0), Span::new(6, 7));
    assert_eq!(chunk.span(1), Span::new(6, 7));
    assert_eq!(chunk.span(2), Span::new(0, 5));
    assert_eq!(chunk.span(3), ast.program.eof);
    assert_eq!(chunk.span(4), ast.program.eof);
}

#[test]
fn globals_share_one_string_constant() {
    let ast = parse("var a = 1; print a;");
    let output = NameResolutionPass::compile(&ast);
    let chunk = assemble_program(&ast, &output);
    assert_eq!(chunk.bytes(), &[4, 0, 17, 1, 19, 1, 15, 1, 0][..]);
    assert_eq!(chunk.constants().len(), 2);
    assert_eq!(float_text(&chunk.constants()[0]), b"1");
    assert_eq!(string_text(&chunk.constants()[1]), b"a");
}

#[test]
fn block_locals_are_read_by_slot_and_popped() {
    let ast = parse("{ var a = 1; print a; }");
    let output = NameResolutionPass::compile(&ast);
    let slot = match &ast.program.stmts[0] {
        Stmt::Block(block) => match &block.stmts[1] {
            Stmt::Print(print) => match &print.expr {
                Expr::Variable(v) => output.resolutions[v.name.decoration.index()],
                _ => panic!("expected a variable"),
            },
            _ => panic!("expected a print statement"),
        },
        _ => panic!("expected a block"),
    };
    let local_index = match slot {
        Resolution::Local { local_index } => local_index,
        _ => panic!("expected a local"),
    };
    let chunk = assemble_program(&ast, &output);
    assert_eq!(chunk.bytes(), &[4, 0, 23, local_index as u8, 15, 16, 1, 0][..]);
}

#[test]
fn if_else_jumps_over_each_branch() {
    let ast = parse("if (true) print 1; else print 2;");
    let output = NameResolutionPass::compile(&ast);
    let chunk = assemble_program(&ast, &output);
    assert_eq!(
        chunk.bytes(),
        &[2, 27, 7, 0, 16, 4, 0, 15, 28, 4, 0, 16, 4, 1, 15, 1, 0][..]
    );
}

#[test]
fn if_without_else_pops_the_condition_on_both_paths() {
    let ast = parse("if (false) print 1;");
    let output = NameResolutionPass::compile(&ast);
    let chunk = assemble_program(&ast, &output);
    assert_eq!(chunk.bytes(), &[3, 27, 4, 0, 16, 4, 0, 15, 16, 1, 0][..]);
}

#[test]
fn while_loops_back_to_its_condition() {
    let ast = parse("while (false) print 1;");
    let output = NameResolutionPass::compile(&ast);
    let chunk = assemble_program(&ast, &output);
    assert_eq!(chunk.bytes(), &[3, 27, 7, 0, 16, 4, 0, 15, 29, 11, 0, 16, 1, 0][..]);
}

#[test]
fn and_short_circuits() {
    let ast = parse("print true and false;");
    let output = NameResolutionPass::compile(&ast);
    let chunk = assemble_program(&ast, &output);
    assert_eq!(chunk.bytes(), &[2, 27, 2, 0, 16, 3, 15, 1, 0][..]);
}

#[test]
fn or_jumps_to_the_right_operand_only_when_false() {
    let ast = parse("print false or true;");
    let output = NameResolutionPass::compile(&ast);
    let chunk = assemble_program(&ast, &output);
    assert_eq!(chunk.bytes(), &[3, 27, 3, 0, 28, 1, 0, 2, 15, 1, 0][..]);
}

#[test]
fn comparisons_that_negate() {
    let ast = parse("print 1 <= 2;");
    let output = NameResolutionPass::compile(&ast);
    let chunk = assemble_program(&ast, &output);
    assert_eq!(chunk.bytes(), &[4, 0, 4, 1, 13, 6, 15, 1, 0][..]);
}

#[test]
fn function_bodies_follow_the_program() {
    let ast = parse("fun f(a) { print a; }");
    let output = NameResolutionPass::compile(&ast);
    assert!(output.errors.is_empty());
    let chunk = AssemblyPass::new(&output.resolutions, &output.block_locals, Chunk::new())
        .compile_program(&ast.program);
    assert_eq!(chunk.bytes(), &[32, 0, 17, 0, 1, 0][..]);
    let function = output.function_infos[0].function;
    let chunk = AssemblyPass::new(&output.resolutions, &output.block_locals, chunk)
        .compile_function(function);
    assert_eq!(chunk.bytes(), &[32, 0, 17, 0, 1, 0, 23, 1, 15, 1, 0][..]);
    assert_eq!(string_text(&chunk.constants()[0]), b"f");
}

#[test]
fn initializers_return_the_instance() {
    let ast = parse("fun f() { }");
    let output = NameResolutionPass::compile(&ast);
    assert!(output.errors.is_empty());
    let function = output.function_infos[0].function;
    let chunk = AssemblyPass::new(&output.resolutions, &output.block_locals, Chunk::new())
        .compile_initializer(function);
    assert_eq!(chunk.bytes(), &[23, 0, 0][..]);
    let chunk = AssemblyPass::new(&output.resolutions, &output.block_locals, Chunk::new())
        .compile_function(function);
    assert_eq!(chunk.bytes(), &[1, 0][..]);
}


#[test]
fn return_without_a_value() {
    let ast = parse("fun f() { return; }");
    let output = NameResolutionPass::compile(&ast);
    assert!(output.errors.is_empty());
    let function = output.function_infos[0].function;
    let chunk = AssemblyPass::new(&output.resolutions, &output.block_locals, Chunk::new())
        .compile_function(function);
    assert_eq!(chunk.bytes(), &[0, 1, 0][..]);
}

#[test]
fn a_string_is_interned_once_per_pass() {
    let ast = parse("var a; a = a;");
    let output = NameResolutionPass::compile(&ast);
    let chunk = assemble_program(&ast, &output);
    assert_eq!(chunk.bytes(), &[1, 17, 0, 19, 0, 21, 0, 16, 1, 0][..]);
    assert_eq!(chunk.constants().len(), 1);
    assert_eq!(string_text(&chunk.constants()[0]), b"a");
}

#[test]
fn string_literals_are_interned_constants() {
    let token = |kind: TokenKind, start: usize, end: usize, value: &[u8]| Token {
        kind,
        span: Span::new(start, end),
        value: value.to_vec(),
    };
    let tokens = vec![
        token(TokenKind::Print, 0, 5, b""),
        token(TokenKind::StringLiteral, 6, 9, b"a"),
        token(TokenKind::Semicolon, 9, 10, b""),
        token(TokenKind::Print, 11, 16, b""),
        token(TokenKind::StringLiteral, 17, 20, b"a"),
        token(TokenKind::Semicolon, 20, 21, b""),
        token(TokenKind::Eof, 21, 21, b""),
    ];
    let output = Parser::new(tokens).parse();
    assert!(output.errors.is_empty());
    let ast = output.ast.unwrap();
    let resolved = NameResolutionPass::compile(&ast);
    let chunk = assemble_program(&ast, &resolved);
    assert_eq!(chunk.bytes(), &[4, 0, 15, 4, 0, 15, 1, 0][..]);
    assert_eq!(chunk.constants().len(), 1);
    assert_eq!(string_text(&chunk.constants()[0]), b"a");
}

fn instruction_starts(bytes: &[u8], start: usize) -> Vec<usize> {
    let mut starts = Vec::new();
    let mut offset = start;
    while offset < bytes.len() {
        let before = offset;
        let op = <rox::op::Op as rox::codec::Codec>::decode(bytes, &mut offset).expect("an instruction");
        let mut again = Vec::new();
        rox::codec::Codec::encode(op, &mut again);
        assert_eq!(&again[..], &bytes[before..offset]);
        starts.push(before);
    }
    assert_eq!(offset, bytes.len());
    starts
}

#[test]
fn compiled_code_decodes_into_whole_instructions() {
    let lexed = Lexer::new(
        "var a = 1; fun f(x, y) { if (x and y or !x) { print x; } else { print y; return; } } \
         while (a < 3) { a = a + 1; } print f(a, 2) >= 3;",
    )
    .lex();
    let output = Parser::new(lexed.tokens).parse();
    let ast = output.ast.unwrap();
    let executable = match rox::compile::compile(&ast, true) {
        Some(Ok(executable)) => executable,
        _ => panic!("expected an executable"),
    };
    let bytes = executable.chunk.bytes();
    let all = instruction_starts(bytes, 0);
    assert!(all.len() > 10);
    let entry = executable.functions[0].ip;
    assert!(all.contains(&entry));
    let from_entry = instruction_starts(bytes, entry);
    assert_eq!(&all[all.len() - from_entry.len()..], &from_entry[..]);
}
