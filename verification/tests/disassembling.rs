use rox::assembly::AssemblyPass;
use rox::chunk::{Chunk, Constant};
use rox::executable::{push_op_text, Executable, FunctionDef};
use rox::lexer::Lexer;
use rox::name_pass::NameResolutionPass;
use rox::op::Op;
use rox::parser::{Ast, Parser};

fn parse(source: &str) -> Ast {
    let lexed = Lexer::new(source).lex();
    assert!(lexed.errors.is_empty());
    let output = Parser::new(lexed.tokens).parse();
    assert!(output.errors.is_empty());
    output.ast.unwrap()
}

fn texts(chunk: &Chunk) -> Vec<Vec<u8>> {
    chunk
        .constants()
        .iter()
        .map(|c| match c.display() {
            Some(text) => text,
            None => match c {
                Constant::Float(lexeme) => {
                    let value: f64 = String::from_utf8(lexeme.clone()).unwrap().parse().unwrap();
                    format!("{value}").into_bytes()
                }
                _ => unreachable!(),
            },
        })
        .collect()
}

fn op_text(op: Op) -> String {
    let mut out = Vec::new();
    push_op_text(&mut out, &op);
    String::from_utf8(out).unwrap()
}

#[test]
fn instructions_are_written_with_their_operands() {
    assert_eq!(op_text(Op::Return), "Return");
    assert_eq!(op_text(Op::Constant { constant_index: 3 }), "Constant { constant_index=3 }");
    assert_eq!(op_text(Op::Loop { distance: 300 }), "Loop { distance=300 }");
    assert_eq!(
        op_text(Op::InvokeLong { constant_index: 7, arity: 2 }),
        "InvokeLong { constant_index=7 arity=2 }"
    );
}

#[test]
fn constants_display_where_the_library_can() {
    assert_eq!(Constant::String(b"hi".to_vec()).display(), Some(b"hi".to_vec()));
    assert_eq!(Constant::Function(12).display(), Some(b"<fun 12>".to_vec()));
    assert_eq!(Constant::Float(b"1.50".to_vec()).display(), None);
}

#[test]
fn listing_of_a_program() {
    let ast = parse("print 1.50;");
    let output = NameResolutionPass::compile(&ast);
    let chunk = AssemblyPass::new(&output.resolutions, &output.block_locals, Chunk::new())
        .compile_program(&ast.program);
    let constant_texts = texts(&chunk);
    let executable = Executable { chunk, functions: Vec::new(), classes: Vec::new() };
    let listing = String::from_utf8(executable.disassemble(&constant_texts)).unwrap();
    let eof = ast.program.eof;
    let expected = format!(
        "0000 6..10 Constant {{ constant_index=0 }} 1.5\n0002 0..5 Print\n0003 {}..{} Nil\n0004    | Return\n",
        eof.start(),
        eof.end()
    );
    assert_eq!(listing, expected);
}

#[test]
fn listing_marks_where_functions_start() {
    let ast = parse("fun f(a) { print a; }");
    let output = NameResolutionPass::compile(&ast);
    let chunk = AssemblyPass::new(&output.resolutions, &output.block_locals, Chunk::new())
        .compile_program(&ast.program);
    let ip = chunk.current();
    let chunk = AssemblyPass::new(&output.resolutions, &output.block_locals, chunk)
        .compile_function(output.function_infos[0].function);
    let constant_texts = texts(&chunk);
    let function = FunctionDef { name: b"f".to_vec(), arity: 1, ip, captures: Vec::new() };
    let executable = Executable { chunk, functions: vec![function], classes: Vec::new() };
    let listing = String::from_utf8(executable.disassemble(&constant_texts)).unwrap();
    let eof = ast.program.eof;
    let expected = format!(
        "0000 0..3 CloseFunction {{ function_index=0 }} f(1)\n\
         0002 4..5 DefineGlobal {{ constant_index=0 }} f\n\
         0004 {}..{} Nil\n\
         0005    | Return\n\
         f(1):\n\
         0006 17..18 GetLocal {{ local_index=1 }}\n\
         0008 11..16 Print\n\
         0009 20..21 Nil\n\
         000a    | Return\n",
        eof.start(),
        eof.end()
    );
    assert_eq!(listing, expected);
}

#[test]
fn one_instruction_at_a_time() {
    let ast = parse("print 1;");
    let output = NameResolutionPass::compile(&ast);
    let chunk = AssemblyPass::new(&output.resolutions, &output.block_locals, Chunk::new())
        .compile_program(&ast.program);
    let constant_texts = texts(&chunk);
    let executable = Executable { chunk, functions: Vec::new(), classes: Vec::new() };
    let mut ip = 0;
    let mut out = Vec::new();
    executable.disassemble_instruction(&mut ip, &constant_texts, &mut out);
    assert_eq!(ip, 2);
    assert_eq!(String::from_utf8(out).unwrap(), "0000 6..7 Constant { constant_index=0 } 1\n");
}
