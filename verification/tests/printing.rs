use rox::lexer::Lexer;
use rox::parser::Parser;
use rox::printer::Printer;

fn printed(source: &str, numbers: Vec<(Vec<u8>, Vec<u8>)>) -> Option<Vec<u8>> {
    let lexed = Lexer::new(source).lex();
    assert!(lexed.errors.is_empty());
    let output = Parser::new(lexed.tokens).parse();
    assert!(output.errors.is_empty());
    let ast = output.ast.unwrap();
    let printer = Printer::new(source.as_bytes().to_vec(), numbers);
    printer.print_stmt(&ast.program.stmts[0])
}

#[test]
fn prints_operations_in_prefix_form() {
    let numbers = vec![(b"1.0".to_vec(), b"1".to_vec())];
    let text = printed("print -1.0 + (2 * 3);", numbers).unwrap();
    assert_eq!(text, b"(print (+ (- 1) (group (* 2 3))))".to_vec());
}

#[test]
fn prints_literals_and_comparisons() {
    let text = printed("!true == nil;", Vec::new()).unwrap();
    assert_eq!(text, b"(expr (== (! true) nil))".to_vec());
}

#[test]
fn declarations_have_no_prefix_form() {
    assert!(printed("var a = 1;", Vec::new()).is_none());
}
