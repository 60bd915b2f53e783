use lllc::compiler::Compiler;
use lllc::token::TokenType;
use lllc::lexer::Lexer;
use lllc::parser::Parser;

fn compile_source(input: &str) -> Result<String, String> {
    let lexer = Lexer::new(input);
    let mut parser = Parser::new(lexer);
    let ast = parser.parse()?;
    let mut compiler = Compiler::new(ast);
    compiler.compile().map_err(|_| String::from("Compilation error"))
}

#[test]
fn parse_and_compile_addition() {
    assert_eq!(compile_source("(+ 2 3)").unwrap(), "6003600201");
}

#[test]
fn parse_and_compile_nested() {
    // (* (+ 1 2) 4): the product's operands in reverse order, the sum
    // itself built from its reversed operands.
    assert_eq!(compile_source("(* (+ 1 2) 4)").unwrap(), "60046002600101" .to_owned() + "02");
}

#[test]
fn parse_and_compile_conditional() {
    assert_eq!(compile_source("(if 1 2 3)").unwrap(), "6001600a576003600d565b60025b");
}

#[test]
fn parse_and_compile_when_and_unless() {
    assert_eq!(compile_source("(when 1 2)").unwrap(), "60011560085760025b");
    assert_eq!(compile_source("(unless 1 2)").unwrap(), "600160075760025b");
}

#[test]
fn parse_and_compile_comparisons() {
    assert_eq!(compile_source("(< 1 2)").unwrap(), "6002600110");
    assert_eq!(compile_source("(<= 1 2)").unwrap(), "600260011460026001" .to_owned() + "1017");
}

#[test]
fn parse_and_compile_hex_literal() {
    assert_eq!(compile_source("0xaa").unwrap(), "60aa");
}

#[test]
fn empty_source_compiles_to_nothing() {
    assert_eq!(compile_source("").unwrap(), "");
}

#[test]
fn unknown_identifier_is_a_parse_error() {
    let lexer = Lexer::new("(foo 1 2)");
    let mut parser = Parser::new(lexer);
    let e = parser.parse().unwrap_err();
    assert_eq!(e, "Error pase_expression");
}

#[test]
fn invalid_quoted_name_scans_as_invalid() {
    let mut lexer = Lexer::new("'!");
    assert_eq!(lexer.next().token_type, TokenType::INVALID);
}

#[test]
fn invalid_numbers_scan_as_invalid() {
    let mut lexer = Lexer::new("12ab 0xzz 99999999999");
    assert_eq!(lexer.next().token_type, TokenType::INVALID);
    assert_eq!(lexer.next().token_type, TokenType::INVALID);
    assert_eq!(lexer.next().token_type, TokenType::INVALID);
}
