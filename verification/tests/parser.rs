use lish::error::Error;
use lish::lexer::Lexer;
use lish::parser::Parser;
use lish::types::{self, Program, ShellExpr};

fn parse(input: &str) -> Result<Program, Error> {
    let tokens = Lexer::new().tokenize(input).unwrap();

    let mut parser = Parser::new();
    parser.add_tokens(tokens);

    parser.parse()
}

fn assert_input_with_ast(input: &str, expected: Program) {
    let program = parse(input).unwrap();

    assert_eq!(program, expected);
}

#[test]
fn parse_shell_expr() {
    let input = "ls -la file";
    let expected = Program::ShellProgram(ShellExpr {
        command: "ls".to_owned(),
        args: vec!["-la".to_owned(), "file".to_owned()],
    });

    assert_input_with_ast(input, expected);
}

#[test]
fn parse_nil() {
    let input = "(nil)";
    let expected = Program::LispProgram(types::list(vec![types::nil()]));

    assert_input_with_ast(input, expected);
}

#[test]
fn parse_simple_lisp_expression() {
    let input = "(ls a b)";
    let expected = Program::LispProgram(types::list(vec![
        types::symbol("ls".to_owned()),
        types::symbol("a".to_owned()),
        types::symbol("b".to_owned()),
    ]));

    assert_input_with_ast(input, expected);
}

#[test]
fn parse_nested_lisp_expression() {
    let input = "((ls -42) b)";
    let expected = Program::LispProgram(types::list(vec![
        types::list(vec![types::symbol("ls".to_owned()), types::integer(-42)]),
        types::symbol("b".to_owned()),
    ]));

    assert_input_with_ast(input, expected);
}

#[test]
fn parse_string() {
    let input = "(\"string value\")";
    let expected = Program::LispProgram(types::list(vec![types::string("string value".to_owned())]));

    assert_input_with_ast(input, expected);
}

#[test]
fn parse_two_strings_on_same_line() {
    let input = "(\"a\" \"b\")";
    let expected = Program::LispProgram(types::list(vec![
        types::string("a".to_owned()),
        types::string("b".to_owned()),
    ]));

    assert_input_with_ast(input, expected);
}

#[test]
fn parse_string_with_quotes() {
    let input = "(\"a \\\" \" \"b\")";
    let expected = Program::LispProgram(types::list(vec![
        types::string("a \\\" ".to_owned()),
        types::string("b".to_owned()),
    ]));

    assert_input_with_ast(input, expected);
}

#[test]
fn parse_empty_input() {
    assert_eq!(parse("").unwrap(), Program::EmptyProgram);
}

#[test]
fn parse_unclosed_list() {
    match parse("(a b").unwrap_err() {
        Error::ParseError => {}
        _ => {
            assert!(false);
        }
    }
}

#[test]
fn parse_integer_too_large() {
    match parse("(99999999999999999999)").unwrap_err() {
        Error::ParseError => {}
        _ => {
            assert!(false);
        }
    }
}

#[test]
fn parse_smallest_integer() {
    let expected = Program::LispProgram(types::list(vec![types::integer(i64::MIN)]));
    assert_input_with_ast("(-9223372036854775808)", expected);
}

// The same grammar, exercised once more per form.

#[test]
fn parser_parse_nil() {
    assert_input_with_ast(
        "(nil)",
        Program::LispProgram(types::list(vec![types::nil()])),
    );
}

#[test]
fn parser_parse_simple_lisp_expression() {
    assert_input_with_ast(
        "(ls a b)",
        Program::LispProgram(types::list(vec![
            types::symbol("ls".to_owned()),
            types::symbol("a".to_owned()),
            types::symbol("b".to_owned()),
        ])),
    );
}

#[test]
fn parser_parse_nested_lisp_expression() {
    assert_input_with_ast(
        "((ls -42) b)",
        Program::LispProgram(types::list(vec![
            types::list(vec![types::symbol("ls".to_owned()), types::integer(-42)]),
            types::symbol("b".to_owned()),
        ])),
    );
}

#[test]
fn parser_parse_string() {
    assert_input_with_ast(
        "(\"string value\")",
        Program::LispProgram(types::list(vec![types::string("string value".to_owned())])),
    );
}

#[test]
fn parser_parse_two_strings_on_same_line() {
    assert_input_with_ast(
        "(\"a\" \"b\")",
        Program::LispProgram(types::list(vec![
            types::string("a".to_owned()),
            types::string("b".to_owned()),
        ])),
    );
}

#[test]
fn parser_parse_string_with_quotes() {
    assert_input_with_ast(
        "(\"a \\\" \" \"b\")",
        Program::LispProgram(types::list(vec![
            types::string("a \\\" ".to_owned()),
            types::string("b".to_owned()),
        ])),
    );
}

#[test]
fn parser_parse_shell_expr() {
    assert_input_with_ast(
        "ls -la file",
        Program::ShellProgram(ShellExpr {
            command: "ls".to_owned(),
            args: vec!["-la".to_owned(), "file".to_owned()],
        }),
    );
}
