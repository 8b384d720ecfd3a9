use lish::engine::Engine;
use lish::evaluator::Outcome;
use lish::printer::Printer;
use lish::types::{self, LispValue, NativeOp};

fn print(lisp_expr: &LispValue) -> String {
    Printer::new().print(lisp_expr, true)
}

fn display(lisp_expr: &LispValue) -> String {
    Printer::new().print(lisp_expr, false)
}

fn run(input: &str) -> String {
    let mut engine = Engine::new();
    match engine.run(input).unwrap() {
        Outcome::Value(v) => Printer::new().print(&v, true),
        _ => panic!("expected a value"),
    }
}

#[test]
fn print_nil() {
    assert_eq!(print(&types::nil()), "nil");
}

#[test]
fn print_integer() {
    assert_eq!(print(&types::integer(-34)), "-34");
}

#[test]
fn print_symbol() {
    assert_eq!(print(&types::symbol("lol".to_owned())), "lol");
}

#[test]
fn print_string() {
    assert_eq!(print(&types::string("lol".to_owned())), "\"lol\"");
}

#[test]
fn print_string_in_list() {
    assert_eq!(
        print(&types::list(vec![
            types::string("lol".to_owned()),
            types::string("lol2".to_owned())
        ])),
        "(\"lol\" \"lol2\")"
    );
}

#[test]
fn display_integer() {
    assert_eq!(display(&types::integer(1)), "1");
}

#[test]
fn printer_display_string() {
    assert_eq!(display(&types::string("lol".to_owned())), "lol");
}

#[test]
fn display_string_in_list() {
    assert_eq!(
        display(&types::list(vec![
            types::string("lol".to_owned()),
            types::string("lol2".to_owned())
        ])),
        "(lol lol2)"
    );
}

#[test]
fn print_list() {
    assert_eq!(
        print(&types::list(vec![
            types::symbol("lol".to_owned()),
            types::symbol("lol2".to_owned())
        ])),
        "(lol lol2)"
    );
}

#[test]
fn print_native_function() {
    assert_eq!(
        print(&types::native_function(NativeOp::Add)),
        "#<native-function ...>"
    );
}

#[test]
fn print_function() {
    assert_eq!(
        print(&types::function(
            vec!["a".to_owned()],
            types::integer(2),
            0
        )),
        "#<function ...>"
    );
}

#[test]
fn print_nested_list() {
    assert_eq!(
        print(&types::list(vec![
            types::list(vec![types::symbol("lol".to_owned())]),
            types::symbol("lol2".to_owned())
        ])),
        "((lol) lol2)"
    );
}

#[test]
fn write_string() {
    assert_eq!(run("(write \"a\")"), "\"\"a\"\"");
}

#[test]
fn display_string() {
    assert_eq!(run("(display \"a\")"), "\"a\"");
}

#[test]
fn print_smallest_integer() {
    assert_eq!(print(&types::integer(i64::MIN)), "-9223372036854775808");
}

#[test]
fn print_empty_hash() {
    assert_eq!(print(&types::hash_map(vec![])), "{}");
}

#[test]
fn print_hash_with_one_entry() {
    assert_eq!(
        print(&types::hash_map(vec![("a".to_owned(), types::integer(1))])),
        "{ \"a\" 1 }"
    );
}
