use lish::engine::Engine;
use lish::evaluator::Outcome;
use lish::printer::Printer;

fn run(input: &str) -> String {
    let mut engine = Engine::new();
    let printer = Printer::new();

    match engine.run(input).unwrap() {
        Outcome::Value(v) => printer.print(&v, true),
        _ => panic!("expected a value"),
    }
}

#[test]
fn sums() {
    assert_eq!(run("(+ 1 2)"), "3");
    assert_eq!(run("(+ 2 3)"), "5");
    assert_eq!(run("(+ -2 3)"), "1");
}

#[test]
fn subtraction() {
    assert_eq!(run("(- 1 2)"), "-1");
    assert_eq!(run("(- 10 3)"), "7");
    assert_eq!(run("(- -2 -7)"), "5");
}

#[test]
fn addition_of_non_integer_fails() {
    let mut engine = Engine::new();

    match engine.run("(+ 1 \"a\")").unwrap_err() {
        lish::error::Error::TypeError => {}
        _ => panic!("expected a type error"),
    }
}
