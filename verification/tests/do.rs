use lish::engine::Engine;
use lish::evaluator::Outcome;
use lish::printer::Printer;

fn run(input: &str) -> String {
    let mut engine = Engine::new();
    let printer = Printer::new();

    match engine.run(input).unwrap() {
        Outcome::Value(v) => printer.print(&v, true),
        _ => panic!("expected a value"),
    }
}

#[test]
fn special_form_do() {
    assert_eq!(run("(do (+ 2 3) (+ 3 4))"), "7");
}

#[test]
fn empty_do_yields_nil() {
    assert_eq!(run("(do)"), "nil");
}
