use lish::engine::Engine;
use lish::evaluator::Outcome;
use lish::printer::Printer;

fn run(input: &str) -> String {
    let mut engine = Engine::new();
    let printer = Printer::new();

    match engine.run(input).unwrap() {
        Outcome::Value(v) => printer.print(&v, true),
        _ => panic!("expected a value"),
    }
}

#[test]
fn eval_a_list() {
    assert_eq!(run("(eval (list + 2 3))"), "5");
}
