use lish::engine::Engine;
use lish::evaluator::Outcome;
use lish::printer::Printer;

fn run(engine: &mut Engine, input: &str) -> String {
    let printer = Printer::new();

    match engine.run(input).unwrap() {
        Outcome::Value(v) => printer.print(&v, true),
        _ => panic!("expected a value"),
    }
}

#[test]
fn hash_no_args() {
    let mut engine = Engine::new();

    assert_eq!(run(&mut engine, "(hash)"), "{}");
}

#[test]
fn hash_one_pair_of_args() {
    let mut engine = Engine::new();

    assert_eq!(run(&mut engine, "(hash \"a\" 1)"), "{ \"a\" 1 }");
}

#[test]
fn assoc() {
    let mut engine = Engine::new();

    run(&mut engine, "(def h1 (hash))");
    run(&mut engine, "(def h2 (hash-set h1 \"a\" 1))");

    assert_eq!(run(&mut engine, "(display h1)"), "\"{}\"");
    assert_eq!(run(&mut engine, "(display h2)"), "\"{ \"a\" 1 }\"");
}

#[test]
fn hash_set_replaces_existing_key() {
    let mut engine = Engine::new();

    run(&mut engine, "(def h (hash \"a\" 1))");

    assert_eq!(run(&mut engine, "(display (hash-set h \"a\" 2))"), "\"{ \"a\" 2 }\"");
    assert_eq!(run(&mut engine, "(display h)"), "\"{ \"a\" 1 }\"");
}

#[test]
fn hash_with_odd_arguments_fails() {
    let mut engine = Engine::new();

    match engine.run("(hash \"a\")").unwrap_err() {
        lish::error::Error::TypeError => {}
        _ => panic!("expected a type error"),
    }
}
