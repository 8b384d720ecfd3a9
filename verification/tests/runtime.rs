//! Behaviour of the runtime as a whole: the neutral empty list, failed
//! applications, reading code back from text, shell programs, aliases,
//! and the evaluation depth limit.

use lish::engine::Engine;
use lish::env::{env_new, env_set, EnvArena};
use lish::error::Error;
use lish::evaluator::Outcome;
use lish::printer::Printer;
use lish::shell_evaluator::{resolve_alias, Builtin, CommandType, resolve_command_type};
use lish::types::{self, ShellExpr};

fn run(engine: &mut Engine, input: &str) -> String {
    let printer = Printer::new();

    match engine.run(input).unwrap() {
        Outcome::Value(v) => printer.print(&v, true),
        _ => panic!("expected a value"),
    }
}

#[test]
fn empty_list_is_a_value() {
    let mut engine = Engine::new();

    assert_eq!(run(&mut engine, "()"), "()");
}

#[test]
fn applying_the_empty_list_fails() {
    let mut engine = Engine::new();

    match engine.run("(())").unwrap_err() {
        Error::ApplyEmptyList => {}
        _ => panic!("expected an empty-list application error"),
    }
}

#[test]
fn applying_a_non_function_fails() {
    let mut engine = Engine::new();

    match engine.run("(1 2 3)").unwrap_err() {
        Error::ApplyNonFunction(v) => assert_eq!(v, types::integer(1)),
        _ => panic!("expected a non-function application error"),
    }
}

#[test]
fn read_parses_code_from_text() {
    let mut engine = Engine::new();

    assert_eq!(run(&mut engine, "(eval (read \"(+ 20 22)\"))"), "42");
}

#[test]
fn read_of_written_value_round_trips() {
    let mut engine = Engine::new();

    run(&mut engine, "(def v (list 1 \"a\" nil))");

    assert_eq!(run(&mut engine, "(read (write v))"), "(1 \"a\" nil)");
}

#[test]
fn shell_program_becomes_a_command() {
    let mut engine = Engine::new();

    match engine.run("ls -la file").unwrap() {
        Outcome::Command(cmd) => {
            assert_eq!(cmd.command, "ls");
            assert_eq!(cmd.args, vec!["-la".to_owned(), "file".to_owned()]);
        }
        _ => panic!("expected a command"),
    }
}

#[test]
fn alias_is_resolved_and_retokenized() {
    let mut engine = Engine::new();

    run(&mut engine, "(def ALIASES (hash \"ll\" \"ls -la\"))");

    match engine.run("ll src").unwrap() {
        Outcome::Command(cmd) => {
            assert_eq!(cmd.command, "ls");
            assert_eq!(cmd.args, vec!["-la".to_owned(), "src".to_owned()]);
        }
        _ => panic!("expected a command"),
    }
}

#[test]
fn alias_of_unknown_command_is_kept() {
    let mut arena = EnvArena::new();
    let env = env_new(&mut arena, None);
    env_set(
        &mut arena,
        env,
        "ALIASES",
        types::hash_map(vec![("ll".to_owned(), types::string("ls -la".to_owned()))]),
    );

    let expr = ShellExpr { command: "pwd".to_owned(), args: vec![] };
    let resolved = resolve_alias(expr, env, &arena).unwrap();

    assert_eq!(resolved.command, "pwd");
    assert_eq!(resolved.args, Vec::<String>::new());
}

#[test]
fn non_table_aliases_binding_fails() {
    let mut arena = EnvArena::new();
    let env = env_new(&mut arena, None);
    env_set(&mut arena, env, "ALIASES", types::integer(3));

    let expr = ShellExpr { command: "ls".to_owned(), args: vec![] };

    match resolve_alias(expr, env, &arena).unwrap_err() {
        Error::TypeError => {}
        _ => panic!("expected a type error"),
    }
}

#[test]
fn command_types_are_classified() {
    assert!(matches!(
        resolve_command_type("cd".to_owned()),
        CommandType::Builtin(Builtin::Cd)
    ));
    assert!(matches!(
        resolve_command_type("echo".to_owned()),
        CommandType::Builtin(Builtin::Echo)
    ));
    match resolve_command_type("ls".to_owned()) {
        CommandType::External(name) => assert_eq!(name, "ls"),
        _ => panic!("expected an external command"),
    }
}

#[test]
fn evaluation_deeper_than_the_budget_fails() {
    let mut engine = Engine::new();

    let depth = 600;
    let mut text = String::new();
    for _ in 0..depth {
        text.push_str("(do ");
    }
    text.push('1');
    for _ in 0..depth {
        text.push(')');
    }

    match engine.run(&text).unwrap_err() {
        Error::DepthExceeded => {}
        _ => panic!("expected the depth limit"),
    }
}

#[test]
fn closures_do_not_see_the_call_site() {
    let mut engine = Engine::new();

    run(&mut engine, "(def f ((fn () (do (def x 3) (fn () x)))))");
    run(&mut engine, "(def x 100)");

    assert_eq!(run(&mut engine, "(f)"), "3");
}

#[test]
fn written_symbols_and_integers_read_back() {
    let mut engine = Engine::new();

    run(&mut engine, "(def v (list (list 1 -2) nil \"x y\"))");

    assert_eq!(run(&mut engine, "(read (write v))"), "((1 -2) nil \"x y\")");
}

#[test]
fn read_of_shell_shaped_text_fails() {
    let mut engine = Engine::new();

    match engine.run("(read \"ls -la\")").unwrap_err() {
        Error::TypeError => {}
        _ => panic!("expected a type error"),
    }
}
