use lish::env::{env_get, env_new, EnvArena};
use lish::error::Error;
use lish::evaluator::{Evaluator, Outcome};
use lish::types::{self, LispValue, Program};

fn eval_in(expr: LispValue, env: usize, arena: &mut EnvArena) -> Result<LispValue, Error> {
    let evaluator = Evaluator::new();

    match evaluator.eval(Program::LispProgram(expr), env, arena)? {
        Outcome::Value(v) => Ok(v),
        _ => panic!("expected a value"),
    }
}

fn natives_env(arena: &mut EnvArena) -> usize {
    lish::natives::env::create(arena)
}

#[test]
fn eval_empty_program() {
    let evaluator = Evaluator::new();
    let mut arena = EnvArena::new();
    let env = env_new(&mut arena, None);

    let outcome = evaluator
        .eval(Program::EmptyProgram, env, &mut arena)
        .unwrap();

    assert!(matches!(outcome, Outcome::Empty));
}

#[test]
fn eval_lisp_integer() {
    let mut arena = EnvArena::new();
    let env = env_new(&mut arena, None);

    assert_eq!(
        eval_in(types::integer(1), env, &mut arena).unwrap(),
        types::integer(1)
    );
}

#[test]
fn eval_lisp_string() {
    let mut arena = EnvArena::new();
    let env = env_new(&mut arena, None);

    assert_eq!(
        eval_in(types::string("value".to_owned()), env, &mut arena).unwrap(),
        types::string("value".to_owned())
    );
}

#[test]
fn eval_lisp_symbol() {
    let mut arena = EnvArena::new();
    let env = env_new(&mut arena, None);
    lish::env::env_set(&mut arena, env, "name", types::integer(42));

    assert_eq!(
        eval_in(types::symbol("name".to_owned()), env, &mut arena).unwrap(),
        types::integer(42)
    );
}

#[test]
fn eval_lisp_list() {
    let mut arena = EnvArena::new();
    let env = natives_env(&mut arena);

    assert_eq!(
        eval_in(
            types::list(vec![
                types::symbol("+".to_owned()),
                types::integer(3),
                types::integer(2),
            ]),
            env,
            &mut arena
        )
        .unwrap(),
        types::integer(5)
    );
}

#[test]
fn eval_nested_list() {
    let mut arena = EnvArena::new();
    let env = natives_env(&mut arena);

    assert_eq!(
        eval_in(
            types::list(vec![
                types::symbol("+".to_owned()),
                types::integer(3),
                types::list(vec![
                    types::symbol("-".to_owned()),
                    types::integer(4),
                    types::integer(2),
                ]),
            ]),
            env,
            &mut arena
        )
        .unwrap(),
        types::integer(5)
    );
}

#[test]
fn eval_def() {
    let mut arena = EnvArena::new();
    let env = env_new(&mut arena, None);

    eval_in(
        types::list(vec![
            types::symbol("def".to_owned()),
            types::symbol("a".to_owned()),
            types::integer(1),
        ]),
        env,
        &mut arena,
    )
    .unwrap();

    assert_eq!(env_get(&arena, env, "a").unwrap(), types::integer(1));
}

#[test]
fn eval_do() {
    let mut arena = EnvArena::new();
    let env = natives_env(&mut arena);

    assert_eq!(
        eval_in(
            types::list(vec![
                types::symbol("do".to_owned()),
                types::list(vec![
                    types::symbol("+".to_owned()),
                    types::integer(1),
                    types::integer(2),
                ]),
                types::list(vec![
                    types::symbol("+".to_owned()),
                    types::integer(3),
                    types::integer(4),
                ]),
            ]),
            env,
            &mut arena
        )
        .unwrap(),
        types::integer(7)
    );
}

#[test]
fn eval_fn() {
    let mut arena = EnvArena::new();
    let env = env_new(&mut arena, None);

    assert_eq!(
        eval_in(
            types::list(vec![types::list(vec![
                types::symbol("fn".to_owned()),
                types::list(vec![]),
                types::integer(1),
            ])]),
            env,
            &mut arena
        )
        .unwrap(),
        types::integer(1)
    );
}

#[test]
fn eval_eval() {
    let mut arena = EnvArena::new();
    let env = natives_env(&mut arena);

    assert_eq!(
        eval_in(
            types::list(vec![
                types::symbol("eval".to_owned()),
                types::list(vec![
                    types::symbol("list".to_owned()),
                    types::symbol("+".to_owned()),
                    types::integer(1),
                    types::integer(2),
                ]),
            ]),
            env,
            &mut arena
        )
        .unwrap(),
        types::integer(3)
    );
}

#[test]
fn eval_undefined_binding() {
    let mut arena = EnvArena::new();
    let env = env_new(&mut arena, None);

    match eval_in(types::symbol("missing".to_owned()), env, &mut arena).unwrap_err() {
        Error::UndefinedBinding(name) => assert_eq!(name, "missing"),
        _ => panic!("expected an undefined-binding error"),
    }
}

#[test]
fn eval_def_of_non_symbol() {
    let mut arena = EnvArena::new();
    let env = env_new(&mut arena, None);

    match eval_in(
        types::list(vec![
            types::symbol("def".to_owned()),
            types::integer(7),
            types::integer(1),
        ]),
        env,
        &mut arena,
    )
    .unwrap_err()
    {
        Error::TypeError => {}
        _ => panic!("expected a type error"),
    }
}

#[test]
fn eval_wrapping_addition() {
    let mut arena = EnvArena::new();
    let env = natives_env(&mut arena);

    assert_eq!(
        eval_in(
            types::list(vec![
                types::symbol("+".to_owned()),
                types::integer(i64::MAX),
                types::integer(1),
            ]),
            env,
            &mut arena
        )
        .unwrap(),
        types::integer(i64::MIN)
    );
}

// The evaluator's behaviour is the same whether a program or a bare
// expression is handed in; these cover the expression-level entry.

fn eval_expr_in(
    expr: LispValue,
    env: usize,
    arena: &mut EnvArena,
) -> Result<LispValue, Error> {
    Evaluator::new().eval_lisp_expr(expr, env, arena)
}

#[test]
fn evaluator_eval_lisp_integer() {
    let mut arena = EnvArena::new();
    let env = env_new(&mut arena, None);

    assert_eq!(
        eval_expr_in(types::integer(1), env, &mut arena).unwrap(),
        types::integer(1)
    );
}

#[test]
fn evaluator_eval_lisp_string() {
    let mut arena = EnvArena::new();
    let env = env_new(&mut arena, None);

    assert_eq!(
        eval_expr_in(types::string("value".to_owned()), env, &mut arena).unwrap(),
        types::string("value".to_owned())
    );
}

#[test]
fn evaluator_eval_lisp_symbol() {
    let mut arena = EnvArena::new();
    let env = env_new(&mut arena, None);
    lish::env::env_set(&mut arena, env, "name", types::integer(42));

    assert_eq!(
        eval_expr_in(types::symbol("name".to_owned()), env, &mut arena).unwrap(),
        types::integer(42)
    );
}

#[test]
fn evaluator_eval_lisp_list() {
    let mut arena = EnvArena::new();
    let env = natives_env(&mut arena);

    assert_eq!(
        eval_expr_in(
            types::list(vec![
                types::symbol("+".to_owned()),
                types::integer(3),
                types::integer(2),
            ]),
            env,
            &mut arena
        )
        .unwrap(),
        types::integer(5)
    );
}

#[test]
fn evaluator_eval_nested_list() {
    let mut arena = EnvArena::new();
    let env = natives_env(&mut arena);

    assert_eq!(
        eval_expr_in(
            types::list(vec![
                types::symbol("+".to_owned()),
                types::integer(3),
                types::list(vec![
                    types::symbol("-".to_owned()),
                    types::integer(4),
                    types::integer(2),
                ]),
            ]),
            env,
            &mut arena
        )
        .unwrap(),
        types::integer(5)
    );
}

#[test]
fn evaluator_eval_def() {
    let mut arena = EnvArena::new();
    let env = env_new(&mut arena, None);

    eval_expr_in(
        types::list(vec![
            types::symbol("def".to_owned()),
            types::symbol("a".to_owned()),
            types::integer(1),
        ]),
        env,
        &mut arena,
    )
    .unwrap();

    assert_eq!(env_get(&arena, env, "a").unwrap(), types::integer(1));
}

#[test]
fn evaluator_eval_do() {
    let mut arena = EnvArena::new();
    let env = natives_env(&mut arena);

    assert_eq!(
        eval_expr_in(
            types::list(vec![
                types::symbol("do".to_owned()),
                types::list(vec![
                    types::symbol("+".to_owned()),
                    types::integer(1),
                    types::integer(2),
                ]),
                types::list(vec![
                    types::symbol("+".to_owned()),
                    types::integer(3),
                    types::integer(4),
                ]),
            ]),
            env,
            &mut arena
        )
        .unwrap(),
        types::integer(7)
    );
}

#[test]
fn evaluator_eval_fn() {
    let mut arena = EnvArena::new();
    let env = env_new(&mut arena, None);

    assert_eq!(
        eval_expr_in(
            types::list(vec![types::list(vec![
                types::symbol("fn".to_owned()),
                types::list(vec![]),
                types::integer(1),
            ])]),
            env,
            &mut arena
        )
        .unwrap(),
        types::integer(1)
    );
}
