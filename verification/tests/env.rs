use lish::env::{env_get, env_new, env_set, EnvArena};
use lish::types;

#[test]
fn test_simple_env_lookup() {
    let mut arena = EnvArena::new();
    let env = env_new(&mut arena, None);

    env_set(&mut arena, env, "b", types::integer(18));

    assert_eq!(env_get(&arena, env, "b").unwrap(), types::integer(18));
}

#[test]
fn test_lookup_on_outer_env() {
    let mut arena = EnvArena::new();
    let outer = env_new(&mut arena, None);
    env_set(&mut arena, outer, "b", types::integer(18));

    let env = env_new(&mut arena, Some(outer));

    assert_eq!(env_get(&arena, env, "b").unwrap(), types::integer(18));
}

#[test]
fn test_set_in_env_doesnt_change_outer() {
    let mut arena = EnvArena::new();
    let outer = env_new(&mut arena, None);
    env_set(&mut arena, outer, "b", types::integer(18));

    let env = env_new(&mut arena, Some(outer));
    env_set(&mut arena, env, "b", types::integer(20));

    assert_eq!(env_get(&arena, outer, "b").unwrap(), types::integer(18));
}
