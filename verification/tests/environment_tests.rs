use whipsnake::environment::Environment;

#[test]
fn environment_get_after_define() {
    let mut env: Environment<i64> = Environment::new_global();
    assert_eq!(env.get("x"), None);
    env.define(String::from("x"), 1);
    env.define(String::from("y"), 2);
    assert_eq!(env.get("x"), Some(&1));
    assert_eq!(env.get("y"), Some(&2));
    assert_eq!(env.get("z"), None);
}

#[test]
fn environment_redefinition_replaces_the_value() {
    let mut env: Environment<i64> = Environment::new_global();
    env.define(String::from("x"), 1);
    env.define(String::from("x"), 5);
    assert_eq!(env.get("x"), Some(&5));
}

#[test]
fn environment_local_scope_sees_and_hides_enclosing() {
    let mut global: Environment<i64> = Environment::new_global();
    global.define(String::from("x"), 1);
    global.define(String::from("y"), 2);
    {
        let mut local = Environment::new_local(&global);
        assert_eq!(local.get("x"), Some(&1));
        local.define(String::from("x"), 10);
        local.define(String::from("z"), 3);
        assert_eq!(local.get("x"), Some(&10));
        assert_eq!(local.get("y"), Some(&2));
        assert_eq!(local.get("z"), Some(&3));
    }
    assert_eq!(global.get("x"), Some(&1));
    assert_eq!(global.get("z"), None);
}
