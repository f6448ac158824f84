use olisp::environment::Environment;
use olisp::expression_literal_value::LiteralValue;

#[test]
fn define_add_value_value_is_saved() {
    let mut environment = Environment::new();
    environment.define(String::from("test"), LiteralValue::Nil);

    let variable = environment.get("test");

    assert!(variable.is_ok());

    assert_eq!(variable.unwrap(), LiteralValue::Nil);
}

#[test]
fn get_value_no_saved_gets_error() {
    let environment = Environment::new();

    let variable = environment.get("test");

    assert!(variable.is_err());
    assert_eq!(variable.err(), Some("Undefined variable test".to_string()));
}

#[test]
fn get_value_from_enclosing() {
    let mut environment = Environment::new();
    environment.define(String::from("test"), LiteralValue::True);

    // open an inner scope whose enclosing scope is the global one
    environment.push_scope(0);

    let variable = environment.get("test");

    assert!(variable.is_ok());

    assert_eq!(variable.unwrap(), LiteralValue::True);
}

#[test]
fn assign_value_from_enclosing() {
    let mut environment = Environment::new();

    environment.define(String::from("test"), LiteralValue::True);

    // assign from an inner scope; the binding lives in the enclosing one
    environment.push_scope(0);

    let result = environment.assign(String::from("test"), LiteralValue::False);

    assert!(result.is_ok());

    // read the binding back in the enclosing scope itself
    environment.set_current(0);
    assert_eq!(environment.get("test"), Ok(LiteralValue::False));
}

#[test]
fn assign_value_does_not_exist_returns_error() {
    let mut environment = Environment::new();

    let result = environment.assign(String::from("test"), LiteralValue::False);

    assert!(result.is_err());

    assert_eq!(
        result.err(),
        Some(String::from("Variable does not exist test"))
    );
}

#[test]
fn assign_to_created_value_returns_ok() {
    let mut environment = Environment::new();

    environment.define(String::from("test"), LiteralValue::Nil);
    let result = environment.assign(String::from("test"), LiteralValue::False);

    assert!(result.is_ok());

    assert_eq!(environment.get("test"), Ok(LiteralValue::False));
}
