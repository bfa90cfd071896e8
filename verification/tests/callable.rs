use lox_rs::ast::{FnDefn, Stmt};
use lox_rs::callable::InnerCallable;

fn declaration(name: &str, parameters: &[&str]) -> FnDefn {
    FnDefn {
        name: name.to_string(),
        parameters: parameters.iter().map(|p| p.to_string()).collect(),
        body: vec![Stmt::Block(vec![])],
    }
}

#[test]
fn a_function_takes_one_argument_per_parameter() {
    let sum = InnerCallable::new(declaration("sum", &["a", "b"]));
    assert_eq!(sum.arity(), 2);
    assert_eq!(sum.declaration(), &declaration("sum", &["a", "b"]));
    assert_eq!(sum.check_arity(2), Ok(()));
}

#[test]
fn a_call_with_the_wrong_number_of_arguments_is_refused() {
    let clock = InnerCallable::new(declaration("clock", &["neat"]));
    assert_eq!(
        clock.check_arity(0),
        Err("Expected 1 arg(s) but got 0".to_string())
    );
    let none = InnerCallable::new(declaration("f", &[]));
    assert_eq!(
        none.check_arity(12),
        Err("Expected 0 arg(s) but got 12".to_string())
    );
}
