use ulisp::builtins::Relation;
use ulisp::entities::Entity;
use ulisp::entities::Expression;
use ulisp::entities::Identifier;
use ulisp::entities::List;
use ulisp::entities::Primitive;
use ulisp::entities::Value;
use ulisp::executer::execute;
use ulisp::number::Number;
use ulisp::scope::Scope;

const FUEL: u64 = 64;

fn num(mant: u128) -> Entity {
    Entity::Value(Value::Primitive(Primitive::Number(Number::new(false, mant, 0))))
}

fn text(s: &str) -> Entity {
    Entity::Value(Value::Primitive(Primitive::String(s.to_string())))
}

fn ident(s: &str) -> Entity {
    Entity::Identifier(Identifier::new(s))
}

fn call(fid: &str, args: Vec<Entity>) -> Expression {
    Expression { fid: Identifier::new(fid), args: List(args), line: 0, pos: 0 }
}

fn number_value(mant: u128) -> Value {
    Value::Primitive(Primitive::Number(Number::new(false, mant, 0)))
}

fn string_value(s: &str) -> Value {
    Value::Primitive(Primitive::String(s.to_string()))
}

#[test]
fn executer_sum_of_two() {
    let expression = call("add", vec![num(1), num(1)]);
    let expected = number_value(2);
    let mut scope = Scope::new();
    let mut out: Vec<String> = Vec::new();
    assert_eq!(execute(&expression, &mut scope, &mut out, FUEL).unwrap(), expected);
}

#[test]
fn executer_greeting() {
    let set_variable = call("var", vec![ident("name"), text("Denis")]);
    let concat = call("concat", vec![text("Hello "), ident("name")]);
    let mut scope = Scope::new();
    let mut out: Vec<String> = Vec::new();
    assert_eq!(
        execute(&set_variable, &mut scope, &mut out, FUEL).unwrap(),
        string_value("Denis")
    );
    assert_eq!(
        execute(&concat, &mut scope, &mut out, FUEL).unwrap(),
        string_value("Hello Denis")
    );
}

#[test]
fn executer_sum_of_sum() {
    let expression = call(
        "add",
        vec![
            Entity::Expression(call("add", vec![num(1)])),
            Entity::Expression(call("add", vec![num(1)])),
        ],
    );
    let mut scope = Scope::new();
    let mut out: Vec<String> = Vec::new();
    assert_eq!(execute(&expression, &mut scope, &mut out, FUEL).unwrap(), number_value(2));
}

#[test]
fn var_in_var() {
    let expression = call(
        "var",
        vec![
            ident("anotherName"),
            Entity::Expression(call("var", vec![ident("name"), text("Denis")])),
        ],
    );
    let mut scope = Scope::new();
    let mut out: Vec<String> = Vec::new();
    assert_eq!(execute(&expression, &mut scope, &mut out, FUEL).unwrap(), string_value("Denis"));
}

#[test]
fn get_two() {
    let mut scope = Scope::new();
    let mut out: Vec<String> = Vec::new();
    let create_func = call(
        "func",
        vec![
            ident("getTwo"),
            Entity::Value(Value::List(List(vec![]))),
            Entity::Expression(call("add", vec![num(1), num(1)])),
        ],
    );
    let _ = execute(&create_func, &mut scope, &mut out, FUEL);
    let func_call = call("getTwo", vec![]);
    assert_eq!(execute(&func_call, &mut scope, &mut out, FUEL).unwrap(), number_value(2));
}

#[test]
fn compare_short_circuits() {
    // (gt 3 2 1): every pair holds
    let e = call("gt", vec![num(3), num(2), num(1)]);
    let mut scope = Scope::new();
    let mut out: Vec<String> = Vec::new();
    assert_eq!(
        execute(&e, &mut scope, &mut out, FUEL).unwrap(),
        Value::Primitive(Primitive::Bool(true))
    );
    // (lt 3 2): fails on the first pair
    let e2 = call("lt", vec![num(3), num(2)]);
    assert_eq!(
        execute(&e2, &mut scope, &mut out, FUEL).unwrap(),
        Value::Primitive(Primitive::Bool(false))
    );
    // mixed kinds are incomparable
    let e3 = call("lt", vec![num(3), text("x")]);
    assert_eq!(
        execute(&e3, &mut scope, &mut out, FUEL).unwrap(),
        Value::Primitive(Primitive::Bool(false))
    );
    // eq is structural
    let e4 = call("eq", vec![text("a"), text("a"), text("a")]);
    assert_eq!(
        execute(&e4, &mut scope, &mut out, FUEL).unwrap(),
        Value::Primitive(Primitive::Bool(true))
    );
    let e5 = call("ne", vec![num(1), text("1")]);
    assert_eq!(
        execute(&e5, &mut scope, &mut out, FUEL).unwrap(),
        Value::Primitive(Primitive::Bool(true))
    );
    let _ = Relation::Le;
}

#[test]
fn print_joins_and_unescapes() {
    let e = call("print", vec![text("a\\tb"), num(7)]);
    let mut scope = Scope::new();
    let mut out: Vec<String> = Vec::new();
    assert_eq!(
        execute(&e, &mut scope, &mut out, FUEL).unwrap(),
        Value::Primitive(Primitive::Nil)
    );
    assert_eq!(out, vec!["a\tb 7".to_string()]);
}

#[test]
fn recursion_reports_limit() {
    let mut scope = Scope::new();
    let mut out: Vec<String> = Vec::new();
    let create_func = call(
        "func",
        vec![
            ident("loopForever"),
            Entity::Value(Value::List(List(vec![]))),
            Entity::Expression(call("loopForever", vec![])),
        ],
    );
    execute(&create_func, &mut scope, &mut out, FUEL).unwrap();
    let func_call = call("loopForever", vec![]);
    assert_eq!(
        execute(&func_call, &mut scope, &mut out, 8).unwrap_err(),
        ulisp::errors::RuntimeError::RecursionLimit
    );
}
