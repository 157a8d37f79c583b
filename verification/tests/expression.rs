use ulisp::entities::Entity;
use ulisp::entities::Expression;
use ulisp::entities::Identifier;
use ulisp::entities::Primitive;
use ulisp::entities::Value;
use ulisp::number::Number;
use ulisp::scope::Scope;

const FUEL: u64 = 64;

fn num(mant: u128) -> Entity {
    Entity::Value(Value::Primitive(Primitive::Number(Number::new(false, mant, 0))))
}

fn text(s: &str) -> Entity {
    Entity::Value(Value::Primitive(Primitive::String(s.to_string())))
}

fn ident(s: &str) -> Entity {
    Entity::Identifier(Identifier::new(s))
}

#[test]
fn expression_sum_of_two() {
    let expression = Expression::from_iterable(
        vec![ident("add"), num(1), num(1)],
        0,
        0,
    ).unwrap();
    let expected = Value::Primitive(Primitive::Number(Number::new(false, 2, 0)));
    let mut scope = Scope::new();
    let mut out: Vec<String> = Vec::new();
    assert_eq!(expression.execute(&mut scope, &mut out, FUEL).unwrap(), expected);
}

#[test]
fn expression_greeting() {
    let set_variable = Expression::from_iterable(
        vec![ident("var"), ident("name"), text("Denis")],
        0,
        0,
    ).unwrap();
    let concat = Expression::from_iterable(
        vec![ident("concat"), text("Hello "), ident("name")],
        0,
        0,
    ).unwrap();
    let mut scope = Scope::new();
    let mut out: Vec<String> = Vec::new();
    assert_eq!(
        set_variable.execute(&mut scope, &mut out, FUEL).unwrap(),
        Value::Primitive(Primitive::String("Denis".to_string()))
    );
    assert_eq!(
        concat.execute(&mut scope, &mut out, FUEL).unwrap(),
        Value::Primitive(Primitive::String("Hello Denis".to_string()))
    );
}

#[test]
fn expression_sum_of_sum() {
    let inner_left = Expression::from_iterable(vec![ident("add"), num(1)], 0, 0).unwrap();
    let inner_right = Expression::from_iterable(vec![ident("add"), num(1)], 0, 0).unwrap();
    let expression = Expression::from_iterable(
        vec![ident("add"), Entity::Expression(inner_left), Entity::Expression(inner_right)],
        0,
        0,
    ).unwrap();
    let mut scope = Scope::new();
    let mut out: Vec<String> = Vec::new();
    assert_eq!(
        expression.execute(&mut scope, &mut out, FUEL).unwrap(),
        Value::Primitive(Primitive::Number(Number::new(false, 2, 0)))
    );
}

#[test]
fn from_iterable_needs_an_identifier_first() {
    assert!(Expression::from_iterable(vec![num(1), num(2)], 0, 0).is_err());
    assert!(Expression::from_iterable(vec![], 0, 0).is_err());
}

#[test]
fn replace_all_rewrites_parameter_occurrences() {
    // the template (add x x) with x bound to 21
    let template = Expression::from_iterable(
        vec![ident("add"), ident("x"), ident("x")],
        0,
        0,
    ).unwrap();
    let rewritten = template.replace_all(
        &ulisp::entities::List(vec![num(21)]),
        &vec![Identifier::new("x")],
    );
    assert_eq!(rewritten.args.0, vec![num(21), num(21)]);
    // the template itself is unchanged
    assert_eq!(template.args.0, vec![ident("x"), ident("x")]);
}
