use ulisp::entities::AsType;
use ulisp::entities::Datatype;
use ulisp::entities::Entity;
use ulisp::entities::Expression;
use ulisp::entities::Identifier;
use ulisp::entities::List;
use ulisp::entities::Primitive;
use ulisp::entities::Value;
use ulisp::errors::RuntimeError;
use ulisp::executer::execute;
use ulisp::number::Number;
use ulisp::parser::parse;
use ulisp::scope::Scope;
use ulisp::utils::unescape;

const FUEL: u64 = 64;

fn run(program: &str) -> Vec<Result<Value, RuntimeError>> {
    let mut scope = Scope::new();
    let mut out: Vec<String> = Vec::new();
    run_in(program, &mut scope, &mut out)
}

fn run_in(
    program: &str,
    scope: &mut Scope,
    out: &mut Vec<String>,
) -> Vec<Result<Value, RuntimeError>> {
    parse(program)
        .unwrap()
        .iter()
        .map(|e| execute(e, scope, out, FUEL))
        .collect()
}

fn whole(mant: u128) -> Value {
    Value::Primitive(Primitive::Number(Number::new(false, mant, 0)))
}

fn dec(neg: bool, mant: u128, scale: u32) -> Value {
    Value::Primitive(Primitive::Number(Number::new(neg, mant, scale)))
}

fn text(s: &str) -> Value {
    Value::Primitive(Primitive::String(s.to_string()))
}

#[test]
fn add_folds_to_the_exact_sum() {
    assert_eq!(run("(add 1 2 3 4)")[0], Ok(whole(10)));
    assert_eq!(run("(add)")[0], Ok(whole(0)));
    assert_eq!(run("(add 0.1 0.2)")[0], Ok(dec(false, 3, 1)));
    assert_eq!(run("(add 5 -7.25)")[0], Ok(dec(true, 225, 2)));
    // a numeric-looking string coerces
    assert_eq!(run("(add \"2\" 3)")[0], Ok(whole(5)));
    assert_eq!(
        run("(add \"two\" 3)")[0],
        Err(RuntimeError::TypeMismatch {
            expected: Datatype::Number,
            found: Datatype::String,
        })
    );
}

#[test]
fn mul_folds_to_the_exact_product() {
    assert_eq!(run("(mul 2 3 4)")[0], Ok(whole(24)));
    assert_eq!(run("(mul)")[0], Ok(whole(1)));
    assert_eq!(run("(mul 0.2 0.5)")[0], Ok(dec(false, 1, 1)));
}

#[test]
fn sub_and_div_require_two_operands() {
    assert_eq!(run("(sub 1)")[0], Err(RuntimeError::NotEnoughArgs { min: 2 }));
    assert_eq!(run("(div 1)")[0], Err(RuntimeError::NotEnoughArgs { min: 2 }));
    assert_eq!(run("(sub 10 1 2)")[0], Ok(whole(7)));
    assert_eq!(run("(div 10 4)")[0], Ok(dec(false, 25, 1)));
}

#[test]
fn division_by_zero_is_an_error() {
    assert_eq!(run("(div 1 0)")[0], Err(RuntimeError::DivisionByZero));
}

#[test]
fn arithmetic_overflow_is_reported() {
    let program = format!("(mul {} {})", "9".repeat(38), "9".repeat(38));
    assert_eq!(run(&program)[0], Err(RuntimeError::NumberOverflow));
}

#[test]
fn var_declares_and_redeclares() {
    let mut scope = Scope::new();
    let mut out: Vec<String> = Vec::new();
    let r = run_in("(var x 5) (concat x)", &mut scope, &mut out);
    assert_eq!(r[0], Ok(whole(5)));
    // a bare identifier resolves against the scope
    let x = Entity::Identifier(Identifier::new("x"));
    assert_eq!(x.to_value(&mut scope, &mut out, FUEL), Ok(whole(5)));
    // last write wins, no error on redefinition
    let r2 = run_in("(var x \"hi\")", &mut scope, &mut out);
    assert_eq!(r2[0], Ok(text("hi")));
    assert_eq!(x.to_value(&mut scope, &mut out, FUEL), Ok(text("hi")));
    // an unbound identifier reads as nil
    let y = Entity::Identifier(Identifier::new("y"));
    assert_eq!(y.to_value(&mut scope, &mut out, FUEL), Ok(Value::Primitive(Primitive::Nil)));
}

#[test]
fn user_functions_substitute_their_arguments() {
    let r = run("(func double [x] (add x x)) (double 21)");
    assert_eq!(r[0], Ok(Value::Primitive(Primitive::Nil)));
    assert_eq!(r[1], Ok(whole(42)));
    // arguments may be expressions, passed unevaluated
    let r2 = run("(func double [x] (add x x)) (double (add 10 11))");
    assert_eq!(r2[1], Ok(whole(42)));
    // recursion rewrites the template afresh each call
    let r3 = run(
        "(func countdown [n] (if (gt n 0) (countdown (sub n 1)) \"done\")) (countdown 3)",
    );
    assert_eq!(r3[1], Ok(text("done")));
}

#[test]
fn builtins_shadow_user_functions() {
    let r = run("(func add [x y] (mul x y)) (add 2 3)");
    assert_eq!(r[1], Ok(whole(5)));
}

#[test]
fn if_takes_exactly_one_branch() {
    let r = run("(if (gt 3 2) \"yes\" \"no\")");
    assert_eq!(r[0], Ok(text("yes")));
    // the untaken branch is never evaluated: its side effect must not occur
    let mut scope = Scope::new();
    let mut out: Vec<String> = Vec::new();
    let r2 = run_in("(if (gt 3 2) \"yes\" (var leaked 1))", &mut scope, &mut out);
    assert_eq!(r2[0], Ok(text("yes")));
    let leaked = Entity::Identifier(Identifier::new("leaked"));
    assert_eq!(
        leaked.to_value(&mut scope, &mut out, FUEL),
        Ok(Value::Primitive(Primitive::Nil))
    );
    // missing else reads as nil
    assert_eq!(run("(if (lt 3 2) \"yes\")")[0], Ok(Value::Primitive(Primitive::Nil)));
    assert_eq!(run("(if 1)")[0], Err(RuntimeError::NotEnoughArgs { min: 2 }));
    assert_eq!(run("(if 1 2 3 4)")[0], Err(RuntimeError::TooMuchArgs { max: 3 }));
}

#[test]
fn typeof_reports_runtime_types() {
    assert_eq!(run("(typeof 1)")[0], Ok(text("number")));
    assert_eq!(run("(typeof \"s\")")[0], Ok(text("string")));
    assert_eq!(run("(typeof true)")[0], Ok(text("bool")));
    assert_eq!(run("(typeof nil)")[0], Ok(text("nil")));
    assert_eq!(run("(typeof [1 2])")[0], Ok(text("list")));
    assert_eq!(run("(typeof (add 1 2))")[0], Ok(text("number")));
    assert_eq!(run("(typeof add)")[0], Ok(text("function")));
    assert_eq!(run("(var x 5) (typeof x)")[1], Ok(text("number")));
    assert_eq!(run("(func f [] (add)) (typeof f)")[1], Ok(text("function")));
    assert_eq!(
        run("(typeof undefinedName)")[0],
        Err(RuntimeError::UndefinedFunction("undefinedName".to_string()))
    );
    assert_eq!(run("(typeof)")[0], Err(RuntimeError::InvalidArgCount { expected: 1, got: 0 }));
}

#[test]
fn concat_renders_and_joins() {
    assert_eq!(run("(concat \"a\" \"b\" \"c\")")[0], Ok(text("abc")));
    assert_eq!(run("(concat)")[0], Ok(text("")));
    assert_eq!(run("(concat \"n=\" 2.5 \" \" true \" \" nil)")[0], Ok(text("n=2.5 true nil")));
    // a list renders space-joined, without brackets
    assert_eq!(run("(concat [1 \"x\"])")[0], Ok(text("1 x")));
}

#[test]
fn undeclared_function_calls_fail() {
    assert_eq!(
        run("(nope 1 2)")[0],
        Err(RuntimeError::UndefinedFunction("nope".to_string()))
    );
}

#[test]
fn var_and_func_validate_their_arguments() {
    assert_eq!(run("(var 1 2)")[0], Err(RuntimeError::TypeMismatch {
        expected: Datatype::Identifier,
        found: Datatype::Number,
    }));
    assert_eq!(run("(var x)")[0], Err(RuntimeError::InvalidArgCount { expected: 2, got: 1 }));
    assert_eq!(run("(func f [x])")[0], Err(RuntimeError::InvalidArgCount {
        expected: 3,
        got: 2,
    }));
    assert_eq!(run("(func f 1 (add))")[0], Err(RuntimeError::TypeMismatch {
        expected: Datatype::List,
        found: Datatype::Number,
    }));
    assert_eq!(run("(func f [x] 1)")[0], Err(RuntimeError::TypeMismatch {
        expected: Datatype::Expression,
        found: Datatype::Number,
    }));
    assert_eq!(run("(func f [1] (add))")[0], Err(RuntimeError::TypeMismatch {
        expected: Datatype::Identifier,
        found: Datatype::Number,
    }));
}

#[test]
fn unescape_interprets_backslashes() {
    assert_eq!(unescape("a\\nb"), "a\nb");
    assert_eq!(unescape("a\\tb\\rc"), "a\tb\rc");
    assert_eq!(unescape("a\\\\b"), "a\\b");
    assert_eq!(unescape("a\\xb"), "axb");
    assert_eq!(unescape("plain"), "plain");
    assert_eq!(unescape("tail\\"), "tail");
}

#[test]
fn values_report_their_types() {
    let v = Value::Primitive(Primitive::Bool(true));
    assert_eq!(v.as_type(), Datatype::Bool);
    let l = Value::List(List(vec![]));
    assert_eq!(l.as_type(), Datatype::List);
    let e = Expression {
        fid: Identifier::new("f"),
        args: List(vec![]),
        line: 0,
        pos: 0,
    };
    assert_eq!(Entity::Expression(e).as_type(), Datatype::Expression);
}
