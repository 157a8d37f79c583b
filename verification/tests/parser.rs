use ulisp::entities::Entity;
use ulisp::entities::Expression;
use ulisp::entities::Identifier;
use ulisp::entities::List;
use ulisp::entities::Primitive;
use ulisp::entities::Value;
use ulisp::errors::ParseError;
use ulisp::number::Number;
use ulisp::parser::Parser;
use ulisp::parser::parse;

fn num(mant: u128, scale: u32) -> Entity {
    Entity::Value(Value::Primitive(Primitive::Number(Number::new(false, mant, scale))))
}

fn text(s: &str) -> Entity {
    Entity::Value(Value::Primitive(Primitive::String(s.to_string())))
}

#[test]
fn number() {
    let mut parser = Parser::new("123.456");
    let result = num(123456, 3);
    assert_eq!(result, parser.parse_number().unwrap());
}

#[test]
fn string() {
    let mut parser = Parser::new("\"Hello\"");
    let result = text("Hello");
    assert_eq!(result, parser.parse_string().unwrap());
}

#[test]
fn bool() {
    let mut parser = Parser::new("true");
    let result = Entity::Value(Value::Primitive(Primitive::Bool(true)));
    assert_eq!(result, parser.parse_identifier().unwrap());
}

#[test]
fn list() {
    let mut parser = Parser::new("[1 2 3 4 5 \"Hello\"]");
    let result = Entity::Value(
        Value::List(
            List(
                vec![
                    num(1, 0),
                    num(2, 0),
                    num(3, 0),
                    num(4, 0),
                    num(5, 0),
                    text("Hello"),
                ],
            ),
        ),
    );
    assert_eq!(result, parser.parse_list().unwrap());
}

#[test]
fn whole_program() {
    let forms = parse("# a comment\n(add 1 -2.5)\nstray text\n(concat \"a\" b)").unwrap();
    assert_eq!(forms.len(), 2);
    assert_eq!(forms[0].fid, Identifier::new("add"));
    assert_eq!(forms[0].args.0.len(), 2);
    assert_eq!(forms[0].args.0[0], num(1, 0));
    assert_eq!(
        forms[0].args.0[1],
        Entity::Value(
            Value::Primitive(Primitive::Number(Number::new(true, 25, 1))),
        )
    );
    assert_eq!(forms[1].fid, Identifier::new("concat"));
    assert_eq!(forms[1].args.0[0], text("a"));
    assert_eq!(forms[1].args.0[1], Entity::Identifier(Identifier::new("b")));
}

#[test]
fn empty_program_is_empty() {
    assert_eq!(parse("").unwrap().len(), 0);
    assert_eq!(parse("   # only a comment").unwrap().len(), 0);
}

#[test]
fn unterminated_string_is_reported() {
    match parse("(print \"abc") {
        Err(ParseError::UnterminatedString { .. }) => {},
        other => panic!("unexpected: {:?}", other),
    }
}

#[test]
fn unknown_token_is_reported() {
    match parse("(add 1 %)") {
        Err(ParseError::UnknownToken { ch, .. }) => assert_eq!(ch, '%'),
        other => panic!("unexpected: {:?}", other),
    }
}

#[test]
fn incomplete_expression_is_reported() {
    match parse("(add 1 2") {
        Err(ParseError::IncompleteExpression { .. }) => {},
        other => panic!("unexpected: {:?}", other),
    }
}

#[test]
fn incomplete_list_is_reported() {
    match parse("(add [1 2") {
        Err(ParseError::IncompleteList { .. }) => {},
        other => panic!("unexpected: {:?}", other),
    }
}

#[test]
fn expected_identifier_is_reported() {
    match parse("(1 2)") {
        Err(ParseError::ExpectedIdentifier { .. }) => {},
        other => panic!("unexpected: {:?}", other),
    }
}

#[test]
fn oversized_number_is_reported() {
    let digits = "9".repeat(41);
    let program = format!("(add {})", digits);
    match parse(&program) {
        Err(ParseError::NumberTooLarge { .. }) => {},
        other => panic!("unexpected: {:?}", other),
    }
}

#[test]
fn render_then_parse_reproduces_the_expression() {
    let inner = Expression {
        fid: Identifier::new("mul"),
        args: List(vec![num(25, 1), Entity::Identifier(Identifier::new("x"))]),
        line: 0,
        pos: 0,
    };
    let e = Expression {
        fid: Identifier::new("add"),
        args: List(
            vec![
                num(1, 0),
                text("two words"),
                Entity::Value(Value::Primitive(Primitive::Bool(false))),
                Entity::Value(Value::Primitive(Primitive::Nil)),
                Entity::Value(Value::List(List(vec![num(7, 0), text("y")]))),
                Entity::Expression(inner),
            ],
        ),
        line: 0,
        pos: 0,
    };
    let original = Entity::Expression(e);
    let source = original.to_source();
    assert_eq!(source, "(add 1 \"two words\" false nil [7 \"y\"] (mul 2.5 x))");
    let back = parse(&source).unwrap();
    assert_eq!(back.len(), 1);
    let reparsed = Entity::Expression(back.into_iter().next().unwrap());
    assert!(original.deep_eq(&reparsed));
}

#[test]
fn number_rendering_is_canonical() {
    assert_eq!(Number::new(false, 123456, 3).to_text(), "123.456");
    assert_eq!(Number::new(true, 25, 1).to_text(), "-2.5");
    assert_eq!(Number::new(false, 0, 0).to_text(), "0");
    assert_eq!(Number::new(false, 5, 2).to_text(), "0.05");
    assert_eq!(Number::new(false, 700, 0).to_text(), "700");
    assert_eq!(Number::new(false, 700, 2).to_text(), "7");
}
