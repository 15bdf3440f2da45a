use javascript::ast::{Ast, Expression, Node, Op, ParseError};
use javascript::interpreter::{Context, RuntimeError, Script, ScriptError};
use javascript::lexer::{tokenize, LexError, Tokenizer};
use javascript::token::Token;
use javascript::values::{Num, Value};

fn fold(n: &Num) -> f32 {
    match n {
        Num::Literal(text) => lexical::parse::<f32, _>(text.as_bytes()).unwrap(),
        Num::Binary(l, r, op) => {
            let (a, b) = (fold(l), fold(r));
            match op {
                Op::Add => a + b,
                Op::Sub => a - b,
                Op::Mul => a * b,
                Op::Div => a / b,
            }
        }
        Num::NaN => f32::NAN,
    }
}

fn number(v: &Value) -> f32 {
    match v {
        Value::Number(n) => fold(n),
        other => panic!("not a number: {:?}", other),
    }
}

fn run(source: &str) -> (Result<Value, RuntimeError>, Context) {
    let script = Script::new(source).unwrap();
    let mut ctx = Context::new();
    let r = script.run_in_context(&mut ctx);
    (r, ctx)
}

#[test]
fn sum_of_three() {
    let (r, _) = run("10 + 10 + 10");
    assert_eq!(number(&r.unwrap()), 30.0);
}

#[test]
fn multiplication_before_addition() {
    let (r, _) = run("2 * 3 + 4");
    assert_eq!(number(&r.unwrap()), 10.0);
}

#[test]
fn multiplication_after_addition() {
    let (r, _) = run("2 + 3 * 4");
    assert_eq!(number(&r.unwrap()), 14.0);
}

#[test]
fn operators_fold_to_the_left() {
    assert_eq!(number(&run("1 - 2 - 3").0.unwrap()), -4.0);
    assert_eq!(number(&run("8 / 4 / 2").0.unwrap()), 1.0);
    assert_eq!(number(&run("1 + 2 * 3 - 4 / 2").0.unwrap()), 5.0);
}

#[test]
fn arithmetic_tree_shape() {
    let (r, _) = run("2 + 3 * 4");
    let expected = Value::Number(Num::Binary(
        Box::new(Num::Literal("2".to_string())),
        Box::new(Num::Binary(
            Box::new(Num::Literal("3".to_string())),
            Box::new(Num::Literal("4".to_string())),
            Op::Mul,
        )),
        Op::Add,
    ));
    assert_eq!(r.unwrap(), expected);
}

#[test]
fn decimal_and_exponent_literals() {
    assert_eq!(number(&run("1.5 * 2").0.unwrap()), 3.0);
    assert_eq!(number(&run("1.5e2 + 1").0.unwrap()), 151.0);
    assert_eq!(number(&run("2.").0.unwrap()), 2.0);
}

#[test]
fn division_by_zero_is_infinite() {
    assert_eq!(number(&run("1 / 0").0.unwrap()), f32::INFINITY);
}

#[test]
fn unbound_identifier_is_undefined() {
    let (r, _) = run("x");
    assert_eq!(r.unwrap(), Value::Undefined);
}

#[test]
fn string_plus_number_is_nan() {
    let (r, _) = run("\"abc\" + 1");
    let v = r.unwrap();
    assert_eq!(v, Value::Number(Num::NaN));
    assert!(number(&v).is_nan());
}

#[test]
fn undefined_operand_is_nan() {
    let (r, _) = run("y * 2");
    assert!(number(&r.unwrap()).is_nan());
}

#[test]
fn string_literal_value() {
    let (r, _) = run("'abc'");
    assert_eq!(r.unwrap(), Value::String("abc".to_string()));
}

#[test]
fn declaration_binds_value() {
    let (r, ctx) = run("var a = 10 + 5;");
    assert_eq!(r.unwrap(), Value::Undefined);
    assert!(ctx.has_variable("a"));
    assert_eq!(number(&ctx.get_variable("a")), 15.0);
}

#[test]
fn declaration_without_initializer() {
    let (r, ctx) = run("let a;");
    assert_eq!(r.unwrap(), Value::Undefined);
    assert!(!ctx.has_variable("a"));
}

#[test]
fn redeclaration_is_rejected() {
    let (r, ctx) = run("var a = 1; var a = 2;");
    assert_eq!(r, Err(RuntimeError::AlreadyDeclared("a".to_string())));
    assert_eq!(number(&ctx.get_variable("a")), 1.0);
}

#[test]
fn declared_names_are_read_back() {
    let (r, _) = run("const a = 4; let b = a * 2; a + b");
    assert_eq!(number(&r.unwrap()), 12.0);
}

#[test]
fn declarators_in_sequence() {
    let (r, ctx) = run("var a = 1 b = 2;");
    assert_eq!(r.unwrap(), Value::Undefined);
    assert_eq!(number(&ctx.get_variable("b")), 2.0);
}

#[test]
fn keyword_inside_expression_is_not_a_declaration() {
    let (r, _) = run("var + 1");
    assert!(number(&r.unwrap()).is_nan());
}

#[test]
fn fresh_contexts_give_equal_runs() {
    let script = Script::new("var a = 2 * 3; a - 1").unwrap();
    let mut c1 = Context::new();
    let mut c2 = Context::new();
    let r1 = script.run_in_context(&mut c1).unwrap();
    let r2 = script.run_in_context(&mut c2).unwrap();
    assert_eq!(r1, r2);
    assert_eq!(number(&r1), 5.0);
    assert_eq!(c1.get_variable("a"), c2.get_variable("a"));
}

#[test]
fn empty_script_is_undefined() {
    let (r, _) = run("  \n\t ");
    assert_eq!(r.unwrap(), Value::Undefined);
}

#[test]
fn unknown_character_is_a_lexical_error() {
    match Script::new("10 # 2") {
        Err(e) => assert_eq!(e, ScriptError::Lex(LexError::UnknownToken { character: '#', position: 3 })),
        Ok(_) => panic!("expected an error"),
    }
}

#[test]
fn symbol_where_a_primary_stands() {
    match Script::new("1 + ;") {
        Err(e) => assert_eq!(e, ScriptError::Parse(ParseError::UnexpectedToken(Token::Semicolon))),
        Ok(_) => panic!("expected an error"),
    }
}

#[test]
fn malformed_declarations() {
    match Script::new("var 1") {
        Err(e) => assert_eq!(
            e,
            ScriptError::Parse(ParseError::InvalidDeclaration(Token::Number("1".to_string())))
        ),
        Ok(_) => panic!("expected an error"),
    }
    match Script::new("let a 1") {
        Err(e) => assert_eq!(
            e,
            ScriptError::Parse(ParseError::InvalidDeclaration(Token::Number("1".to_string())))
        ),
        Ok(_) => panic!("expected an error"),
    }
}

#[test]
fn tokens_of_every_kind() {
    let ts = tokenize("ab 12.5 'cd' + - * / = ; : , . ( ) { } [ ]").unwrap();
    assert_eq!(
        ts,
        vec![
            Token::Identifier("ab".to_string()),
            Token::Number("12.5".to_string()),
            Token::String("cd".to_string()),
            Token::Plus,
            Token::Minus,
            Token::Multiply,
            Token::Divide,
            Token::Assignment,
            Token::Semicolon,
            Token::Colon,
            Token::Comma,
            Token::Dot,
            Token::LParen,
            Token::RParen,
            Token::LBrace,
            Token::RBrace,
            Token::LBracket,
            Token::RBracket,
            Token::Eof,
        ]
    );
}

#[test]
fn tokenizing_supported_text_ends_once() {
    let ts = tokenize("\"x\" 'y 1e3 abc\r\n9;{}").unwrap();
    assert_eq!(ts.last(), Some(&Token::Eof));
    assert_eq!(ts.iter().filter(|t| **t == Token::Eof).count(), 1);
}

#[test]
fn exponent_needs_digits() {
    let ts = tokenize("2e 3E+2").unwrap();
    assert_eq!(
        ts,
        vec![
            Token::Number("2".to_string()),
            Token::Identifier("e".to_string()),
            Token::Number("3E+2".to_string()),
            Token::Eof,
        ]
    );
}

#[test]
fn unterminated_string_stops_at_non_letter() {
    let ts = tokenize("\"ab c").unwrap();
    assert_eq!(
        ts,
        vec![Token::String("ab".to_string()), Token::Identifier("c".to_string()), Token::Eof]
    );
}

#[test]
fn tokenizer_peek_and_next() {
    let mut t = Tokenizer::new("  ab+1 ");
    assert_eq!(t.peek(), Ok(Token::Identifier("ab".to_string())));
    assert_eq!(t.next(), Ok(Token::Identifier("ab".to_string())));
    assert_eq!(t.next(), Ok(Token::Plus));
    assert_eq!(t.peek(), Ok(Token::Number("1".to_string())));
    assert_eq!(t.next(), Ok(Token::Number("1".to_string())));
    assert_eq!(t.next(), Ok(Token::Eof));
    assert_eq!(t.next(), Ok(Token::Eof));
}

#[test]
fn tokenizer_error_keeps_position() {
    let mut t = Tokenizer::new("a @");
    assert_eq!(t.next(), Ok(Token::Identifier("a".to_string())));
    let e = Err(LexError::UnknownToken { character: '@', position: 2 });
    assert_eq!(t.next(), e);
    assert_eq!(t.next(), e);
}

#[test]
fn context_first_binding_wins() {
    let mut ctx = Context::new();
    assert_eq!(ctx.get_variable("n"), Value::Undefined);
    ctx.set_variable("n", Value::String("first".to_string()));
    ctx.set_variable("n", Value::String("second".to_string()));
    ctx.declare_variable("m", Value::Undefined);
    assert!(ctx.has_variable("n"));
    assert!(ctx.has_variable("m"));
    assert!(!ctx.has_variable("k"));
    assert_eq!(ctx.get_variable("n"), Value::String("first".to_string()));
}

#[test]
fn parser_hands_out_items_in_order() {
    let mut ast = Ast::new("1 * 2 x").unwrap();
    match ast.next() {
        Ok(Some(Node::Expression(Expression::BinaryExpression(_, _, op)))) => assert_eq!(op, Op::Mul),
        other => panic!("unexpected {:?}", other),
    }
    assert_eq!(
        ast.next(),
        Ok(Some(Node::Expression(Expression::Identifier("x".to_string()))))
    );
    assert_eq!(ast.next(), Ok(None));
}
