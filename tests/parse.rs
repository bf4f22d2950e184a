use deltac::lexer::token::{KeywordTy, SymbolTy, Token, TokenTy};
use deltac::lexer::tokenizer::tokenize;
use deltac::parse::{
    BinaryOperationTy, Binding, Expression, Literal, Operation, ParseError, Parser, Statement,
    TypeError,
};
use deltac::PrimitiveTy;

fn lex(input: &str) -> Vec<Token> {
    tokenize(input).into_iter().collect::<Result<Vec<_>, _>>().unwrap()
}

fn num(value: &str) -> Expression<'_> {
    Expression::Literal(Literal { value, ty: PrimitiveTy::Number })
}

fn binary<'a>(left: Expression<'a>, ty: BinaryOperationTy, right: Expression<'a>) -> Expression<'a> {
    Expression::Operation(Box::new(Operation::Binary { left, ty, right }))
}

#[test]
fn mod_test_expression_1() {
    let input = "12 + 2";
    let tokens = lex(input);
    let mut parser = Parser::new(input, &tokens);
    let expr = parser.parse_expression().unwrap();
    assert_eq!(
        expr,
        Expression::Operation(Box::new(Operation::Binary {
            left: Expression::Literal(Literal {
                value: "12",
                ty: PrimitiveTy::Number,
            }),
            ty: BinaryOperationTy::Addition,
            right: Expression::Literal(Literal {
                value: "2",
                ty: PrimitiveTy::Number,
            }),
        }))
    );
}

#[test]
fn mod_test_expression_2() {
    let input = "abc + 2";
    let tokens = lex(input);
    let mut parser = Parser::new(input, &tokens);
    let expr = parser.parse_expression().unwrap();
    assert_eq!(
        expr,
        Expression::Operation(Box::new(Operation::Binary {
            left: Expression::Variable("abc"),
            ty: BinaryOperationTy::Addition,
            right: Expression::Literal(Literal {
                value: "2",
                ty: PrimitiveTy::Number,
            }),
        }))
    );
}

#[test]
fn operator_chains_group_to_the_right() {
    let input = "1 + 2 > 3;";
    let tokens = lex(input);
    let mut parser = Parser::new(input, &tokens);
    let expr = parser.parse_expression().unwrap();
    assert_eq!(
        expr,
        binary(num("1"), BinaryOperationTy::Addition, binary(num("2"), BinaryOperationTy::Greater, num("3")))
    );
    assert_eq!(parser.index, 5);
}

#[test]
fn expression_stops_before_brace() {
    let input = "x {";
    let tokens = lex(input);
    let mut parser = Parser::new(input, &tokens);
    assert_eq!(parser.parse_expression().unwrap(), Expression::Variable("x"));
    assert_eq!(parser.index, 1);
}

#[test]
fn expression_errors() {
    let input = "= 1";
    let tokens = lex(input);
    let mut parser = Parser::new(input, &tokens);
    assert_eq!(
        parser.parse_expression(),
        Err(ParseError::UnexpectedToken { index: 0, ty: TokenTy::Symbol(SymbolTy::Assign) })
    );
    let input = "1 2";
    let tokens = lex(input);
    let mut parser = Parser::new(input, &tokens);
    assert_eq!(
        parser.parse_expression(),
        Err(ParseError::UnexpectedToken { index: 1, ty: TokenTy::Literal(PrimitiveTy::Number) })
    );
    let input = "1 +";
    let tokens = lex(input);
    let mut parser = Parser::new(input, &tokens);
    assert_eq!(parser.parse_expression(), Err(ParseError::UnexpectedEnd));
}

#[test]
fn body_parses_statements_until_brace() {
    let input = "let x = 1; x = x + 2; } tail";
    let tokens = lex(input);
    let mut parser = Parser::new(input, &tokens);
    let body = parser.parse_body().unwrap();
    assert_eq!(
        body,
        vec![
            Statement::Declaration { name: "x", expression: num("1") },
            Statement::Expression(binary(
                Expression::Variable("x"),
                BinaryOperationTy::Assignment,
                binary(Expression::Variable("x"), BinaryOperationTy::Addition, num("2"))
            )),
        ]
    );
    assert_eq!(parser.index, 12);
}

#[test]
fn body_without_closing_brace_fails() {
    let input = "let x = 1;";
    let tokens = lex(input);
    let mut parser = Parser::new(input, &tokens);
    assert_eq!(parser.parse_body(), Err(ParseError::UnexpectedEnd));
}

#[test]
fn function_without_return_type() {
    let input = "fn f() { }";
    let tokens = lex(input);
    let parser = Parser::new(input, &tokens);
    let module = parser.parse().unwrap();
    assert_eq!(module.functions.len(), 1);
    assert_eq!(module.functions[0].name, "f");
    assert_eq!(module.functions[0].return_type, None);
    assert!(module.functions[0].body.is_empty());
}

#[test]
fn module_errors() {
    let input = "let a = 1;";
    let tokens = lex(input);
    assert_eq!(
        Parser::new(input, &tokens).parse(),
        Err(ParseError::UnexpectedToken { index: 0, ty: TokenTy::Keyword(KeywordTy::Let) })
    );
    let input = "fn f() {} fn g() {}";
    let tokens = lex(input);
    assert_eq!(
        Parser::new(input, &tokens).parse(),
        Err(ParseError::UnexpectedToken { index: 6, ty: TokenTy::Keyword(KeywordTy::Function) })
    );
    let input = "fn f() return {}";
    let tokens = lex(input);
    assert_eq!(
        Parser::new(input, &tokens).parse(),
        Err(ParseError::UnexpectedToken { index: 4, ty: TokenTy::Keyword(KeywordTy::Return) })
    );
    let tokens: Vec<Token> = Vec::new();
    assert_eq!(Parser::new("", &tokens).parse(), Err(ParseError::UnexpectedEnd));
}

#[test]
fn typing_rules() {
    let env = vec![
        Binding { name: "n", ty: PrimitiveTy::Number },
        Binding { name: "b", ty: PrimitiveTy::Boolean },
    ];
    let add = binary(num("1"), BinaryOperationTy::Addition, num("2"));
    assert_eq!(add.get_type(&env), Ok(PrimitiveTy::Number));
    let gt = binary(Expression::Variable("n"), BinaryOperationTy::Greater, num("2"));
    assert_eq!(gt.get_type(&env), Ok(PrimitiveTy::Boolean));
    let assign = binary(Expression::Variable("n"), BinaryOperationTy::Assignment, num("2"));
    assert_eq!(assign.get_type(&env), Ok(PrimitiveTy::Void));
    let mixed = binary(Expression::Variable("n"), BinaryOperationTy::Addition, Expression::Variable("b"));
    assert_eq!(
        mixed.get_type(&env),
        Err(TypeError::TypeMismatch { expected: PrimitiveTy::Number, found: PrimitiveTy::Boolean })
    );
    assert_eq!(
        Expression::Variable("z").get_type(&env),
        Err(TypeError::UnknownVariable("z".to_string()))
    );
    assert_eq!(Expression::Variable("b").get_type(&env), Ok(PrimitiveTy::Boolean));
}

#[test]
fn later_binding_shadows_earlier() {
    let env = vec![
        Binding { name: "x", ty: PrimitiveTy::Number },
        Binding { name: "x", ty: PrimitiveTy::Boolean },
    ];
    assert_eq!(Expression::Variable("x").get_type(&env), Ok(PrimitiveTy::Boolean));
}
