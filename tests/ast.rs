use deltac::ast::{
    BinaryOperationTy, ControlFlow, Expression, Function, Literal, Module, Operation, Parser,
    Statement,
};
use deltac::lexer::token::Token;
use deltac::lexer::tokenizer::Tokenizer;
use deltac::PrimitiveTy;

fn lex(input: &str) -> Vec<Token> {
    Tokenizer::new(input)
        .tokens()
        .into_iter()
        .collect::<Result<Vec<_>, _>>()
        .unwrap()
}

#[test]
fn ast_test_expression_1() {
    let input = "12 + 2";
    let tokens = lex(input);
    let mut parser = Parser::new(input, &tokens);
    let expr = parser.parse_expression().unwrap();
    assert_eq!(
        expr,
        Expression::Operation(Box::new(Operation::Binary {
            left: Expression::Literal(Literal {
                value: "12",
                ty: PrimitiveTy::Number,
            }),
            ty: BinaryOperationTy::Addition,
            right: Expression::Literal(Literal {
                value: "2",
                ty: PrimitiveTy::Number,
            }),
        }))
    );
}

#[test]
fn ast_test_expression_2() {
    let input = "abc + 2";
    let tokens = lex(input);
    let mut parser = Parser::new(input, &tokens);
    let expr = parser.parse_expression().unwrap();
    assert_eq!(
        expr,
        Expression::Operation(Box::new(Operation::Binary {
            left: Expression::Variable("abc"),
            ty: BinaryOperationTy::Addition,
            right: Expression::Literal(Literal {
                value: "2",
                ty: PrimitiveTy::Number,
            }),
        }))
    );
}

#[test]
fn test_complex_1() {
    let input = "
fn IAmAFunction() -> int {
    let a = 10;
    if a > 5 {
        b = 5;
    }
}";
    let tokens = lex(input);
    let parser = Parser::new(input, &tokens);
    let expr = parser.parse().unwrap();
    assert_eq!(
        expr,
        Module {
            functions: vec![Function {
                name: "IAmAFunction",
                arguments: vec![],
                return_type: Some("int"),
                body: vec![
                    Statement::Declaration {
                        name: "a",
                        expression: Expression::Literal(Literal {
                            value: "10",
                            ty: PrimitiveTy::Number
                        })
                    },
                    Statement::ControlFlow(ControlFlow::If {
                        condition: Expression::Operation(Box::new(Operation::Binary {
                            left: Expression::Variable("a"),
                            ty: BinaryOperationTy::Greater,
                            right: Expression::Literal(Literal {
                                value: "5",
                                ty: PrimitiveTy::Number
                            })
                        })),
                        body: vec![Statement::Expression(Expression::Operation(Box::new(
                            Operation::Binary {
                                left: Expression::Variable("b"),
                                ty: BinaryOperationTy::Assignment,
                                right: Expression::Literal(Literal {
                                    value: "5",
                                    ty: PrimitiveTy::Number
                                })
                            }
                        )))]
                    })
                ]
            }]
        }
    );
}
