use deltac::codegen::{generate, layout_function, CodegenError, Construct, Generator};
use deltac::lexer::token::Token;
use deltac::lexer::tokenizer::tokenize;
use deltac::parse::{
    BinaryOperationTy, ControlFlow, Expression, Function, Literal, Module, Operation, Parser,
    Statement, TypeError,
};
use deltac::PrimitiveTy;

fn lex(input: &str) -> Vec<Token> {
    tokenize(input).into_iter().collect::<Result<Vec<_>, _>>().unwrap()
}

fn compile(input: &str) -> Result<String, CodegenError> {
    let tokens = lex(input);
    let module: Module = Parser::new(input, &tokens).parse().unwrap();
    generate(&module)
}

#[test]
fn one_number_local_reserves_aligned_frame_and_stores_once() {
    let text = compile("fn main() { let a = 10; }").unwrap();
    assert_eq!(
        text,
        ".global main\n.text\nmain:\nsub $16, %rsp\nmovl $10, -8(%rsp)\nmov $format, %rdi\n\
         mov -8(%rsp), %rsi\nxor %rax, %rax\ncall printf\nmov $0, %rdi\ncall exit\n\
         format: .asciz \"Value: %d\\n\"\n"
    );
    let stores = text.lines().filter(|l| l.starts_with("movl $")).count();
    assert_eq!(stores, 1);
}

#[test]
fn functions_without_local_a_compile_without_print() {
    let text = compile("fn main() { let x = 10; }").unwrap();
    assert_eq!(
        text,
        ".global main\n.text\nmain:\nsub $16, %rsp\nmovl $10, -8(%rsp)\nmov $0, %rdi\n\
         call exit\nformat: .asciz \"Value: %d\\n\"\n"
    );
    let text = compile("fn g() { let b = 7; let c = 8; }").unwrap();
    assert_eq!(
        text,
        ".global main\n.text\ndeltafunc_g:\nsub $16, %rsp\nmovl $7, -8(%rsp)\n\
         movl $8, -12(%rsp)\nformat: .asciz \"Value: %d\\n\"\n"
    );
}

#[test]
fn names_are_only_visible_after_their_declaration() {
    assert_eq!(
        compile("fn main() { a = 1; let a = 2; }"),
        Err(CodegenError::Type(TypeError::UnknownVariable("a".to_string())))
    );
    assert_eq!(
        compile("fn main() { if a > 1 { } let a = 2; }"),
        Err(CodegenError::Type(TypeError::UnknownVariable("a".to_string())))
    );
}

#[test]
fn redeclared_name_gets_its_own_slot() {
    let text = compile("fn main() { let a = 1; let b = a; let a = 2; b = a; }").unwrap();
    assert!(text.contains(
        "sub $32, %rsp\nmovl $1, -8(%rsp)\nmovl -8(%rsp), -12(%rsp)\nmovl $2, -16(%rsp)\n\
         movl -16(%rsp), -12(%rsp)\nmov $format, %rdi\nmov -16(%rsp), %rsi\n"
    ));
}

#[test]
fn generating_twice_gives_identical_text() {
    let input = "fn main() { let a = 10; let b = a; if a > 5 { a = 5; } }";
    let tokens = lex(input);
    let module = Parser::new(input, &tokens).parse().unwrap();
    let first = generate(&module).unwrap();
    let second = generate(&module).unwrap();
    assert_eq!(first, second);
}

#[test]
fn if_compares_and_skips_body() {
    let text = compile("fn main() { let a = 10; if a > 5 { a = 5; } if 3 > a { a = 1; } }").unwrap();
    assert_eq!(
        text,
        ".global main\n.text\nmain:\nsub $16, %rsp\nmovl $10, -8(%rsp)\n\
         cmpl $5, -8(%rsp)\njle main_0\nmovl $5, -8(%rsp)\nmain_0:\n\
         cmpl -8(%rsp), $3\njle main_1\nmovl $1, -8(%rsp)\nmain_1:\n\
         mov $format, %rdi\nmov -8(%rsp), %rsi\nxor %rax, %rax\ncall printf\n\
         mov $0, %rdi\ncall exit\nformat: .asciz \"Value: %d\\n\"\n"
    );
}

#[test]
fn other_functions_are_prefixed_and_do_not_exit() {
    let text = compile("fn f() { let a = 1; let b = a; }").unwrap();
    assert_eq!(
        text,
        ".global main\n.text\ndeltafunc_f:\nsub $16, %rsp\nmovl $1, -8(%rsp)\n\
         movl -8(%rsp), -12(%rsp)\nmov $format, %rdi\nmov -8(%rsp), %rsi\n\
         xor %rax, %rax\ncall printf\nformat: .asciz \"Value: %d\\n\"\n"
    );
}

#[test]
fn frame_grows_with_locals() {
    let text = compile("fn g() { let a = 1; let b = 2; let c = 3; let d = 4; }").unwrap();
    assert!(text.contains("sub $32, %rsp\n"));
    assert!(text.contains("movl $4, -20(%rsp)\n"));
}

#[test]
fn layout_assigns_consecutive_slots() {
    let input = "fn g() { let a = 1; let b = a > 0; let c = 2; }";
    let tokens = lex(input);
    let module = Parser::new(input, &tokens).parse().unwrap();
    let frame = layout_function(&module.functions[0].body).unwrap();
    assert_eq!(frame.offsets, vec![8, 12, 13]);
    assert_eq!(frame.top, 17);
    assert_eq!(frame.bindings[1].ty, PrimitiveTy::Boolean);
}

#[test]
fn codegen_errors() {
    assert_eq!(
        compile("fn main() { let a = b; }"),
        Err(CodegenError::Type(TypeError::UnknownVariable("b".to_string())))
    );
    assert_eq!(
        compile("fn main() { let a = 1; a = a + 1; }"),
        Err(CodegenError::Unsupported(Construct::NestedOperation))
    );
    assert_eq!(
        compile("fn main() { let a = 1; if a + 1 { a = 2; } }"),
        Err(CodegenError::Type(TypeError::TypeMismatch {
            expected: PrimitiveTy::Boolean,
            found: PrimitiveTy::Number
        }))
    );
    assert_eq!(
        compile("fn main() { let a = 1; if a { a = 2; } }"),
        Err(CodegenError::Type(TypeError::TypeMismatch {
            expected: PrimitiveTy::Boolean,
            found: PrimitiveTy::Number
        }))
    );
    assert_eq!(
        compile("fn main() { let a = 1; if a > 0 { let c = 2; } }"),
        Err(CodegenError::Unsupported(Construct::StatementInIf))
    );
    assert_eq!(
        compile("fn main() { let a = 99999999999; }"),
        Err(CodegenError::InvalidLiteral)
    );
    assert_eq!(
        compile("fn main() { let b = 1 > 0; let a = 1; }"),
        Err(CodegenError::Unsupported(Construct::NestedOperation))
    );

}

#[test]
fn largest_literal_fits() {
    let text = compile("fn main() { let a = 4294967295; }").unwrap();
    assert!(text.contains("movl $4294967295, -8(%rsp)\n"));
    let text = compile("fn main() { let a = 007; }").unwrap();
    assert!(text.contains("movl $7, -8(%rsp)\n"));
}

#[test]
fn generator_lines() {
    let mut gen = Generator::new();
    assert_eq!(gen.full_raw(), "\n");
    gen.raw(".text");
    gen.label("start");
    gen.label_with_value("msg", ".asciz \"hi\"");
    gen.exit(3);
    assert_eq!(
        gen.full_raw(),
        ".text\nstart:\nmsg: .asciz \"hi\"\nmov $3, %rdi\ncall exit\n"
    );
}

fn module_of(body: Vec<Statement<'static>>) -> Module<'static> {
    Module {
        functions: vec![Function { name: "main", arguments: vec![], return_type: None, body }],
    }
}

fn op(
    left: Expression<'static>,
    ty: BinaryOperationTy,
    right: Expression<'static>,
) -> Expression<'static> {
    Expression::Operation(Box::new(Operation::Binary { left, ty, right }))
}

fn number(value: &'static str) -> Expression<'static> {
    Expression::Literal(Literal { value, ty: PrimitiveTy::Number })
}

#[test]
fn built_trees_reach_the_remaining_errors() {
    let void_local = module_of(vec![Statement::Declaration {
        name: "a",
        expression: op(Expression::Variable("b"), BinaryOperationTy::Assignment, number("1")),
    }]);
    assert_eq!(generate(&void_local), Err(CodegenError::InvalidDeclarationType));

    let flag = Statement::Declaration {
        name: "f",
        expression: Expression::Literal(Literal { value: "true", ty: PrimitiveTy::Boolean }),
    };
    let a = Statement::Declaration { name: "a", expression: number("1") };
    let bare_condition = module_of(vec![
        flag,
        a,
        Statement::ControlFlow(ControlFlow::If { condition: Expression::Variable("f"), body: vec![] }),
    ]);
    assert_eq!(generate(&bare_condition), Err(CodegenError::Unsupported(Construct::ConditionShape)));

    let literal_target = module_of(vec![Statement::Expression(op(
        number("1"),
        BinaryOperationTy::Assignment,
        number("2"),
    ))]);
    assert_eq!(generate(&literal_target), Err(CodegenError::Unsupported(Construct::AssignmentTarget)));

    let unused = module_of(vec![Statement::Expression(op(
        number("1"),
        BinaryOperationTy::Addition,
        number("2"),
    ))]);
    assert_eq!(generate(&unused), Err(CodegenError::Unsupported(Construct::UnusedValue)));
}

#[test]
fn boolean_locals_use_byte_moves() {
    let module = module_of(vec![
        Statement::Declaration {
            name: "f",
            expression: Expression::Literal(Literal { value: "false", ty: PrimitiveTy::Boolean }),
        },
        Statement::Declaration { name: "g", expression: Expression::Variable("f") },
        Statement::Declaration { name: "a", expression: number("3") },
    ]);
    let text = generate(&module).unwrap();
    assert!(text.contains("sub $16, %rsp\nmovb $0, -8(%rsp)\nmovb -8(%rsp), -9(%rsp)\nmovl $3, -10(%rsp)\n"));
}
