use saba_core::renderer::js::ast::{JsParser, Node, Program};
use saba_core::renderer::js::runtime::{JsRuntime, RuntimeValue};
use saba_core::renderer::js::token::{JsLexer, Token};
use std::rc::Rc;

fn lex_all(input: &str) -> Vec<Token> {
    let mut lexer = JsLexer::new(input.to_string());
    let mut out = Vec::new();
    while let Some(t) = lexer.next() {
        out.push(t);
    }
    assert_eq!(None, lexer.next());
    out
}

fn evaluate_all(input: &str) -> Vec<Option<RuntimeValue>> {
    let lexer = JsLexer::new(input.to_string());
    let mut parser = JsParser::new(lexer);
    let ast = parser.parse_ast();
    let mut runtime = JsRuntime::new();
    ast.body().iter().map(|node| runtime.evaluate(&Some(node.clone()))).collect()
}

fn num(value: u64) -> Option<Rc<Node>> {
    Some(Rc::new(Node::NumericLiteral(value)))
}

#[test]
fn ast_test_empty() {
    let input = "".to_string();
    let lexer = JsLexer::new(input);
    let mut parser = JsParser::new(lexer);

    let expected = Program::new();

    assert_eq!(expected, parser.parse_ast());
}

#[test]
fn ast_test_num() {
    let input = "42".to_string();
    let lexer = JsLexer::new(input);
    let mut parser = JsParser::new(lexer);

    let mut expected = Program::new();
    let mut body = Vec::new();

    body.push(Rc::new(Node::ExpressionStatement(Some(Rc::new(
        Node::NumericLiteral(42),
    )))));

    expected.set_body(body);
    assert_eq!(expected, parser.parse_ast());
}

#[test]
fn ast_test_add_num() {
    let input = "1 + 2".to_string();
    let lexer = JsLexer::new(input);
    let mut parser = JsParser::new(lexer);

    let mut expected = Program::new();
    let mut body = Vec::new();

    body.push(Rc::new(Node::ExpressionStatement(Some(Rc::new(
        Node::AdditiveExpression {
            operator: '+',
            left: Some(Rc::new(Node::NumericLiteral(1))),
            right: Some(Rc::new(Node::NumericLiteral(2))),
        },
    )))));

    expected.set_body(body);
    assert_eq!(expected, parser.parse_ast());
}

#[test]
fn runtime_test_num() {
    let input = "42".to_string();
    let lexer = JsLexer::new(input);
    let mut parser = JsParser::new(lexer);
    let ast = parser.parse_ast();
    let mut runtime = JsRuntime::new();
    let expected = [Some(RuntimeValue::Number(42))];

    let mut i = 0;
    for node in ast.body() {
        let result = runtime.evaluate(&Some(node.clone()));
        assert_eq!(result, expected[i]);
        i += 1;
    }
}

#[test]
fn runtime_test_add_num() {
    let input = "1 + 2".to_string();
    let lexer = JsLexer::new(input);
    let mut parser = JsParser::new(lexer);
    let ast = parser.parse_ast();
    let mut runtime = JsRuntime::new();
    let expected = [Some(RuntimeValue::Number(3))];

    let mut i = 0;
    for node in ast.body() {
        let result = runtime.evaluate(&Some(node.clone()));
        assert_eq!(result, expected[i]);
        i += 1;
    }
}

#[test]
fn test_sub_num() {
    let input = "2 - 1".to_string();
    let lexer = JsLexer::new(input);
    let mut parser = JsParser::new(lexer);
    let ast = parser.parse_ast();
    let mut runtime = JsRuntime::new();
    let expected = [Some(RuntimeValue::Number(1))];

    let mut i = 0;
    for node in ast.body() {
        let result = runtime.evaluate(&Some(node.clone()));
        assert_eq!(result, expected[i]);
        i += 1;
    }
}

#[test]
fn lexer_skips_whitespace_and_splits_numbers_from_punctuators() {
    assert_eq!(
        vec![
            Token::Number(12),
            Token::Punctuator('+'),
            Token::Number(3),
            Token::Punctuator(';'),
            Token::Punctuator('-'),
            Token::Number(0),
        ],
        lex_all(" 12+\n3 ;\t-\r000 ")
    );
    assert_eq!(Vec::<Token>::new(), lex_all("  \n "));
}

#[test]
fn lexer_numbers_wrap_modulo_two_to_the_64() {
    assert_eq!(vec![Token::Number(u64::MAX)], lex_all("18446744073709551615"));
    assert_eq!(vec![Token::Number(0)], lex_all("18446744073709551616"));
    assert_eq!(vec![Token::Number(7)], lex_all("18446744073709551623"));
}

#[test]
fn subtraction_groups_to_the_right() {
    // 1 - (2 - 3), with wrapping arithmetic: 2 - 3 is 2^64 - 1, and 1 minus that is 2.
    assert_eq!(vec![Some(RuntimeValue::Number(2))], evaluate_all("1 - 2 - 3"));
    let lexer = JsLexer::new("1 - 2 - 3".to_string());
    let mut parser = JsParser::new(lexer);
    let mut expected = Program::new();
    expected.set_body(vec![Rc::new(Node::ExpressionStatement(Some(Rc::new(
        Node::AdditiveExpression {
            operator: '-',
            left: num(1),
            right: Some(Rc::new(Node::AdditiveExpression {
                operator: '-',
                left: num(2),
                right: num(3),
            })),
        },
    ))))]);
    assert_eq!(expected, parser.parse_ast());
}

#[test]
fn addition_and_subtraction_wrap() {
    assert_eq!(
        vec![Some(RuntimeValue::Number(0))],
        evaluate_all("18446744073709551615 + 1")
    );
    assert_eq!(
        vec![Some(RuntimeValue::Number(u64::MAX))],
        evaluate_all("0 - 1")
    );
    assert_eq!(
        RuntimeValue::Number(4),
        RuntimeValue::Number(u64::MAX).add(RuntimeValue::Number(5))
    );
    assert_eq!(
        RuntimeValue::Number(u64::MAX - 1),
        RuntimeValue::Number(3).sub(RuntimeValue::Number(5))
    );
}

#[test]
fn statements_are_split_at_semicolons() {
    assert_eq!(
        vec![Some(RuntimeValue::Number(3)), Some(RuntimeValue::Number(4))],
        evaluate_all("1 + 2; 4")
    );
}

#[test]
fn missing_operand_has_no_value() {
    assert_eq!(vec![None], evaluate_all("1 +"));
    assert_eq!(vec![None], evaluate_all("+"));
    assert_eq!(vec![None, Some(RuntimeValue::Number(1))], evaluate_all("; 1"));
}

#[test]
fn assignment_and_member_expressions_have_no_value() {
    let mut runtime = JsRuntime::new();
    assert_eq!(None, runtime.evaluate(&Node::new_assignment_expression('=', num(1), num(2))));
    assert_eq!(None, runtime.evaluate(&Node::new_member_expression(num(1), num(2))));
    assert_eq!(None, runtime.evaluate(&Node::new_additive_expression('*', num(1), num(2))));
    assert_eq!(None, runtime.evaluate(&None));
    assert_eq!(
        Some(RuntimeValue::Number(5)),
        runtime.evaluate(&Node::new_expression_statement(Node::new_additive_expression(
            '+',
            Node::new_numeric_literal(2),
            Node::new_numeric_literal(3)
        )))
    );
}

#[test]
fn execute_walks_a_program() {
    let lexer = JsLexer::new("1 + 2; 3 - 4".to_string());
    let mut parser = JsParser::new(lexer);
    let ast = parser.parse_ast();
    let mut runtime = JsRuntime::new();
    assert_eq!(
        vec![Some(RuntimeValue::Number(3)), Some(RuntimeValue::Number(u64::MAX))],
        runtime.execute(&ast)
    );
    assert_eq!(2, ast.body().len());
    assert_eq!(Vec::<Option<RuntimeValue>>::new(), runtime.execute(&Program::new()));
}
