use cdlang::lexer::{Lexer, LexerToken};
use cdlang::parser::{
    AssignmentType, ComparisonKind, ExpressionKind, ParseError, Parser, ParserToken, Production,
};

fn parse_text(text: &str) -> Result<Vec<ParserToken>, ParseError> {
    let tokens = Lexer::new(text).lex().unwrap();
    Parser::new(tokens).parse()
}

#[test]
fn assignment_round_trip_let_number() {
    let out = parse_text("let x = 5;").unwrap();
    assert_eq!(
        out,
        vec![ParserToken::Assignment {
            identifier: "x".to_string(),
            assignment_type: AssignmentType::Let,
            source: ExpressionKind::Number(5),
        }]
    );
}

#[test]
fn assignment_round_trip_const_string() {
    let out = parse_text("const y = \"hi\";").unwrap();
    assert_eq!(
        out,
        vec![ParserToken::Assignment {
            identifier: "y".to_string(),
            assignment_type: AssignmentType::Const,
            source: ExpressionKind::StringLiteral("hi".to_string()),
        }]
    );
}

#[test]
fn assignment_boolean_literal() {
    let out = parse_text("let b = true;").unwrap();
    assert_eq!(
        out,
        vec![ParserToken::Assignment {
            identifier: "b".to_string(),
            assignment_type: AssignmentType::Let,
            source: ExpressionKind::Boolean(true),
        }]
    );
}

#[test]
fn assignment_rejects_non_literal_source() {
    let err = parse_text("let x = y;").unwrap_err();
    assert_eq!(
        err,
        ParseError::UnexpectedToken {
            production: Production::Assignment,
            found: Some(LexerToken::Identifier("y".to_string())),
        }
    );
}

#[test]
fn concrete_scenario_function_with_conditional() {
    let out = parse_text("fn main() { let test = 5; if test > 5 { } }").unwrap();
    assert_eq!(
        out,
        vec![ParserToken::Function {
            identifier: "main".to_string(),
            content: vec![
                ParserToken::Assignment {
                    identifier: "test".to_string(),
                    assignment_type: AssignmentType::Let,
                    source: ExpressionKind::Number(5),
                },
                ParserToken::Expr(ExpressionKind::IfCondition {
                    cond: Box::new(ExpressionKind::Comparison {
                        left: Box::new(ExpressionKind::Identifier("test".to_string())),
                        right: Box::new(ExpressionKind::Number(5)),
                        cmp: ComparisonKind::GreaterThan,
                    }),
                    then_block: vec![],
                }),
            ],
        }]
    );
}

#[test]
fn block_matching_counts_statements() {
    let out = parse_text("fn f() { let a = 1; let b = 2; let c = 3; }").unwrap();
    match &out[0] {
        ParserToken::Function { identifier, content } => {
            assert_eq!(identifier, "f");
            assert_eq!(content.len(), 3);
        },
        other => panic!("expected a function, got {:?}", other),
    }
}

#[test]
fn removing_final_block_end_is_unterminated_block() {
    let err = parse_text("fn f() { let a = 1; let b = 2; let c = 3;").unwrap_err();
    assert_eq!(
        err,
        ParseError::UnterminatedBlock { production: Production::Function }
    );
}

#[test]
fn empty_token_sequence_parses_to_nothing() {
    let out = parse_text("").unwrap();
    assert_eq!(out, vec![]);
}

#[test]
fn if_shorthand_expression_statement() {
    let out = parse_text("if a then 1 else 2;").unwrap();
    assert_eq!(
        out,
        vec![ParserToken::Expr(ExpressionKind::IfShorthand {
            cond: Box::new(ExpressionKind::Identifier("a".to_string())),
            then_expr: Box::new(ExpressionKind::Number(1)),
            otherwise: Box::new(ExpressionKind::Number(2)),
        })]
    );
}

#[test]
fn return_statement_wraps_expression() {
    let out = parse_text("fn f() { return x; }").unwrap();
    assert_eq!(
        out,
        vec![ParserToken::Function {
            identifier: "f".to_string(),
            content: vec![ParserToken::Return(ExpressionKind::Identifier("x".to_string()))],
        }]
    );
}

#[test]
fn comparison_chain_is_left_associative() {
    let out = parse_text("a > b < c;").unwrap();
    assert_eq!(
        out,
        vec![ParserToken::Expr(ExpressionKind::Comparison {
            left: Box::new(ExpressionKind::Comparison {
                left: Box::new(ExpressionKind::Identifier("a".to_string())),
                right: Box::new(ExpressionKind::Identifier("b".to_string())),
                cmp: ComparisonKind::GreaterThan,
            }),
            right: Box::new(ExpressionKind::Identifier("c".to_string())),
            cmp: ComparisonKind::LessThan,
        })]
    );
}

#[test]
fn nested_conditional_error_is_local() {
    // The inner conditional is the failing production: after its condition
    // there is neither a branch keyword nor a block.
    let err = parse_text("fn main() { if x { if y 5 } }").unwrap_err();
    assert_eq!(
        err,
        ParseError::UnexpectedToken {
            production: Production::Conditional,
            found: Some(LexerToken::Number(5)),
        }
    );
}

#[test]
fn function_header_mismatch_is_reported() {
    let err = parse_text("fn main( { }").unwrap_err();
    assert_eq!(
        err,
        ParseError::UnexpectedToken {
            production: Production::Function,
            found: Some(LexerToken::BeginBlock),
        }
    );
}

#[test]
fn statement_keyword_mismatch_is_reported() {
    let err = parse_text("; let x = 1;").unwrap_err();
    assert_eq!(
        err,
        ParseError::UnexpectedToken {
            production: Production::Expression,
            found: Some(LexerToken::EndStatement),
        }
    );
}

#[test]
fn parse_error_at_end_of_input_carries_no_token() {
    let err = parse_text("let x = 5").unwrap_err();
    assert_eq!(
        err,
        ParseError::UnexpectedToken { production: Production::Assignment, found: None }
    );
}
