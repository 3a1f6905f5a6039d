use cdlang::lexer::{LexError, LexErrorKind, Lexer, LexerToken};

fn lex(text: &str) -> Result<Vec<LexerToken>, LexError> {
    Lexer::new(text).lex()
}

#[test]
fn lex_example() {
    let output = Lexer::new("fn main() { let test = 5; if test > 5 { } }").lex().unwrap();
    assert_eq!(
        output,
        vec![
            LexerToken::FnDeclaration,
            LexerToken::Identifier("main".to_string()),
            LexerToken::OpenParen,
            LexerToken::CloseParen,
            LexerToken::BeginBlock,
            LexerToken::LetDeclaration,
            LexerToken::Identifier("test".to_string()),
            LexerToken::Equals,
            LexerToken::Number(5),
            LexerToken::EndStatement,
            LexerToken::If,
            LexerToken::Identifier("test".to_string()),
            LexerToken::GreaterThan,
            LexerToken::Number(5),
            LexerToken::BeginBlock,
            LexerToken::EndBlock,
            LexerToken::EndBlock
        ]
    )
}

#[test]
fn from_string_classifies_keywords() {
    assert_eq!(LexerToken::from_string("if"), LexerToken::If);
    assert_eq!(LexerToken::from_string("fn"), LexerToken::FnDeclaration);
    assert_eq!(LexerToken::from_string("let"), LexerToken::LetDeclaration);
    assert_eq!(LexerToken::from_string("const"), LexerToken::ConstDeclaration);
    assert_eq!(LexerToken::from_string("then"), LexerToken::Then);
    assert_eq!(LexerToken::from_string("else"), LexerToken::Else);
    assert_eq!(LexerToken::from_string("return"), LexerToken::ReturnFn);
    assert_eq!(LexerToken::from_string("use"), LexerToken::Use);
    assert_eq!(LexerToken::from_string("true"), LexerToken::Boolean(true));
    assert_eq!(LexerToken::from_string("false"), LexerToken::Boolean(false));
    assert_eq!(
        LexerToken::from_string("iff"),
        LexerToken::Identifier("iff".to_string())
    );
}

#[test]
fn tokenizing_is_deterministic() {
    let text = "fn f() { let a = 1; if a < 2 { } }";
    assert_eq!(lex(text), lex(text));
}

#[test]
fn whitespace_between_tokens_is_insignificant() {
    let compact = lex("let x=5;").unwrap();
    let spread = lex("  let\t x =\n 5 ;\r\n").unwrap();
    assert_eq!(compact, spread);
}

#[test]
fn identifier_round_trip() {
    let output = lex("abc_123").unwrap();
    assert_eq!(output, vec![LexerToken::Identifier("abc_123".to_string())]);
}

#[test]
fn identifier_extent_stops_at_non_continue() {
    let output = lex("ab1 c").unwrap();
    assert_eq!(
        output,
        vec![
            LexerToken::Identifier("ab1".to_string()),
            LexerToken::Identifier("c".to_string())
        ]
    );
}

#[test]
fn number_at_max_value() {
    let output = lex("340282366920938463463374607431768211455").unwrap();
    assert_eq!(output, vec![LexerToken::Number(u128::MAX)]);
}

#[test]
fn number_above_max_is_overflow_error() {
    let err = lex("340282366920938463463374607431768211456").unwrap_err();
    assert_eq!(err.kind, LexErrorKind::NumberOverflow);
    assert_eq!(err.offset, 0);
}

#[test]
fn number_overflow_offset_points_at_literal() {
    let err = lex("x 340282366920938463463374607431768211456").unwrap_err();
    assert_eq!(err.kind, LexErrorKind::NumberOverflow);
    assert_eq!(err.offset, 2);
}

#[test]
fn multi_character_operators() {
    let output = lex(">= <= != > < =").unwrap();
    assert_eq!(
        output,
        vec![
            LexerToken::GreaterEqual,
            LexerToken::LessEqual,
            LexerToken::NotEqual,
            LexerToken::GreaterThan,
            LexerToken::LessThan,
            LexerToken::Equals
        ]
    );
}

#[test]
fn operator_lookahead_binds_adjacent_equals() {
    assert_eq!(
        lex(">=").unwrap(),
        vec![LexerToken::GreaterEqual]
    );
    assert_eq!(
        lex("> =").unwrap(),
        vec![LexerToken::GreaterThan, LexerToken::Equals]
    );
}

#[test]
fn string_literal_plain() {
    let output = lex("\"hi\"").unwrap();
    assert_eq!(output, vec![LexerToken::StringLiteral("hi".to_string())]);
}

#[test]
fn string_literal_escapes() {
    let output = lex("\"a\\\"b\\\\c\\nd\"").unwrap();
    assert_eq!(
        output,
        vec![LexerToken::StringLiteral("a\"b\\c\nd".to_string())]
    );
}

#[test]
fn unterminated_string_is_an_error() {
    let err = lex("\"abc").unwrap_err();
    assert_eq!(err.kind, LexErrorKind::UnterminatedString);
    assert_eq!(err.offset, 0);
}

#[test]
fn invalid_escape_is_an_error() {
    let err = lex("\"a\\q\"").unwrap_err();
    assert_eq!(err.kind, LexErrorKind::InvalidEscape('q'));
    assert_eq!(err.offset, 3);
}

#[test]
fn unexpected_character_is_an_error() {
    let err = lex("let # = 5;").unwrap_err();
    assert_eq!(err.kind, LexErrorKind::UnexpectedChar('#'));
    assert_eq!(err.offset, 4);
}

#[test]
fn bare_bang_is_an_error() {
    let err = lex("a ! b").unwrap_err();
    assert_eq!(err.kind, LexErrorKind::UnexpectedChar('!'));
    assert_eq!(err.offset, 2);
}

#[test]
fn empty_input_yields_no_tokens() {
    assert_eq!(lex("").unwrap(), vec![]);
    assert_eq!(lex("   \n\t ").unwrap(), vec![]);
}

#[test]
fn boolean_literals() {
    assert_eq!(
        lex("true false").unwrap(),
        vec![LexerToken::Boolean(true), LexerToken::Boolean(false)]
    );
}

#[test]
fn unicode_numeral_without_decimal_value_is_invalid_digit() {
    // An Arabic-Indic digit is numeric, so it starts a number literal, but
    // it is not a decimal digit and the literal has no value.
    let err = lex("\u{0661}").unwrap_err();
    assert_eq!(err.kind, LexErrorKind::InvalidDigit('\u{0661}'));
    assert_eq!(err.offset, 0);
}

#[test]
fn unicode_whitespace_separates_tokens() {
    // U+00A0 (no-break space) is Unicode whitespace outside ASCII.
    let output = lex("let\u{00A0}x\u{2003}=\u{00A0}5;").unwrap();
    assert_eq!(
        output,
        vec![
            LexerToken::LetDeclaration,
            LexerToken::Identifier("x".to_string()),
            LexerToken::Equals,
            LexerToken::Number(5),
            LexerToken::EndStatement
        ]
    );
}
