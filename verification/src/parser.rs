//! Recursive-descent parser: consumes the token sequence produced by the
//! tokenizer and builds the abstract syntax tree, or fails with a
//! `ParseError` naming the production being parsed and the offending token.
use vstd::prelude::*;

use crate::lexer::LexerToken;
use crate::lexer::SpecToken;

verus! {

/// The binding kind of a variable declaration.
#[derive(Debug, Clone, Copy, PartialEq, Eq, Structural)]
pub enum AssignmentType {
    Const,
    Let,
}

/// The operator of a comparison expression.
#[derive(Debug, Clone, Copy, PartialEq, Eq, Structural)]
pub enum ComparisonKind {
    Equal,
    GreaterThan,
    GreaterEqualThan,
    LessThan,
    LessEqualThan,
    NotEqual,
}

/// A statement of the syntax tree.
#[derive(Debug, PartialEq, Eq)]
pub enum ParserToken {
    /// A named function with its body.
    Function { identifier: String, content: Vec<ParserToken> },
    /// A bare expression in statement position.
    Expr(ExpressionKind),
    /// A `let` or `const` binding of a literal to a name.
    Assignment { identifier: String, assignment_type: AssignmentType, source: ExpressionKind },
    /// A `return` of a trailing expression.
    Return(ExpressionKind),
}

/// An expression of the syntax tree.
#[derive(Debug, PartialEq, Eq)]
pub enum ExpressionKind {
    Identifier(String),
    Comparison { left: Box<ExpressionKind>, right: Box<ExpressionKind>, cmp: ComparisonKind },
    IfShorthand {
        cond: Box<ExpressionKind>,
        then_expr: Box<ExpressionKind>,
        otherwise: Box<ExpressionKind>,
    },
    IfCondition { cond: Box<ExpressionKind>, then_block: Vec<ParserToken> },
    StringLiteral(String),
    Number(u128),
    Boolean(bool),
}

/// The mathematical model of a statement.
pub enum SpecStmt {
    Function { identifier: Seq<char>, content: Seq<SpecStmt> },
    Expr(SpecExpr),
    Assignment { identifier: Seq<char>, assignment_type: AssignmentType, source: SpecExpr },
    Return(SpecExpr),
}

/// The mathematical model of an expression.
pub enum SpecExpr {
    Identifier(Seq<char>),
    Comparison { left: Box<SpecExpr>, right: Box<SpecExpr>, cmp: ComparisonKind },
    IfShorthand { cond: Box<SpecExpr>, then_expr: Box<SpecExpr>, otherwise: Box<SpecExpr> },
    IfCondition { cond: Box<SpecExpr>, then_block: Seq<SpecStmt> },
    StringLiteral(Seq<char>),
    Number(u128),
    Boolean(bool),
}

/// The models of a sequence of statements, element by element.
pub open spec fn stmts_deep_view(l: Seq<ParserToken>) -> Seq<SpecStmt>
    decreases l,
{
    if l.len() == 0 {
        Seq::<SpecStmt>::empty()
    } else {
        seq![l[0].deep_view()] + stmts_deep_view(l.drop_first())
    }
}

impl DeepView for ParserToken {
    type V = SpecStmt;

    open spec fn deep_view(&self) -> SpecStmt
        decreases self,
    {
        match self {
            ParserToken::Function { identifier, content } => SpecStmt::Function {
                identifier: identifier@,
                content: stmts_deep_view(content@),
            },
            ParserToken::Expr(e) => SpecStmt::Expr(e.deep_view()),
            ParserToken::Assignment { identifier, assignment_type, source } => SpecStmt::Assignment {
                identifier: identifier@,
                assignment_type: *assignment_type,
                source: source.deep_view(),
            },
            ParserToken::Return(e) => SpecStmt::Return(e.deep_view()),
        }
    }
}

impl DeepView for ExpressionKind {
    type V = SpecExpr;

    open spec fn deep_view(&self) -> SpecExpr
        decreases self,
    {
        match self {
            ExpressionKind::Identifier(s) => SpecExpr::Identifier(s@),
            ExpressionKind::Comparison { left, right, cmp } => SpecExpr::Comparison {
                left: Box::new((**left).deep_view()),
                right: Box::new((**right).deep_view()),
                cmp: *cmp,
            },
            ExpressionKind::IfShorthand { cond, then_expr, otherwise } => SpecExpr::IfShorthand {
                cond: Box::new((**cond).deep_view()),
                then_expr: Box::new((**then_expr).deep_view()),
                otherwise: Box::new((**otherwise).deep_view()),
            },
            ExpressionKind::IfCondition { cond, then_block } => SpecExpr::IfCondition {
                cond: Box::new((**cond).deep_view()),
                then_block: stmts_deep_view(then_block@),
            },
            ExpressionKind::StringLiteral(s) => SpecExpr::StringLiteral(s@),
            ExpressionKind::Number(n) => SpecExpr::Number(*n),
            ExpressionKind::Boolean(b) => SpecExpr::Boolean(*b),
        }
    }
}

/// The production that was being parsed when an error was found.
#[derive(Debug, Clone, Copy, PartialEq, Eq, Structural)]
pub enum Production {
    Statement,
    Function,
    Assignment,
    Conditional,
    Expression,
    ReturnStatement,
}

/// A parsing failure: the production being attempted, and the offending
/// token (`None` stands for end of input); or a block left open when the
/// input ran out.
#[derive(Debug, Clone, PartialEq, Eq)]
pub enum ParseError {
    UnexpectedToken { production: Production, found: Option<LexerToken> },
    UnterminatedBlock { production: Production },
}

/// The mathematical model of a parsing failure.
pub enum SpecParseError {
    UnexpectedToken { production: Production, found: Option<SpecToken> },
    UnterminatedBlock { production: Production },
}

impl DeepView for ParseError {
    type V = SpecParseError;

    open spec fn deep_view(&self) -> SpecParseError {
        match self {
            ParseError::UnexpectedToken { production, found } => SpecParseError::UnexpectedToken {
                production: *production,
                found: match found {
                    Some(t) => Some(t.deep_view()),
                    None => None,
                },
            },
            ParseError::UnterminatedBlock { production } => SpecParseError::UnterminatedBlock {
                production: *production,
            },
        }
    }
}

/// The token at position `i`, or `None` past the end of the sequence.
pub open spec fn tok_at(toks: Seq<SpecToken>, i: int) -> Option<SpecToken> {
    if 0 <= i < toks.len() {
        Some(toks[i])
    } else {
        None
    }
}

/// The error for an unexpected token (or end of input) at position `i`
/// while parsing production `p`.
pub open spec fn unexpected(p: Production, toks: Seq<SpecToken>, i: int) -> SpecParseError {
    SpecParseError::UnexpectedToken { production: p, found: tok_at(toks, i) }
}

/// The comparison operator a token stands for, if any.
pub open spec fn cmp_of_token(t: SpecToken) -> Option<ComparisonKind> {
    match t {
        SpecToken::Equals => Some(ComparisonKind::Equal),
        SpecToken::GreaterThan => Some(ComparisonKind::GreaterThan),
        SpecToken::GreaterEqual => Some(ComparisonKind::GreaterEqualThan),
        SpecToken::LessThan => Some(ComparisonKind::LessThan),
        SpecToken::LessEqual => Some(ComparisonKind::LessEqualThan),
        SpecToken::NotEqual => Some(ComparisonKind::NotEqual),
        _ => None,
    }
}

/// The literal expression a token stands for, if any.
pub open spec fn literal_expr(t: SpecToken) -> Option<SpecExpr> {
    match t {
        SpecToken::StringLiteral(s) => Some(SpecExpr::StringLiteral(s)),
        SpecToken::Number(v) => Some(SpecExpr::Number(v)),
        SpecToken::Boolean(b) => Some(SpecExpr::Boolean(b)),
        _ => None,
    }
}

// The spec parser below mirrors the grammar, one function per production.
// Each function takes the position of its first token and yields the parsed
// node and the position just past it. Every production advances the
// position; the `i < j <= toks.len()` tests on sub-results make that
// advance definitional, so the recursion visibly terminates (the guarded
// error branches are never reached).

/// A primary expression: an identifier, a literal, or a conditional.
pub open spec fn parse_primary_spec(toks: Seq<SpecToken>, i: int) -> Result<
    (SpecExpr, int),
    SpecParseError,
>
    decreases toks.len() - i, 0int,
        when 0 <= i <= toks.len()
{
    if i >= toks.len() {
        Err(unexpected(Production::Expression, toks, i))
    } else {
        match toks[i] {
            SpecToken::Identifier(name) => Ok((SpecExpr::Identifier(name), i + 1)),
            SpecToken::StringLiteral(t) => Ok((SpecExpr::StringLiteral(t), i + 1)),
            SpecToken::Number(v) => Ok((SpecExpr::Number(v), i + 1)),
            SpecToken::Boolean(b) => Ok((SpecExpr::Boolean(b), i + 1)),
            SpecToken::If => parse_if_spec(toks, i + 1),
            _ => Err(unexpected(Production::Expression, toks, i)),
        }
    }
}

/// The left-associative chain of comparisons continuing an expression.
pub open spec fn parse_cmp_rest_spec(toks: Seq<SpecToken>, i: int, left: SpecExpr) -> Result<
    (SpecExpr, int),
    SpecParseError,
>
    decreases toks.len() - i, 1int,
        when 0 <= i <= toks.len()
{
    if i < toks.len() && cmp_of_token(toks[i]) is Some {
        match parse_primary_spec(toks, i + 1) {
            Ok((right, j)) => if i + 1 < j <= toks.len() {
                parse_cmp_rest_spec(
                    toks,
                    j,
                    SpecExpr::Comparison {
                        left: Box::new(left),
                        right: Box::new(right),
                        cmp: cmp_of_token(toks[i])->Some_0,
                    },
                )
            } else {
                Err(unexpected(Production::Expression, toks, i))
            },
            Err(e) => Err(e),
        }
    } else {
        Ok((left, i))
    }
}

/// A full expression: a primary expression followed by any number of
/// comparisons, associated to the left.
pub open spec fn parse_expression_spec(toks: Seq<SpecToken>, i: int) -> Result<
    (SpecExpr, int),
    SpecParseError,
>
    decreases toks.len() - i, 2int,
        when 0 <= i <= toks.len()
{
    match parse_primary_spec(toks, i) {
        Ok((e, j)) => if i < j <= toks.len() {
            parse_cmp_rest_spec(toks, j, e)
        } else {
            Err(unexpected(Production::Expression, toks, i))
        },
        Err(er) => Err(er),
    }
}

/// A conditional, the `if` keyword already consumed: either the shorthand
/// expression form with both branches, or the statement form with a block;
/// the keyword after the condition is the sole discriminator.
pub open spec fn parse_if_spec(toks: Seq<SpecToken>, i: int) -> Result<
    (SpecExpr, int),
    SpecParseError,
>
    decreases toks.len() - i, 3int,
        when 0 <= i <= toks.len()
{
    match parse_expression_spec(toks, i) {
        Err(e) => Err(e),
        Ok((cond, j)) => if !(i < j <= toks.len()) {
            Err(unexpected(Production::Conditional, toks, i))
        } else if j < toks.len() && toks[j] is Then {
            match parse_expression_spec(toks, j + 1) {
                Err(e) => Err(e),
                Ok((te, k)) => if !(j + 1 < k <= toks.len()) {
                    Err(unexpected(Production::Conditional, toks, j))
                } else if k < toks.len() && toks[k] is Else {
                    match parse_expression_spec(toks, k + 1) {
                        Err(e) => Err(e),
                        Ok((ee, m)) => Ok(
                            (
                                SpecExpr::IfShorthand {
                                    cond: Box::new(cond),
                                    then_expr: Box::new(te),
                                    otherwise: Box::new(ee),
                                },
                                m,
                            ),
                        ),
                    }
                } else {
                    Err(unexpected(Production::Conditional, toks, k))
                },
            }
        } else if j < toks.len() && toks[j] is BeginBlock {
            match parse_block_spec(toks, j + 1, Production::Conditional) {
                Err(e) => Err(e),
                Ok((body, m)) => Ok(
                    (SpecExpr::IfCondition { cond: Box::new(cond), then_block: body }, m),
                ),
            }
        } else {
            Err(unexpected(Production::Conditional, toks, j))
        },
    }
}

/// The body of a block: statements until the matching block-end token,
/// which is consumed. Running out of input first is an unterminated block,
/// never an empty one.
pub open spec fn parse_block_spec(toks: Seq<SpecToken>, i: int, prod: Production) -> Result<
    (Seq<SpecStmt>, int),
    SpecParseError,
>
    decreases toks.len() - i, 5int,
        when 0 <= i <= toks.len()
{
    if i >= toks.len() {
        Err(SpecParseError::UnterminatedBlock { production: prod })
    } else if toks[i] is EndBlock {
        Ok((Seq::<SpecStmt>::empty(), i + 1))
    } else {
        match parse_stmt_spec(toks, i) {
            Err(e) => Err(e),
            Ok((st, j)) => if i < j <= toks.len() {
                match parse_block_spec(toks, j, prod) {
                    Err(e) => Err(e),
                    Ok((rest, m)) => Ok((seq![st] + rest, m)),
                }
            } else {
                Err(SpecParseError::UnterminatedBlock { production: prod })
            },
        }
    }
}

/// A function declaration, the `fn` keyword already consumed: a name, an
/// empty parameter list, and a block body.
pub open spec fn parse_function_spec(toks: Seq<SpecToken>, i: int) -> Result<
    (SpecStmt, int),
    SpecParseError,
>
    decreases toks.len() - i, 6int,
        when 0 <= i <= toks.len()
{
    if i + 4 <= toks.len() && toks[i] is Identifier && toks[i + 1] is OpenParen && toks[i + 2]
        is CloseParen && toks[i + 3] is BeginBlock {
        match parse_block_spec(toks, i + 4, Production::Function) {
            Err(e) => Err(e),
            Ok((body, m)) => Ok(
                (SpecStmt::Function { identifier: toks[i]->Identifier_0, content: body }, m),
            ),
        }
    } else if i >= toks.len() || !(toks[i] is Identifier) {
        Err(unexpected(Production::Function, toks, i))
    } else if i + 1 >= toks.len() || !(toks[i + 1] is OpenParen) {
        Err(unexpected(Production::Function, toks, i + 1))
    } else if i + 2 >= toks.len() || !(toks[i + 2] is CloseParen) {
        Err(unexpected(Production::Function, toks, i + 2))
    } else {
        Err(unexpected(Production::Function, toks, i + 3))
    }
}

/// A variable declaration at its binding keyword: exactly the five-token
/// shape keyword, identifier, equals, literal, statement-end.
pub open spec fn parse_assignment_spec(toks: Seq<SpecToken>, i: int) -> Result<
    (SpecStmt, int),
    SpecParseError,
> {
    if i + 5 <= toks.len() && toks[i + 1] is Identifier && toks[i + 2] is Equals && literal_expr(
        toks[i + 3],
    ) is Some && toks[i + 4] is EndStatement {
        Ok(
            (
                SpecStmt::Assignment {
                    identifier: toks[i + 1]->Identifier_0,
                    assignment_type: if toks[i] is LetDeclaration {
                        AssignmentType::Let
                    } else {
                        AssignmentType::Const
                    },
                    source: literal_expr(toks[i + 3])->Some_0,
                },
                i + 5,
            ),
        )
    } else if i + 1 >= toks.len() || !(toks[i + 1] is Identifier) {
        Err(unexpected(Production::Assignment, toks, i + 1))
    } else if i + 2 >= toks.len() || !(toks[i + 2] is Equals) {
        Err(unexpected(Production::Assignment, toks, i + 2))
    } else if i + 3 >= toks.len() || literal_expr(toks[i + 3]) is None {
        Err(unexpected(Production::Assignment, toks, i + 3))
    } else {
        Err(unexpected(Production::Assignment, toks, i + 4))
    }
}

/// One statement at position `i`: the current token picks the production.
pub open spec fn parse_stmt_spec(toks: Seq<SpecToken>, i: int) -> Result<
    (SpecStmt, int),
    SpecParseError,
>
    decreases toks.len() - i, 4int,
        when 0 <= i <= toks.len()
{
    if i >= toks.len() {
        Err(unexpected(Production::Statement, toks, i))
    } else {
        match toks[i] {
            SpecToken::FnDeclaration => parse_function_spec(toks, i + 1),
            SpecToken::LetDeclaration => parse_assignment_spec(toks, i),
            SpecToken::ConstDeclaration => parse_assignment_spec(toks, i),
            SpecToken::ReturnFn => match parse_expression_spec(toks, i + 1) {
                Err(e) => Err(e),
                Ok((e, j)) => if j < toks.len() && toks[j] is EndStatement {
                    Ok((SpecStmt::Return(e), j + 1))
                } else {
                    Err(unexpected(Production::ReturnStatement, toks, j))
                },
            },
            SpecToken::If => match parse_if_spec(toks, i + 1) {
                Err(e) => Err(e),
                Ok((e, j)) => if e is IfCondition {
                    Ok((SpecStmt::Expr(e), j))
                } else if j < toks.len() && toks[j] is EndStatement {
                    Ok((SpecStmt::Expr(e), j + 1))
                } else {
                    Err(unexpected(Production::Statement, toks, j))
                },
            },
            _ => match parse_expression_spec(toks, i) {
                Err(e) => Err(e),
                Ok((e, j)) => if j < toks.len() && toks[j] is EndStatement {
                    Ok((SpecStmt::Expr(e), j + 1))
                } else {
                    Err(unexpected(Production::Statement, toks, j))
                },
            },
        }
    }
}

/// The top level: statements until the token sequence is exhausted.
pub open spec fn parse_stmts_spec(toks: Seq<SpecToken>, i: int) -> Result<
    Seq<SpecStmt>,
    SpecParseError,
>
    decreases toks.len() - i, 7int,
        when 0 <= i <= toks.len()
{
    if i >= toks.len() {
        Ok(Seq::<SpecStmt>::empty())
    } else {
        match parse_stmt_spec(toks, i) {
            Err(e) => Err(e),
            Ok((st, j)) => if i < j <= toks.len() {
                match parse_stmts_spec(toks, j) {
                    Err(e) => Err(e),
                    Ok(rest) => Ok(seq![st] + rest),
                }
            } else {
                Err(unexpected(Production::Statement, toks, i))
            },
        }
    }
}

/// The syntax tree of a whole token sequence: the contract of the parser.
pub open spec fn parse_spec(toks: Seq<SpecToken>) -> Result<Seq<SpecStmt>, SpecParseError> {
    parse_stmts_spec(toks, 0)
}

// --- Position bounds of the productions ------------------------------------
//
// Every production that succeeds consumes at least one token and ends
// within the sequence. The guards in the definitions give this for the
// sub-results they test; these lemmas give it for the results themselves.

proof fn lemma_primary_bounds(t: Seq<SpecToken>, i: int)
    requires
        0 <= i <= t.len(),
    ensures
        parse_primary_spec(t, i) matches Ok((v, j)) ==> i < j <= t.len(),
    decreases t.len() - i, 0int,
{
    if i < t.len() && t[i] is If {
        lemma_if_bounds(t, i + 1);
    }
}

proof fn lemma_cmp_rest_bounds(t: Seq<SpecToken>, i: int, left: SpecExpr)
    requires
        0 <= i <= t.len(),
    ensures
        parse_cmp_rest_spec(t, i, left) matches Ok((v, j)) ==> i <= j <= t.len(),
    decreases t.len() - i, 1int,
{
    if i < t.len() && cmp_of_token(t[i]) is Some {
        match parse_primary_spec(t, i + 1) {
            Ok((right, j)) => {
                if i + 1 < j <= t.len() {
                    lemma_cmp_rest_bounds(
                        t,
                        j,
                        SpecExpr::Comparison {
                            left: Box::new(left),
                            right: Box::new(right),
                            cmp: cmp_of_token(t[i])->Some_0,
                        },
                    );
                }
            },
            Err(_) => {},
        }
    }
}

proof fn lemma_expression_bounds(t: Seq<SpecToken>, i: int)
    requires
        0 <= i <= t.len(),
    ensures
        parse_expression_spec(t, i) matches Ok((v, j)) ==> i < j <= t.len(),
    decreases t.len() - i, 2int,
{
    match parse_primary_spec(t, i) {
        Ok((e, j)) => {
            if i < j <= t.len() {
                lemma_cmp_rest_bounds(t, j, e);
            }
        },
        Err(_) => {},
    }
}

proof fn lemma_if_bounds(t: Seq<SpecToken>, i: int)
    requires
        0 <= i <= t.len(),
    ensures
        parse_if_spec(t, i) matches Ok((v, j)) ==> i < j <= t.len(),
    decreases t.len() - i, 3int,
{
    match parse_expression_spec(t, i) {
        Ok((cond, j)) => {
            lemma_expression_bounds(t, i);
            if i < j <= t.len() {
                if j < t.len() && t[j] is Then {
                    match parse_expression_spec(t, j + 1) {
                        Ok((te, kk)) => {
                            lemma_expression_bounds(t, j + 1);
                            if j + 1 < kk <= t.len() && kk < t.len() && t[kk] is Else {
                                lemma_expression_bounds(t, kk + 1);
                            }
                        },
                        Err(_) => {},
                    }
                } else if j < t.len() && t[j] is BeginBlock {
                    lemma_block_bounds(t, j + 1, Production::Conditional);
                }
            }
        },
        Err(_) => {},
    }
}

proof fn lemma_block_bounds(t: Seq<SpecToken>, i: int, prod: Production)
    requires
        0 <= i <= t.len(),
    ensures
        parse_block_spec(t, i, prod) matches Ok((v, j)) ==> i < j <= t.len(),
    decreases t.len() - i, 5int,
{
    if i < t.len() && !(t[i] is EndBlock) {
        match parse_stmt_spec(t, i) {
            Ok((st, j)) => {
                if i < j <= t.len() {
                    lemma_block_bounds(t, j, prod);
                }
            },
            Err(_) => {},
        }
    }
}

proof fn lemma_function_bounds(t: Seq<SpecToken>, i: int)
    requires
        0 <= i <= t.len(),
    ensures
        parse_function_spec(t, i) matches Ok((v, j)) ==> i < j <= t.len(),
    decreases t.len() - i, 6int,
{
    if i + 4 <= t.len() && t[i] is Identifier && t[i + 1] is OpenParen && t[i + 2] is CloseParen
        && t[i + 3] is BeginBlock {
        lemma_block_bounds(t, i + 4, Production::Function);
    }
}

proof fn lemma_stmt_bounds(t: Seq<SpecToken>, i: int)
    requires
        0 <= i <= t.len(),
    ensures
        parse_stmt_spec(t, i) matches Ok((v, j)) ==> i < j <= t.len(),
    decreases t.len() - i, 4int,
{
    if i < t.len() {
        match t[i] {
            SpecToken::FnDeclaration => {
                lemma_function_bounds(t, i + 1);
            },
            SpecToken::ReturnFn => {
                lemma_expression_bounds(t, i + 1);
            },
            SpecToken::If => {
                lemma_if_bounds(t, i + 1);
            },
            _ => {
                lemma_expression_bounds(t, i);
            },
        }
    }
}

// --- Truncation locality of the productions ---------------------------------
//
// A production that succeeds reads nothing past its own end: the tokens
// after position `j` can be cut away (at any `k >= j`) without changing
// the result. This is what makes "the input ended inside the block"
// distinguishable from "the block closed": see `lemma_block_matching`.

proof fn lemma_take_index(t: Seq<SpecToken>, k: int)
    requires
        0 <= k <= t.len(),
    ensures
        t.take(k).len() == k,
        forall|m: int| 0 <= m < k ==> #[trigger] t.take(k)[m] == t[m],
{
}

proof fn lemma_take_primary(t: Seq<SpecToken>, i: int, k: int)
    requires
        0 <= i <= t.len(),
        parse_primary_spec(t, i) is Ok,
        0 <= k,
        parse_primary_spec(t, i)->Ok_0.1 <= k <= t.len(),
    ensures
        parse_primary_spec(t.take(k), i) == parse_primary_spec(t, i),
    decreases t.len() - i, 0int,
{
    lemma_take_index(t, k);
    lemma_primary_bounds(t, i);
    if t[i] is If {
        lemma_if_bounds(t, i + 1);
        lemma_take_if(t, i + 1, k);
    }
}

proof fn lemma_take_cmp_rest(t: Seq<SpecToken>, i: int, left: SpecExpr, k: int)
    requires
        0 <= i <= t.len(),
        parse_cmp_rest_spec(t, i, left) is Ok,
        0 <= k,
        parse_cmp_rest_spec(t, i, left)->Ok_0.1 <= k <= t.len(),
    ensures
        parse_cmp_rest_spec(t.take(k), i, left) == parse_cmp_rest_spec(t, i, left),
    decreases t.len() - i, 1int,
{
    lemma_take_index(t, k);
    lemma_cmp_rest_bounds(t, i, left);
    if i < t.len() && cmp_of_token(t[i]) is Some {
        match parse_primary_spec(t, i + 1) {
            Ok((right, j)) => {
                if i + 1 < j <= t.len() {
                    let comp = SpecExpr::Comparison {
                        left: Box::new(left),
                        right: Box::new(right),
                        cmp: cmp_of_token(t[i])->Some_0,
                    };
                    lemma_cmp_rest_bounds(t, j, comp);
                    lemma_take_primary(t, i + 1, k);
                    lemma_take_cmp_rest(t, j, comp, k);
                }
            },
            Err(_) => {},
        }
    }
}

proof fn lemma_take_expression(t: Seq<SpecToken>, i: int, k: int)
    requires
        0 <= i <= t.len(),
        parse_expression_spec(t, i) is Ok,
        0 <= k,
        parse_expression_spec(t, i)->Ok_0.1 <= k <= t.len(),
    ensures
        parse_expression_spec(t.take(k), i) == parse_expression_spec(t, i),
    decreases t.len() - i, 2int,
{
    lemma_take_index(t, k);
    match parse_primary_spec(t, i) {
        Ok((e, j)) => {
            if i < j <= t.len() {
                lemma_cmp_rest_bounds(t, j, e);
                lemma_take_primary(t, i, k);
                lemma_take_cmp_rest(t, j, e, k);
            }
        },
        Err(_) => {},
    }
}

proof fn lemma_take_if(t: Seq<SpecToken>, i: int, k: int)
    requires
        0 <= i <= t.len(),
        parse_if_spec(t, i) is Ok,
        0 <= k,
        parse_if_spec(t, i)->Ok_0.1 <= k <= t.len(),
    ensures
        parse_if_spec(t.take(k), i) == parse_if_spec(t, i),
    decreases t.len() - i, 3int,
{
    lemma_take_index(t, k);
    match parse_expression_spec(t, i) {
        Ok((cond, j)) => {
            lemma_expression_bounds(t, i);
            if i < j <= t.len() {
                if j < t.len() && t[j] is Then {
                    match parse_expression_spec(t, j + 1) {
                        Ok((te, kk)) => {
                            lemma_expression_bounds(t, j + 1);
                            if j + 1 < kk <= t.len() && kk < t.len() && t[kk] is Else {
                                lemma_expression_bounds(t, kk + 1);
                                lemma_take_expression(t, kk + 1, k);
                                lemma_take_expression(t, j + 1, k);
                                lemma_take_expression(t, i, k);
                            }
                        },
                        Err(_) => {},
                    }
                } else if j < t.len() && t[j] is BeginBlock {
                    lemma_block_bounds(t, j + 1, Production::Conditional);
                    lemma_take_block(t, j + 1, Production::Conditional, k);
                    lemma_take_expression(t, i, k);
                }
            }
        },
        Err(_) => {},
    }
}

proof fn lemma_take_block(t: Seq<SpecToken>, i: int, prod: Production, k: int)
    requires
        0 <= i <= t.len(),
        parse_block_spec(t, i, prod) is Ok,
        0 <= k,
        parse_block_spec(t, i, prod)->Ok_0.1 <= k <= t.len(),
    ensures
        parse_block_spec(t.take(k), i, prod) == parse_block_spec(t, i, prod),
    decreases t.len() - i, 5int,
{
    lemma_take_index(t, k);
    lemma_block_bounds(t, i, prod);
    if i < t.len() && !(t[i] is EndBlock) {
        match parse_stmt_spec(t, i) {
            Ok((st, j1)) => {
                if i < j1 <= t.len() {
                    lemma_block_bounds(t, j1, prod);
                    lemma_take_stmt(t, i, k);
                    lemma_take_block(t, j1, prod, k);
                }
            },
            Err(_) => {},
        }
    }
}

proof fn lemma_take_function(t: Seq<SpecToken>, i: int, k: int)
    requires
        0 <= i <= t.len(),
        parse_function_spec(t, i) is Ok,
        0 <= k,
        parse_function_spec(t, i)->Ok_0.1 <= k <= t.len(),
    ensures
        parse_function_spec(t.take(k), i) == parse_function_spec(t, i),
    decreases t.len() - i, 6int,
{
    lemma_take_index(t, k);
    if i + 4 <= t.len() && t[i] is Identifier && t[i + 1] is OpenParen && t[i + 2] is CloseParen
        && t[i + 3] is BeginBlock {
        lemma_block_bounds(t, i + 4, Production::Function);
        lemma_take_block(t, i + 4, Production::Function, k);
    }
}

proof fn lemma_take_stmt(t: Seq<SpecToken>, i: int, k: int)
    requires
        0 <= i <= t.len(),
        parse_stmt_spec(t, i) is Ok,
        0 <= k,
        parse_stmt_spec(t, i)->Ok_0.1 <= k <= t.len(),
    ensures
        parse_stmt_spec(t.take(k), i) == parse_stmt_spec(t, i),
    decreases t.len() - i, 4int,
{
    lemma_take_index(t, k);
    lemma_stmt_bounds(t, i);
    match t[i] {
        SpecToken::FnDeclaration => {
            lemma_function_bounds(t, i + 1);
            lemma_take_function(t, i + 1, k);
        },
        SpecToken::LetDeclaration => {},
        SpecToken::ConstDeclaration => {},
        SpecToken::ReturnFn => {
            match parse_expression_spec(t, i + 1) {
                Ok((e, j1)) => {
                    lemma_expression_bounds(t, i + 1);
                    lemma_take_expression(t, i + 1, k);
                },
                Err(_) => {},
            }
        },
        SpecToken::If => {
            match parse_if_spec(t, i + 1) {
                Ok((e, j1)) => {
                    lemma_if_bounds(t, i + 1);
                    lemma_take_if(t, i + 1, k);
                },
                Err(_) => {},
            }
        },
        _ => {
            match parse_expression_spec(t, i) {
                Ok((e, j1)) => {
                    lemma_expression_bounds(t, i);
                    lemma_take_expression(t, i, k);
                },
                Err(_) => {},
            }
        },
    }
}

/// A block parse that consumes the whole sequence, closing on its final
/// token, turns into an unterminated-block error when that final token is
/// cut away: never another error, never a success.
proof fn lemma_block_drop_end(t: Seq<SpecToken>, i: int, prod: Production)
    requires
        0 <= i <= t.len(),
        parse_block_spec(t, i, prod) is Ok,
        parse_block_spec(t, i, prod)->Ok_0.1 == t.len(),
    ensures
        parse_block_spec(t.take(t.len() - 1), i, prod) == Err::<
            (Seq<SpecStmt>, int),
            SpecParseError,
        >(SpecParseError::UnterminatedBlock { production: prod }),
    decreases t.len() - i,
{
    let n = t.len() as int;
    lemma_block_bounds(t, i, prod);
    lemma_take_index(t, n - 1);
    if t[i] is EndBlock {
        assert(i == n - 1);
    } else {
        match parse_stmt_spec(t, i) {
            Ok((st, j1)) => {
                if i < j1 <= t.len() {
                    lemma_stmt_bounds(t, i);
                    lemma_block_bounds(t, j1, prod);
                    assert(j1 < n) by {
                        if j1 == n {
                            assert(parse_block_spec(t, j1, prod) is Err);
                        }
                    }
                    lemma_take_stmt(t, i, n - 1);
                    lemma_block_drop_end(t, j1, prod);
                }
            },
            Err(_) => {},
        }
    }
}

/// Block matching: a function whose body block parses to the statements
/// `sts`, closing on the final block-end of the token sequence, parses to
/// exactly one function node carrying `sts`; and with that final block-end
/// removed, the parse fails with an unterminated-block error — never a
/// different error and never a successful parse.
pub proof fn lemma_block_matching(
    toks: Seq<SpecToken>,
    name: Seq<char>,
    body: Seq<SpecToken>,
    sts: Seq<SpecStmt>,
)
    requires
        toks == seq![
            SpecToken::FnDeclaration,
            SpecToken::Identifier(name),
            SpecToken::OpenParen,
            SpecToken::CloseParen,
            SpecToken::BeginBlock,
        ] + body + seq![SpecToken::EndBlock],
        parse_block_spec(toks, 5, Production::Function) == Ok::<
            (Seq<SpecStmt>, int),
            SpecParseError,
        >((sts, toks.len() as int)),
    ensures
        parse_spec(toks) == Ok::<Seq<SpecStmt>, SpecParseError>(
            seq![SpecStmt::Function { identifier: name, content: sts }],
        ),
        parse_spec(toks.take(toks.len() - 1)) == Err::<Seq<SpecStmt>, SpecParseError>(
            SpecParseError::UnterminatedBlock { production: Production::Function },
        ),
{
    let n = toks.len() as int;
    assert(n == 6 + body.len());
    assert(toks[0] == SpecToken::FnDeclaration);
    assert(toks[1] == SpecToken::Identifier(name));
    assert(toks[2] == SpecToken::OpenParen);
    assert(toks[3] == SpecToken::CloseParen);
    assert(toks[4] == SpecToken::BeginBlock);
    let node = SpecStmt::Function { identifier: name, content: sts };
    assert(parse_function_spec(toks, 1) == Ok::<(SpecStmt, int), SpecParseError>((node, n)));
    assert(parse_stmt_spec(toks, 0) == Ok::<(SpecStmt, int), SpecParseError>((node, n)));
    assert(parse_stmts_spec(toks, n) == Ok::<Seq<SpecStmt>, SpecParseError>(
        Seq::<SpecStmt>::empty(),
    ));
    assert(seq![node] + Seq::<SpecStmt>::empty() =~= seq![node]);

    let b = toks.take(n - 1);
    lemma_take_index(toks, n - 1);
    lemma_block_drop_end(toks, 5, Production::Function);
    let unterminated = SpecParseError::UnterminatedBlock { production: Production::Function };
    assert(parse_function_spec(b, 1) == Err::<(SpecStmt, int), SpecParseError>(unterminated));
    assert(parse_stmt_spec(b, 0) == Err::<(SpecStmt, int), SpecParseError>(unterminated));
    assert(parse_stmts_spec(b, 0) == Err::<Seq<SpecStmt>, SpecParseError>(unterminated));
}

proof fn lemma_stmts_deep_view_push(l: Seq<ParserToken>, t: ParserToken)
    ensures
        stmts_deep_view(l.push(t)) == stmts_deep_view(l) + seq![t.deep_view()],
    decreases l.len(),
{
    if l.len() == 0 {
        assert(l.push(t).drop_first() =~= Seq::<ParserToken>::empty());
        assert(l.push(t)[0] == t);
        assert(stmts_deep_view(Seq::<ParserToken>::empty()) == Seq::<SpecStmt>::empty());
        assert(stmts_deep_view(l.push(t)) =~= stmts_deep_view(l) + seq![t.deep_view()]);
    } else {
        assert(l.push(t).drop_first() =~= l.drop_first().push(t));
        lemma_stmts_deep_view_push(l.drop_first(), t);
        assert(l.push(t)[0] == l[0]);
        assert(stmts_deep_view(l.push(t)) == seq![l[0].deep_view()] + stmts_deep_view(
            l.drop_first().push(t),
        ));
        assert(stmts_deep_view(l.push(t)) == seq![l[0].deep_view()] + (stmts_deep_view(
            l.drop_first(),
        ) + seq![t.deep_view()]));
        assert(stmts_deep_view(l) == seq![l[0].deep_view()] + stmts_deep_view(l.drop_first()));
        assert(seq![l[0].deep_view()] + (stmts_deep_view(l.drop_first()) + seq![t.deep_view()])
            =~= (seq![l[0].deep_view()] + stmts_deep_view(l.drop_first())) + seq![t.deep_view()]);
    }
}

/// Parsing a block from `i0` has produced `done` and stands at `p`:
/// whatever the rest yields, the whole block yields `done` followed by it.
spec fn block_decomposes(
    toks: Seq<SpecToken>,
    i0: int,
    prod: Production,
    done: Seq<SpecStmt>,
    p: int,
) -> bool {
    match parse_block_spec(toks, p, prod) {
        Ok((rest, m)) => parse_block_spec(toks, i0, prod) == Ok::<
            (Seq<SpecStmt>, int),
            SpecParseError,
        >((done + rest, m)),
        Err(e) => parse_block_spec(toks, i0, prod) == Err::<(Seq<SpecStmt>, int), SpecParseError>(
            e,
        ),
    }
}

proof fn lemma_block_step(
    toks: Seq<SpecToken>,
    i0: int,
    prod: Production,
    done: Seq<SpecStmt>,
    p: int,
    st: SpecStmt,
    j: int,
)
    requires
        0 <= p < toks.len(),
        !(toks[p] is EndBlock),
        parse_stmt_spec(toks, p) == Ok::<(SpecStmt, int), SpecParseError>((st, j)),
        p < j <= toks.len(),
        block_decomposes(toks, i0, prod, done, p),
    ensures
        block_decomposes(toks, i0, prod, done + seq![st], j),
{
    match parse_block_spec(toks, j, prod) {
        Ok((rest, m)) => {
            assert(parse_block_spec(toks, p, prod) == Ok::<(Seq<SpecStmt>, int), SpecParseError>(
                (seq![st] + rest, m),
            ));
            assert(done + (seq![st] + rest) =~= (done + seq![st]) + rest);
        },
        Err(_) => {},
    }
}

/// The same decomposition for the top-level statement list.
spec fn stmts_decomposes(toks: Seq<SpecToken>, i0: int, done: Seq<SpecStmt>, p: int) -> bool {
    match parse_stmts_spec(toks, p) {
        Ok(rest) => parse_stmts_spec(toks, i0) == Ok::<Seq<SpecStmt>, SpecParseError>(done + rest),
        Err(e) => parse_stmts_spec(toks, i0) == Err::<Seq<SpecStmt>, SpecParseError>(e),
    }
}

proof fn lemma_stmts_step(
    toks: Seq<SpecToken>,
    i0: int,
    done: Seq<SpecStmt>,
    p: int,
    st: SpecStmt,
    j: int,
)
    requires
        0 <= p < toks.len(),
        parse_stmt_spec(toks, p) == Ok::<(SpecStmt, int), SpecParseError>((st, j)),
        p < j <= toks.len(),
        stmts_decomposes(toks, i0, done, p),
    ensures
        stmts_decomposes(toks, i0, done + seq![st], j),
{
    match parse_stmts_spec(toks, j) {
        Ok(rest) => {
            assert(parse_stmts_spec(toks, p) == Ok::<Seq<SpecStmt>, SpecParseError>(
                seq![st] + rest,
            ));
            assert(done + (seq![st] + rest) =~= (done + seq![st]) + rest);
        },
        Err(_) => {},
    }
}

/// The parsing cursor: the token sequence being consumed and the current
/// position in it.
pub struct Parser {
    lexer_tokens: Vec<LexerToken>,
    pos: usize,
}

impl Parser {
    /// The model of the token sequence being parsed.
    pub closed spec fn toks(&self) -> Seq<SpecToken> {
        self.lexer_tokens.deep_view()
    }

    /// The current parse position.
    pub closed spec fn position(&self) -> int {
        self.pos as int
    }

    /// The cursor never stands past the end of the token sequence.
    pub closed spec fn wf(&self) -> bool {
        self.pos <= self.lexer_tokens@.len()
    }

    /// A fresh parser over the given token sequence, standing at its start.
    pub fn new(tokens: Vec<LexerToken>) -> (p: Parser)
        ensures
            p.wf(),
            p.toks() == tokens.deep_view(),
            p.position() == 0,
    {
        Parser { lexer_tokens: tokens, pos: 0 }
    }

    /// An owned copy of the token at `i`.
    fn token_at(&self, i: usize) -> (t: LexerToken)
        requires
            i < self.lexer_tokens@.len(),
        ensures
            t.deep_view() == self.toks()[i as int],
    {
        match &self.lexer_tokens[i] {
            LexerToken::FnDeclaration => LexerToken::FnDeclaration,
            LexerToken::Identifier(s) => LexerToken::Identifier(s.clone()),
            LexerToken::LetDeclaration => LexerToken::LetDeclaration,
            LexerToken::ConstDeclaration => LexerToken::ConstDeclaration,
            LexerToken::BeginBlock => LexerToken::BeginBlock,
            LexerToken::EndBlock => LexerToken::EndBlock,
            LexerToken::EndStatement => LexerToken::EndStatement,
            LexerToken::OpenParen => LexerToken::OpenParen,
            LexerToken::CloseParen => LexerToken::CloseParen,
            LexerToken::If => LexerToken::If,
            LexerToken::Then => LexerToken::Then,
            LexerToken::Else => LexerToken::Else,
            LexerToken::Equals => LexerToken::Equals,
            LexerToken::GreaterThan => LexerToken::GreaterThan,
            LexerToken::LessThan => LexerToken::LessThan,
            LexerToken::GreaterEqual => LexerToken::GreaterEqual,
            LexerToken::LessEqual => LexerToken::LessEqual,
            LexerToken::NotEqual => LexerToken::NotEqual,
            LexerToken::ReturnFn => LexerToken::ReturnFn,
            LexerToken::Use => LexerToken::Use,
            LexerToken::StringLiteral(s) => LexerToken::StringLiteral(s.clone()),
            LexerToken::Number(n) => LexerToken::Number(*n),
            LexerToken::Boolean(b) => LexerToken::Boolean(*b),
        }
    }

    /// The error for an unexpected token (or end of input) at position `at`.
    fn err_at(&self, production: Production, at: usize) -> (e: ParseError)
        ensures
            e.deep_view() == unexpected(production, self.toks(), at as int),
    {
        let found = if at < self.lexer_tokens.len() {
            Some(self.token_at(at))
        } else {
            None
        };
        ParseError::UnexpectedToken { production, found }
    }

    /// A variable declaration: exactly the shape binding keyword,
    /// identifier, equals, literal, statement-end.
    fn parse_assignment(&mut self) -> (r: Result<ParserToken, ParseError>)
        requires
            old(self).wf(),
            old(self).pos < old(self).lexer_tokens@.len(),
            old(self).toks()[old(self).pos as int] is LetDeclaration || old(self).toks()[old(
                self,
            ).pos as int] is ConstDeclaration,
        ensures
            final(self).lexer_tokens@ == old(self).lexer_tokens@,
            final(self).wf(),
            match parse_assignment_spec(old(self).toks(), old(self).position()) {
                Ok((st, j)) => r matches Ok(t) && t.deep_view() == st && final(self).position()
                    == j && old(self).position() < j,
                Err(e) => r matches Err(pe) && pe.deep_view() == e,
            },
    {
        let n = self.lexer_tokens.len();
        let i = self.pos;
        if i + 1 >= n {
            return Err(self.err_at(Production::Assignment, i + 1));
        }
        let name = match self.token_at(i + 1) {
            LexerToken::Identifier(name) => name,
            _ => {
                return Err(self.err_at(Production::Assignment, i + 1));
            },
        };
        if i + 2 >= n {
            return Err(self.err_at(Production::Assignment, i + 2));
        }
        match self.token_at(i + 2) {
            LexerToken::Equals => {},
            _ => {
                return Err(self.err_at(Production::Assignment, i + 2));
            },
        }
        if i + 3 >= n {
            return Err(self.err_at(Production::Assignment, i + 3));
        }
        let source = match self.token_at(i + 3) {
            LexerToken::StringLiteral(s) => ExpressionKind::StringLiteral(s),
            LexerToken::Number(v) => ExpressionKind::Number(v),
            LexerToken::Boolean(b) => ExpressionKind::Boolean(b),
            _ => {
                return Err(self.err_at(Production::Assignment, i + 3));
            },
        };
        if i + 4 >= n {
            return Err(self.err_at(Production::Assignment, i + 4));
        }
        match self.token_at(i + 4) {
            LexerToken::EndStatement => {},
            _ => {
                return Err(self.err_at(Production::Assignment, i + 4));
            },
        }
        let assignment_type = match self.token_at(i) {
            LexerToken::LetDeclaration => AssignmentType::Let,
            _ => AssignmentType::Const,
        };
        self.pos = i + 5;
        Ok(ParserToken::Assignment { identifier: name, assignment_type, source })
    }

    /// A primary expression: an identifier, a literal, or a conditional.
    fn parse_primary(&mut self) -> (r: Result<ExpressionKind, ParseError>)
        requires
            old(self).wf(),
        ensures
            final(self).lexer_tokens@ == old(self).lexer_tokens@,
            final(self).wf(),
            match parse_primary_spec(old(self).toks(), old(self).position()) {
                Ok((e, j)) => r matches Ok(v) && v.deep_view() == e && final(self).position() == j
                    && old(self).position() < j,
                Err(e) => r matches Err(pe) && pe.deep_view() == e,
            },
        decreases old(self).lexer_tokens@.len() - old(self).pos, 0int,
    {
        let n = self.lexer_tokens.len();
        if self.pos >= n {
            return Err(self.err_at(Production::Expression, self.pos));
        }
        match self.token_at(self.pos) {
            LexerToken::Identifier(name) => {
                self.pos = self.pos + 1;
                Ok(ExpressionKind::Identifier(name))
            },
            LexerToken::StringLiteral(s) => {
                self.pos = self.pos + 1;
                Ok(ExpressionKind::StringLiteral(s))
            },
            LexerToken::Number(v) => {
                self.pos = self.pos + 1;
                Ok(ExpressionKind::Number(v))
            },
            LexerToken::Boolean(b) => {
                self.pos = self.pos + 1;
                Ok(ExpressionKind::Boolean(b))
            },
            LexerToken::If => {
                self.pos = self.pos + 1;
                self.parse_if()
            },
            _ => Err(self.err_at(Production::Expression, self.pos)),
        }
    }

    /// The comparison operator a token stands for, if any.
    fn cmp_kind(&self, i: usize) -> (r: Option<ComparisonKind>)
        requires
            i < self.lexer_tokens@.len(),
        ensures
            r == cmp_of_token(self.toks()[i as int]),
    {
        match &self.lexer_tokens[i] {
            LexerToken::Equals => Some(ComparisonKind::Equal),
            LexerToken::GreaterThan => Some(ComparisonKind::GreaterThan),
            LexerToken::GreaterEqual => Some(ComparisonKind::GreaterEqualThan),
            LexerToken::LessThan => Some(ComparisonKind::LessThan),
            LexerToken::LessEqual => Some(ComparisonKind::LessEqualThan),
            LexerToken::NotEqual => Some(ComparisonKind::NotEqual),
            _ => None,
        }
    }

    /// A full expression: a primary expression and the left-associative
    /// chain of comparisons that continues it.
    #[verifier::loop_isolation(false)]
    fn parse_expression(&mut self) -> (r: Result<ExpressionKind, ParseError>)
        requires
            old(self).wf(),
        ensures
            final(self).lexer_tokens@ == old(self).lexer_tokens@,
            final(self).wf(),
            match parse_expression_spec(old(self).toks(), old(self).position()) {
                Ok((e, j)) => r matches Ok(v) && v.deep_view() == e && final(self).position() == j
                    && old(self).position() < j,
                Err(e) => r matches Err(pe) && pe.deep_view() == e,
            },
        decreases old(self).lexer_tokens@.len() - old(self).pos, 2int,
    {
        let ghost toks = self.toks();
        let ghost i0 = self.pos as int;
        let mut acc = match self.parse_primary() {
            Ok(e) => e,
            Err(e) => {
                return Err(e);
            },
        };
        let n = self.lexer_tokens.len();
        loop
            invariant
                self.lexer_tokens@ == old(self).lexer_tokens@,
                i0 < self.pos as int <= self.lexer_tokens@.len(),
                parse_cmp_rest_spec(toks, self.pos as int, acc.deep_view())
                    == parse_expression_spec(toks, i0),
            decreases self.lexer_tokens@.len() - self.pos,
        {
            if self.pos >= n {
                break;
            }
            let op = match self.cmp_kind(self.pos) {
                Some(op) => op,
                None => {
                    break;
                },
            };
            self.pos = self.pos + 1;
            let rhs = match self.parse_primary() {
                Ok(e) => e,
                Err(e) => {
                    return Err(e);
                },
            };
            let prev = acc;
            acc = ExpressionKind::Comparison {
                left: Box::new(prev),
                right: Box::new(rhs),
                cmp: op,
            };
        }
        Ok(acc)
    }

    /// A conditional, the `if` keyword already consumed; the keyword after
    /// the condition picks the shorthand or the block form.
    fn parse_if(&mut self) -> (r: Result<ExpressionKind, ParseError>)
        requires
            old(self).wf(),
        ensures
            final(self).lexer_tokens@ == old(self).lexer_tokens@,
            final(self).wf(),
            match parse_if_spec(old(self).toks(), old(self).position()) {
                Ok((e, j)) => r matches Ok(v) && v.deep_view() == e && final(self).position() == j
                    && old(self).position() < j,
                Err(e) => r matches Err(pe) && pe.deep_view() == e,
            },
        decreases old(self).lexer_tokens@.len() - old(self).pos, 3int,
    {
        let cond = match self.parse_expression() {
            Ok(e) => e,
            Err(e) => {
                return Err(e);
            },
        };
        let n = self.lexer_tokens.len();
        if self.pos < n {
            match self.token_at(self.pos) {
                LexerToken::Then => {
                    self.pos = self.pos + 1;
                    let te = match self.parse_expression() {
                        Ok(e) => e,
                        Err(e) => {
                            return Err(e);
                        },
                    };
                    if self.pos < n {
                        match self.token_at(self.pos) {
                            LexerToken::Else => {
                                self.pos = self.pos + 1;
                                let ee = match self.parse_expression() {
                                    Ok(e) => e,
                                    Err(e) => {
                                        return Err(e);
                                    },
                                };
                                return Ok(ExpressionKind::IfShorthand {
                                    cond: Box::new(cond),
                                    then_expr: Box::new(te),
                                    otherwise: Box::new(ee),
                                });
                            },
                            _ => {
                                return Err(self.err_at(Production::Conditional, self.pos));
                            },
                        }
                    }
                    return Err(self.err_at(Production::Conditional, self.pos));
                },
                LexerToken::BeginBlock => {
                    self.pos = self.pos + 1;
                    let body = match self.parse_func_body(Production::Conditional) {
                        Ok(b) => b,
                        Err(e) => {
                            return Err(e);
                        },
                    };
                    return Ok(ExpressionKind::IfCondition {
                        cond: Box::new(cond),
                        then_block: body,
                    });
                },
                _ => {
                    return Err(self.err_at(Production::Conditional, self.pos));
                },
            }
        }
        Err(self.err_at(Production::Conditional, self.pos))
    }

    /// A function declaration, the `fn` keyword already consumed: a name,
    /// an empty parameter list, and a block body.
    fn parse_function(&mut self) -> (r: Result<ParserToken, ParseError>)
        requires
            old(self).wf(),
        ensures
            final(self).lexer_tokens@ == old(self).lexer_tokens@,
            final(self).wf(),
            match parse_function_spec(old(self).toks(), old(self).position()) {
                Ok((st, j)) => r matches Ok(t) && t.deep_view() == st && final(self).position()
                    == j && old(self).position() < j,
                Err(e) => r matches Err(pe) && pe.deep_view() == e,
            },
        decreases old(self).lexer_tokens@.len() - old(self).pos, 6int,
    {
        let n = self.lexer_tokens.len();
        let i = self.pos;
        if i >= n {
            return Err(self.err_at(Production::Function, i));
        }
        let name = match self.token_at(i) {
            LexerToken::Identifier(name) => name,
            _ => {
                return Err(self.err_at(Production::Function, i));
            },
        };
        if i + 1 >= n {
            return Err(self.err_at(Production::Function, i + 1));
        }
        match self.token_at(i + 1) {
            LexerToken::OpenParen => {},
            _ => {
                return Err(self.err_at(Production::Function, i + 1));
            },
        }
        if i + 2 >= n {
            return Err(self.err_at(Production::Function, i + 2));
        }
        match self.token_at(i + 2) {
            LexerToken::CloseParen => {},
            _ => {
                return Err(self.err_at(Production::Function, i + 2));
            },
        }
        if i + 3 >= n {
            return Err(self.err_at(Production::Function, i + 3));
        }
        match self.token_at(i + 3) {
            LexerToken::BeginBlock => {},
            _ => {
                return Err(self.err_at(Production::Function, i + 3));
            },
        }
        self.pos = i + 4;
        let content = match self.parse_func_body(Production::Function) {
            Ok(b) => b,
            Err(e) => {
                return Err(e);
            },
        };
        Ok(ParserToken::Function { identifier: name, content })
    }

    /// The statements of a block, up to and past the matching block-end
    /// token; running out of tokens first is an unterminated block.
    #[verifier::loop_isolation(false)]
    fn parse_func_body(&mut self, prod: Production) -> (r: Result<Vec<ParserToken>, ParseError>)
        requires
            old(self).wf(),
        ensures
            final(self).lexer_tokens@ == old(self).lexer_tokens@,
            final(self).wf(),
            match parse_block_spec(old(self).toks(), old(self).position(), prod) {
                Ok((sts, m)) => r matches Ok(v) && stmts_deep_view(v@) == sts
                    && final(self).position() == m && old(self).position() < m,
                Err(e) => r matches Err(pe) && pe.deep_view() == e,
            },
        decreases old(self).lexer_tokens@.len() - old(self).pos, 7int,
    {
        let ghost toks = self.toks();
        let ghost i0 = self.pos as int;
        let n = self.lexer_tokens.len();
        let mut out: Vec<ParserToken> = Vec::new();
        proof {
            match parse_block_spec(toks, i0, prod) {
                Ok((rest, m)) => {
                    assert(Seq::<SpecStmt>::empty() + rest =~= rest);
                },
                Err(_) => {},
            }
        }
        loop
            invariant
                self.lexer_tokens@ == old(self).lexer_tokens@,
                i0 <= self.pos as int <= self.lexer_tokens@.len(),
                block_decomposes(toks, i0, prod, stmts_deep_view(out@), self.pos as int),
            decreases self.lexer_tokens@.len() - self.pos,
        {
            if self.pos >= n {
                return Err(ParseError::UnterminatedBlock { production: prod });
            }
            let ghost p = self.pos as int;
            match self.token_at(self.pos) {
                LexerToken::EndBlock => {
                    self.pos = self.pos + 1;
                    proof {
                        assert(stmts_deep_view(out@) + Seq::<SpecStmt>::empty() =~= stmts_deep_view(
                            out@,
                        ));
                    }
                    return Ok(out);
                },
                _ => {},
            }
            let ghost done = stmts_deep_view(out@);
            match self.parse_token() {
                Ok(node) => {
                    let ghost old_out = out@;
                    let ghost gnode = node;
                    out.push(node);
                    proof {
                        lemma_stmts_deep_view_push(old_out, gnode);
                        lemma_block_step(
                            toks,
                            i0,
                            prod,
                            done,
                            p,
                            gnode.deep_view(),
                            self.pos as int,
                        );
                    }
                },
                Err(e) => {
                    return Err(e);
                },
            }
        }
    }

    /// One statement: the current token picks the production.
    fn parse_token(&mut self) -> (r: Result<ParserToken, ParseError>)
        requires
            old(self).wf(),
            old(self).pos < old(self).lexer_tokens@.len(),
        ensures
            final(self).lexer_tokens@ == old(self).lexer_tokens@,
            final(self).wf(),
            match parse_stmt_spec(old(self).toks(), old(self).position()) {
                Ok((st, j)) => r matches Ok(t) && t.deep_view() == st && final(self).position()
                    == j && old(self).position() < j,
                Err(e) => r matches Err(pe) && pe.deep_view() == e,
            },
        decreases old(self).lexer_tokens@.len() - old(self).pos, 4int,
    {
        let n = self.lexer_tokens.len();
        match self.token_at(self.pos) {
            LexerToken::FnDeclaration => {
                self.pos = self.pos + 1;
                self.parse_function()
            },
            LexerToken::LetDeclaration => self.parse_assignment(),
            LexerToken::ConstDeclaration => self.parse_assignment(),
            LexerToken::ReturnFn => {
                self.pos = self.pos + 1;
                let e = match self.parse_expression() {
                    Ok(e) => e,
                    Err(e) => {
                        return Err(e);
                    },
                };
                if self.pos < n {
                    match self.token_at(self.pos) {
                        LexerToken::EndStatement => {
                            self.pos = self.pos + 1;
                            return Ok(ParserToken::Return(e));
                        },
                        _ => {},
                    }
                }
                Err(self.err_at(Production::ReturnStatement, self.pos))
            },
            LexerToken::If => {
                self.pos = self.pos + 1;
                let e = match self.parse_if() {
                    Ok(e) => e,
                    Err(e) => {
                        return Err(e);
                    },
                };
                let is_block_form = matches!(e, ExpressionKind::IfCondition { .. });
                if is_block_form {
                    return Ok(ParserToken::Expr(e));
                }
                if self.pos < n {
                    match self.token_at(self.pos) {
                        LexerToken::EndStatement => {
                            self.pos = self.pos + 1;
                            return Ok(ParserToken::Expr(e));
                        },
                        _ => {},
                    }
                }
                Err(self.err_at(Production::Statement, self.pos))
            },
            _ => {
                let e = match self.parse_expression() {
                    Ok(e) => e,
                    Err(e) => {
                        return Err(e);
                    },
                };
                if self.pos < n {
                    match self.token_at(self.pos) {
                        LexerToken::EndStatement => {
                            self.pos = self.pos + 1;
                            return Ok(ParserToken::Expr(e));
                        },
                        _ => {},
                    }
                }
                Err(self.err_at(Production::Statement, self.pos))
            },
        }
    }

    /// The whole token sequence as a list of top-level statements; the
    /// first token that fits no production aborts the parse.
    #[verifier::loop_isolation(false)]
    pub fn parse(&mut self) -> (r: Result<Vec<ParserToken>, ParseError>)
        requires
            old(self).wf(),
        ensures
            match parse_stmts_spec(old(self).toks(), old(self).position()) {
                Ok(sts) => r matches Ok(v) && stmts_deep_view(v@) == sts,
                Err(e) => r matches Err(pe) && pe.deep_view() == e,
            },
    {
        let ghost toks = self.toks();
        let ghost i0 = self.pos as int;
        let n = self.lexer_tokens.len();
        let mut out: Vec<ParserToken> = Vec::new();
        proof {
            match parse_stmts_spec(toks, i0) {
                Ok(rest) => {
                    assert(Seq::<SpecStmt>::empty() + rest =~= rest);
                },
                Err(_) => {},
            }
        }
        loop
            invariant
                self.lexer_tokens@ == old(self).lexer_tokens@,
                i0 <= self.pos as int <= self.lexer_tokens@.len(),
                stmts_decomposes(toks, i0, stmts_deep_view(out@), self.pos as int),
            decreases self.lexer_tokens@.len() - self.pos,
        {
            if self.pos >= n {
                return Ok(out);
            }
            let ghost p = self.pos as int;
            let ghost done = stmts_deep_view(out@);
            match self.parse_token() {
                Ok(node) => {
                    let ghost old_out = out@;
                    let ghost gnode = node;
                    out.push(node);
                    proof {
                        lemma_stmts_deep_view_push(old_out, gnode);
                        lemma_stmts_step(toks, i0, done, p, gnode.deep_view(), self.pos as int);
                    }
                },
                Err(e) => {
                    return Err(e);
                },
            }
        }
    }
}

} // verus!
