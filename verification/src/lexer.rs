//! Tokenizer: scans source text into a sequence of `LexerToken`s, or fails
//! with a `LexError` naming the offending character and its offset.
use vstd::prelude::*;

verus! {

/// A lexical token. `Identifier`, `StringLiteral`, `Number` and `Boolean`
/// carry the scanned value; the other variants are markers.
#[derive(Debug, Clone, PartialEq, Eq)]
pub enum LexerToken {
    FnDeclaration,
    Identifier(String),
    LetDeclaration,
    ConstDeclaration,
    BeginBlock,
    EndBlock,
    EndStatement,
    OpenParen,
    CloseParen,
    If,
    Then,
    Else,
    Equals,
    GreaterThan,
    LessThan,
    GreaterEqual,
    LessEqual,
    NotEqual,
    ReturnFn,
    Use,
    StringLiteral(String),
    Number(u128),
    Boolean(bool),
}

/// The mathematical model of a token: identical to `LexerToken`, with
/// character sequences in place of heap-allocated strings.
pub enum SpecToken {
    FnDeclaration,
    Identifier(Seq<char>),
    LetDeclaration,
    ConstDeclaration,
    BeginBlock,
    EndBlock,
    EndStatement,
    OpenParen,
    CloseParen,
    If,
    Then,
    Else,
    Equals,
    GreaterThan,
    LessThan,
    GreaterEqual,
    LessEqual,
    NotEqual,
    ReturnFn,
    Use,
    StringLiteral(Seq<char>),
    Number(u128),
    Boolean(bool),
}

impl DeepView for LexerToken {
    type V = SpecToken;

    open spec fn deep_view(&self) -> SpecToken {
        match self {
            LexerToken::FnDeclaration => SpecToken::FnDeclaration,
            LexerToken::Identifier(s) => SpecToken::Identifier(s@),
            LexerToken::LetDeclaration => SpecToken::LetDeclaration,
            LexerToken::ConstDeclaration => SpecToken::ConstDeclaration,
            LexerToken::BeginBlock => SpecToken::BeginBlock,
            LexerToken::EndBlock => SpecToken::EndBlock,
            LexerToken::EndStatement => SpecToken::EndStatement,
            LexerToken::OpenParen => SpecToken::OpenParen,
            LexerToken::CloseParen => SpecToken::CloseParen,
            LexerToken::If => SpecToken::If,
            LexerToken::Then => SpecToken::Then,
            LexerToken::Else => SpecToken::Else,
            LexerToken::Equals => SpecToken::Equals,
            LexerToken::GreaterThan => SpecToken::GreaterThan,
            LexerToken::LessThan => SpecToken::LessThan,
            LexerToken::GreaterEqual => SpecToken::GreaterEqual,
            LexerToken::LessEqual => SpecToken::LessEqual,
            LexerToken::NotEqual => SpecToken::NotEqual,
            LexerToken::ReturnFn => SpecToken::ReturnFn,
            LexerToken::Use => SpecToken::Use,
            LexerToken::StringLiteral(s) => SpecToken::StringLiteral(s@),
            LexerToken::Number(n) => SpecToken::Number(*n),
            LexerToken::Boolean(b) => SpecToken::Boolean(*b),
        }
    }
}

/// Classification of a scanned name: the reserved words each map to their
/// keyword token, `true`/`false` to boolean literals, anything else to an
/// identifier carrying the name.
pub open spec fn keyword_or_ident(name: Seq<char>) -> SpecToken {
    if name == seq!['i', 'f'] {
        SpecToken::If
    } else if name == seq!['f', 'n'] {
        SpecToken::FnDeclaration
    } else if name == seq!['l', 'e', 't'] {
        SpecToken::LetDeclaration
    } else if name == seq!['c', 'o', 'n', 's', 't'] {
        SpecToken::ConstDeclaration
    } else if name == seq!['t', 'h', 'e', 'n'] {
        SpecToken::Then
    } else if name == seq!['e', 'l', 's', 'e'] {
        SpecToken::Else
    } else if name == seq!['r', 'e', 't', 'u', 'r', 'n'] {
        SpecToken::ReturnFn
    } else if name == seq!['u', 's', 'e'] {
        SpecToken::Use
    } else if name == seq!['t', 'r', 'u', 'e'] {
        SpecToken::Boolean(true)
    } else if name == seq!['f', 'a', 'l', 's', 'e'] {
        SpecToken::Boolean(false)
    } else {
        SpecToken::Identifier(name)
    }
}

/// Whether a character beyond the ASCII range has the Unicode White_Space
/// property; what `char::is_whitespace` returns there.
pub uninterp spec fn unicode_whitespace(c: char) -> bool;

/// Whether a character beyond the ASCII range is in a Unicode number
/// category; what `char::is_numeric` returns there.
pub uninterp spec fn unicode_numeric(c: char) -> bool;

/// Whether a character beyond the ASCII range is in XID_Start; what
/// `unicode_xid`'s `is_xid_start` returns there.
pub uninterp spec fn unicode_xid_start(c: char) -> bool;

/// Whether a character beyond the ASCII range is in XID_Continue; what
/// `unicode_xid`'s `is_xid_continue` returns there.
pub uninterp spec fn unicode_xid_continue(c: char) -> bool;

pub open spec fn is_ascii_digit_char(c: char) -> bool {
    48 <= c as u32 && c as u32 <= 57
}

pub open spec fn is_ascii_alpha_char(c: char) -> bool {
    (65 <= c as u32 && c as u32 <= 90) || (97 <= c as u32 && c as u32 <= 122)
}

/// Unicode whitespace. In the ASCII range the White_Space characters are
/// space and U+0009..U+000D.
pub open spec fn is_ws_char(c: char) -> bool {
    if (c as u32) < 128 {
        c == ' ' || (9 <= c as u32 && c as u32 <= 13)
    } else {
        unicode_whitespace(c)
    }
}

/// Unicode numeric characters (categories Nd, Nl, No); in the ASCII range,
/// exactly the decimal digits.
pub open spec fn is_numeric_char(c: char) -> bool {
    if (c as u32) < 128 {
        is_ascii_digit_char(c)
    } else {
        unicode_numeric(c)
    }
}

/// Identifier-start characters (XID_Start); in the ASCII range, exactly the
/// letters.
pub open spec fn is_xid_start_char(c: char) -> bool {
    if (c as u32) < 128 {
        is_ascii_alpha_char(c)
    } else {
        unicode_xid_start(c)
    }
}

/// Identifier-continue characters (XID_Continue); in the ASCII range, the
/// letters, the digits and the underscore.
pub open spec fn is_xid_continue_char(c: char) -> bool {
    if (c as u32) < 128 {
        is_ascii_alpha_char(c) || is_ascii_digit_char(c) || c == '_'
    } else {
        unicode_xid_continue(c)
    }
}

/// Relies on char::is_whitespace: true exactly on characters with the
/// Unicode White_Space property; in the ASCII range those are space and
/// U+0009..U+000D.
#[verifier::external_body]
fn char_is_whitespace(c: char) -> (r: bool)
    ensures
        r == is_ws_char(c),
        (c as u32) >= 128 ==> r == unicode_whitespace(c),
{
    c.is_whitespace()
}

/// Relies on char::is_numeric: true exactly on characters in the Unicode
/// number categories Nd, Nl and No; in the ASCII range those are '0'..='9'.
#[verifier::external_body]
fn char_is_numeric(c: char) -> (r: bool)
    ensures
        r == is_numeric_char(c),
        (c as u32) >= 128 ==> r == unicode_numeric(c),
{
    c.is_numeric()
}

/// Relies on unicode_xid's UnicodeXID::is_xid_start: true exactly on
/// XID_Start characters; the ASCII rows of its table are 'A'..='Z' and
/// 'a'..='z'.
#[verifier::external_body]
fn char_is_xid_start(c: char) -> (r: bool)
    ensures
        r == is_xid_start_char(c),
        (c as u32) >= 128 ==> r == unicode_xid_start(c),
{
    unicode_xid::UnicodeXID::is_xid_start(c)
}

/// Relies on unicode_xid's UnicodeXID::is_xid_continue: true exactly on
/// XID_Continue characters; the ASCII rows of its table are '0'..='9',
/// 'A'..='Z', '_' and 'a'..='z'.
#[verifier::external_body]
fn char_is_xid_continue(c: char) -> (r: bool)
    ensures
        r == is_xid_continue_char(c),
        (c as u32) >= 128 ==> r == unicode_xid_continue(c),
{
    unicode_xid::UnicodeXID::is_xid_continue(c)
}

/// Relies on String's FromIterator over char: collecting characters yields
/// the string of exactly those characters in order.
#[verifier::external_body]
fn chars_to_string(cs: &Vec<char>) -> (r: String)
    ensures
        r@ == cs@,
{
    cs.iter().collect()
}

/// Character-by-character string comparison, so that equality of the views
/// is available to the verifier.
#[verifier::loop_isolation(false)]
fn str_eq(a: &str, b: &str) -> (r: bool)
    ensures
        r == (a@ == b@),
{
    let na = a.unicode_len();
    let nb = b.unicode_len();
    if na != nb {
        return false;
    }
    let mut i: usize = 0;
    while i < na
        invariant
            na == a@.len(),
            na == b@.len(),
            i <= na,
            forall|k: int| 0 <= k < i ==> a@[k] == b@[k],
        decreases na - i,
    {
        if a.get_char(i) != b.get_char(i) {
            return false;
        }
        i += 1;
    }
    proof {
        assert(a@ =~= b@);
    }
    true
}

impl LexerToken {
    /// Classify a scanned name as a keyword, a boolean literal or an
    /// identifier.
    pub fn from_string(input: &str) -> (r: LexerToken)
        ensures
            r.deep_view() == keyword_or_ident(input@),
    {
        proof {
            reveal_strlit("if");
            reveal_strlit("fn");
            reveal_strlit("let");
            reveal_strlit("const");
            reveal_strlit("then");
            reveal_strlit("else");
            reveal_strlit("return");
            reveal_strlit("use");
            reveal_strlit("true");
            reveal_strlit("false");
            assert("if"@ =~= seq!['i', 'f']);
            assert("fn"@ =~= seq!['f', 'n']);
            assert("let"@ =~= seq!['l', 'e', 't']);
            assert("const"@ =~= seq!['c', 'o', 'n', 's', 't']);
            assert("then"@ =~= seq!['t', 'h', 'e', 'n']);
            assert("else"@ =~= seq!['e', 'l', 's', 'e']);
            assert("return"@ =~= seq!['r', 'e', 't', 'u', 'r', 'n']);
            assert("use"@ =~= seq!['u', 's', 'e']);
            assert("true"@ =~= seq!['t', 'r', 'u', 'e']);
            assert("false"@ =~= seq!['f', 'a', 'l', 's', 'e']);
        }
        if str_eq(input, "if") {
            LexerToken::If
        } else if str_eq(input, "fn") {
            LexerToken::FnDeclaration
        } else if str_eq(input, "let") {
            LexerToken::LetDeclaration
        } else if str_eq(input, "const") {
            LexerToken::ConstDeclaration
        } else if str_eq(input, "then") {
            LexerToken::Then
        } else if str_eq(input, "else") {
            LexerToken::Else
        } else if str_eq(input, "return") {
            LexerToken::ReturnFn
        } else if str_eq(input, "use") {
            LexerToken::Use
        } else if str_eq(input, "true") {
            LexerToken::Boolean(true)
        } else if str_eq(input, "false") {
            LexerToken::Boolean(false)
        } else {
            LexerToken::Identifier(input.to_owned())
        }
    }
}

/// What went wrong during scanning.
#[derive(Debug, Clone, Copy, PartialEq, Eq)]
pub enum LexErrorKind {
    /// A character that starts no token.
    UnexpectedChar(char),
    /// A numeric character inside a number literal that is not a decimal
    /// digit, so the literal has no decimal value.
    InvalidDigit(char),
    /// A number literal whose decimal value exceeds the largest unsigned
    /// 128-bit integer.
    NumberOverflow,
    /// End of input inside a string literal.
    UnterminatedString,
    /// A backslash escape other than the delimiter, a backslash or `n`.
    InvalidEscape(char),
}

/// A scanning failure: the kind of fault and the character offset at which
/// it was found (for an unterminated string, the offset of the opening
/// delimiter; for an overflowing number, the offset of its first digit).
#[derive(Debug, Clone, Copy, PartialEq, Eq)]
pub struct LexError {
    pub kind: LexErrorKind,
    pub offset: usize,
}

/// First position at or after `i` whose character is not whitespace.
pub open spec fn skip_ws(s: Seq<char>, i: int) -> int
    decreases s.len() - i
        when 0 <= i <= s.len()
{
    if i < s.len() && is_ws_char(s[i]) {
        skip_ws(s, i + 1)
    } else {
        i
    }
}

/// First position at or after `i` whose character is not identifier-continue.
pub open spec fn xid_run_end(s: Seq<char>, i: int) -> int
    decreases s.len() - i
        when 0 <= i <= s.len()
{
    if i < s.len() && is_xid_continue_char(s[i]) {
        xid_run_end(s, i + 1)
    } else {
        i
    }
}

/// First position at or after `i` whose character is not numeric.
pub open spec fn num_run_end(s: Seq<char>, i: int) -> int
    decreases s.len() - i
        when 0 <= i <= s.len()
{
    if i < s.len() && is_numeric_char(s[i]) {
        num_run_end(s, i + 1)
    } else {
        i
    }
}

/// First position at or after `i` whose character is not a decimal digit.
pub open spec fn digit_run_end(s: Seq<char>, i: int) -> int
    decreases s.len() - i
        when 0 <= i <= s.len()
{
    if i < s.len() && is_ascii_digit_char(s[i]) {
        digit_run_end(s, i + 1)
    } else {
        i
    }
}

pub proof fn lemma_skip_ws(s: Seq<char>, i: int)
    requires
        0 <= i <= s.len(),
    ensures
        i <= skip_ws(s, i) <= s.len(),
        forall|k: int| i <= k < skip_ws(s, i) ==> is_ws_char(s[k]),
        skip_ws(s, i) < s.len() ==> !is_ws_char(s[skip_ws(s, i)]),
    decreases s.len() - i,
{
    if i < s.len() && is_ws_char(s[i]) {
        lemma_skip_ws(s, i + 1);
    }
}

pub proof fn lemma_xid_run_end(s: Seq<char>, i: int)
    requires
        0 <= i <= s.len(),
    ensures
        i <= xid_run_end(s, i) <= s.len(),
        forall|k: int| i <= k < xid_run_end(s, i) ==> is_xid_continue_char(s[k]),
        xid_run_end(s, i) < s.len() ==> !is_xid_continue_char(s[xid_run_end(s, i)]),
    decreases s.len() - i,
{
    if i < s.len() && is_xid_continue_char(s[i]) {
        lemma_xid_run_end(s, i + 1);
    }
}

pub proof fn lemma_num_run_end(s: Seq<char>, i: int)
    requires
        0 <= i <= s.len(),
    ensures
        i <= num_run_end(s, i) <= s.len(),
        forall|k: int| i <= k < num_run_end(s, i) ==> is_numeric_char(s[k]),
        num_run_end(s, i) < s.len() ==> !is_numeric_char(s[num_run_end(s, i)]),
    decreases s.len() - i,
{
    if i < s.len() && is_numeric_char(s[i]) {
        lemma_num_run_end(s, i + 1);
    }
}

pub proof fn lemma_digit_run_end(s: Seq<char>, i: int)
    requires
        0 <= i <= s.len(),
    ensures
        i <= digit_run_end(s, i) <= s.len(),
        forall|k: int| i <= k < digit_run_end(s, i) ==> is_ascii_digit_char(s[k]),
        digit_run_end(s, i) < s.len() ==> !is_ascii_digit_char(s[digit_run_end(s, i)]),
    decreases s.len() - i,
{
    if i < s.len() && is_ascii_digit_char(s[i]) {
        lemma_digit_run_end(s, i + 1);
    }
}

/// The numeric value of a digit character; zero for anything that is not a
/// decimal digit.
pub open spec fn digit_val(c: char) -> nat {
    if is_ascii_digit_char(c) {
        (c as u32 - 48) as nat
    } else {
        0
    }
}

/// The decimal value of a digit string.
pub open spec fn digits_val(s: Seq<char>) -> nat
    decreases s.len(),
{
    if s.len() == 0 {
        0
    } else {
        digits_val(s.drop_last()) * 10 + digit_val(s.last())
    }
}

/// Scan the inside of a string literal from `i` (just past the opening
/// delimiter at `start`) to the closing delimiter, resolving escapes.
pub open spec fn scan_string(s: Seq<char>, i: int, start: int) -> Result<(Seq<char>, int), LexError>
    decreases s.len() - i
        when 0 <= i <= s.len()
{
    if i >= s.len() {
        Err(LexError { kind: LexErrorKind::UnterminatedString, offset: start as usize })
    } else if s[i] == '"' {
        Ok((Seq::<char>::empty(), i + 1))
    } else if s[i] == '\\' {
        if i + 1 >= s.len() {
            Err(LexError { kind: LexErrorKind::UnterminatedString, offset: start as usize })
        } else if s[i + 1] == '"' || s[i + 1] == '\\' || s[i + 1] == 'n' {
            match scan_string(s, i + 2, start) {
                Ok((t, j)) => Ok((seq![if s[i + 1] == 'n' { '\n' } else { s[i + 1] }] + t, j)),
                Err(e) => Err(e),
            }
        } else {
            Err(LexError { kind: LexErrorKind::InvalidEscape(s[i + 1]), offset: (i + 1) as usize })
        }
    } else {
        match scan_string(s, i + 1, start) {
            Ok((t, j)) => Ok((seq![s[i]] + t, j)),
            Err(e) => Err(e),
        }
    }
}

pub proof fn lemma_scan_string_bounds(s: Seq<char>, i: int, start: int)
    requires
        0 <= i <= s.len(),
    ensures
        scan_string(s, i, start) matches Ok((t, j)) ==> i < j <= s.len(),
    decreases s.len() - i,
{
    if i < s.len() && s[i] != '"' {
        if s[i] == '\\' {
            if i + 1 < s.len() {
                lemma_scan_string_bounds(s, i + 2, start);
            }
        } else {
            lemma_scan_string_bounds(s, i + 1, start);
        }
    }
}

/// Scan one token at position `i`, which must not be whitespace. Yields the
/// token and the position just past it, or the scanning error.
pub open spec fn scan_token(s: Seq<char>, i: int) -> Result<(SpecToken, int), LexError>
    recommends
        0 <= i < s.len(),
{
    let c = s[i];
    if c == ';' {
        Ok((SpecToken::EndStatement, i + 1))
    } else if c == '{' {
        Ok((SpecToken::BeginBlock, i + 1))
    } else if c == '}' {
        Ok((SpecToken::EndBlock, i + 1))
    } else if c == '(' {
        Ok((SpecToken::OpenParen, i + 1))
    } else if c == ')' {
        Ok((SpecToken::CloseParen, i + 1))
    } else if c == '=' {
        Ok((SpecToken::Equals, i + 1))
    } else if c == '>' {
        if i + 1 < s.len() && s[i + 1] == '=' {
            Ok((SpecToken::GreaterEqual, i + 2))
        } else {
            Ok((SpecToken::GreaterThan, i + 1))
        }
    } else if c == '<' {
        if i + 1 < s.len() && s[i + 1] == '=' {
            Ok((SpecToken::LessEqual, i + 2))
        } else {
            Ok((SpecToken::LessThan, i + 1))
        }
    } else if c == '!' {
        if i + 1 < s.len() && s[i + 1] == '=' {
            Ok((SpecToken::NotEqual, i + 2))
        } else {
            Err(LexError { kind: LexErrorKind::UnexpectedChar('!'), offset: i as usize })
        }
    } else if c == '"' {
        match scan_string(s, i + 1, i) {
            Ok((t, j)) => Ok((SpecToken::StringLiteral(t), j)),
            Err(e) => Err(e),
        }
    } else if is_numeric_char(c) {
        let j = num_run_end(s, i + 1);
        let k = digit_run_end(s, i);
        if k < j {
            Err(LexError { kind: LexErrorKind::InvalidDigit(s[k]), offset: k as usize })
        } else if digits_val(s.subrange(i, j)) > u128::MAX {
            Err(LexError { kind: LexErrorKind::NumberOverflow, offset: i as usize })
        } else {
            Ok((SpecToken::Number(digits_val(s.subrange(i, j)) as u128), j))
        }
    } else if is_xid_start_char(c) {
        Ok((keyword_or_ident(s.subrange(i, xid_run_end(s, i + 1))), xid_run_end(s, i + 1)))
    } else {
        Err(LexError { kind: LexErrorKind::UnexpectedChar(c), offset: i as usize })
    }
}

pub proof fn lemma_scan_token_bounds(s: Seq<char>, i: int)
    requires
        0 <= i < s.len(),
    ensures
        scan_token(s, i) matches Ok((t, j)) ==> i < j <= s.len(),
{
    lemma_num_run_end(s, i + 1);
    lemma_xid_run_end(s, i + 1);
    lemma_scan_string_bounds(s, i + 1, i);
}

/// The token sequence of the text from position `i` on: whitespace is
/// skipped, then one token is scanned and the rest follows, until the end of
/// the text or the first scanning error.
pub open spec fn lex_from(s: Seq<char>, i: int) -> Result<Seq<SpecToken>, LexError>
    decreases s.len() - i
        when 0 <= i <= s.len()
        via lex_from_decreases
{
    let k = skip_ws(s, i);
    if k >= s.len() {
        Ok(Seq::<SpecToken>::empty())
    } else {
        match scan_token(s, k) {
            Err(e) => Err(e),
            Ok((t, j)) => match lex_from(s, j) {
                Ok(rest) => Ok(seq![t] + rest),
                Err(e) => Err(e),
            },
        }
    }
}

#[via_fn]
proof fn lex_from_decreases(s: Seq<char>, i: int) {
    lemma_skip_ws(s, i);
    if skip_ws(s, i) < s.len() {
        lemma_scan_token_bounds(s, skip_ws(s, i));
    }
}

/// The tokens of a whole text: the contract of the tokenizer.
pub open spec fn lex_spec(s: Seq<char>) -> Result<Seq<SpecToken>, LexError> {
    lex_from(s, 0)
}

/// Tokenizing is deterministic: the token sequence is a function of the
/// text alone, so two scans of the same text agree exactly.
pub proof fn lemma_lex_deterministic(
    s: Seq<char>,
    r1: Result<Seq<SpecToken>, LexError>,
    r2: Result<Seq<SpecToken>, LexError>,
)
    requires
        r1 == lex_spec(s),
        r2 == lex_spec(s),
    ensures
        r1 == r2,
{
}

proof fn lemma_xid_run_full(s: Seq<char>, i: int)
    requires
        0 <= i <= s.len(),
        forall|k: int| i <= k < s.len() ==> is_xid_continue_char(s[k]),
    ensures
        xid_run_end(s, i) == s.len(),
    decreases s.len() - i,
{
    if i < s.len() {
        lemma_xid_run_full(s, i + 1);
    }
}

proof fn lemma_num_run_full(s: Seq<char>, i: int)
    requires
        0 <= i <= s.len(),
        forall|k: int| i <= k < s.len() ==> is_numeric_char(s[k]),
    ensures
        num_run_end(s, i) == s.len(),
    decreases s.len() - i,
{
    if i < s.len() {
        lemma_num_run_full(s, i + 1);
    }
}

proof fn lemma_digit_run_full(s: Seq<char>, i: int)
    requires
        0 <= i <= s.len(),
        forall|k: int| i <= k < s.len() ==> is_ascii_digit_char(s[k]),
    ensures
        digit_run_end(s, i) == s.len(),
    decreases s.len() - i,
{
    if i < s.len() {
        lemma_digit_run_full(s, i + 1);
    }
}

/// Identifier round trip: a name whose first character starts an
/// identifier and whose remaining characters all continue one, and which
/// is not a reserved word, tokenizes to exactly one identifier token
/// carrying that name. The first character must also be neither
/// whitespace nor numeric: outside ASCII, Unicode lets a character both
/// start an identifier and be a numeral (a Roman-numeral character is
/// such), and the scanner reads such a name as a number literal instead.
pub proof fn lemma_identifier_round_trip(s: Seq<char>)
    requires
        s.len() > 0,
        is_xid_start_char(s[0]),
        !is_ws_char(s[0]),
        !is_numeric_char(s[0]),
        forall|k: int| 1 <= k < s.len() ==> is_xid_continue_char(s[k]),
        keyword_or_ident(s) == SpecToken::Identifier(s),
    ensures
        lex_spec(s) == Ok::<Seq<SpecToken>, LexError>(seq![SpecToken::Identifier(s)]),
{
    assert(skip_ws(s, 0) == 0);
    lemma_xid_run_full(s, 1);
    assert(s.subrange(0, s.len() as int) =~= s);
    assert(scan_token(s, 0) == Ok::<(SpecToken, int), LexError>(
        (SpecToken::Identifier(s), s.len() as int),
    ));
    assert(skip_ws(s, s.len() as int) == s.len() as int);
    assert(lex_from(s, s.len() as int) == Ok::<Seq<SpecToken>, LexError>(
        Seq::<SpecToken>::empty(),
    ));
    assert(seq![SpecToken::Identifier(s)] + Seq::<SpecToken>::empty() =~= seq![
        SpecToken::Identifier(s),
    ]);
}

/// Numeric bound: a string of decimal digits tokenizes to one number
/// token holding its decimal value whenever that value fits in an
/// unsigned 128-bit integer, and to a number-overflow error whenever it
/// does not; never to a silently wrapped value.
pub proof fn lemma_numeric_bound(s: Seq<char>)
    requires
        s.len() > 0,
        forall|k: int| 0 <= k < s.len() ==> is_ascii_digit_char(s[k]),
    ensures
        digits_val(s) <= u128::MAX ==> lex_spec(s) == Ok::<Seq<SpecToken>, LexError>(
            seq![SpecToken::Number(digits_val(s) as u128)],
        ),
        digits_val(s) > u128::MAX ==> lex_spec(s) == Err::<Seq<SpecToken>, LexError>(
            LexError { kind: LexErrorKind::NumberOverflow, offset: 0 },
        ),
{
    assert(is_ascii_digit_char(s[0]));
    assert(!is_ws_char(s[0]));
    assert(skip_ws(s, 0) == 0);
    assert(is_numeric_char(s[0]));
    assert(forall|k: int| 1 <= k < s.len() ==> is_numeric_char(s[k]));
    lemma_num_run_full(s, 1);
    lemma_digit_run_full(s, 0);
    assert(s.subrange(0, s.len() as int) =~= s);
    if digits_val(s) <= u128::MAX {
        assert(scan_token(s, 0) == Ok::<(SpecToken, int), LexError>(
            (SpecToken::Number(digits_val(s) as u128), s.len() as int),
        ));
        assert(skip_ws(s, s.len() as int) == s.len() as int);
        assert(lex_from(s, s.len() as int) == Ok::<Seq<SpecToken>, LexError>(
            Seq::<SpecToken>::empty(),
        ));
        assert(seq![SpecToken::Number(digits_val(s) as u128)] + Seq::<SpecToken>::empty() =~= seq![
            SpecToken::Number(digits_val(s) as u128),
        ]);
    } else {
        assert(scan_token(s, 0) == Err::<(SpecToken, int), LexError>(
            LexError { kind: LexErrorKind::NumberOverflow, offset: 0 },
        ));
    }
}

// --- Whitespace-insensitivity ---------------------------------------------
//
// The lemmas below culminate in `lemma_whitespace_insensitive`: inserting a
// run of whitespace at a token boundary never changes the token sequence.
// They relate scans of two texts that agree from given positions on (the
// shift lemmas), and scans of a text and an extension of it (the append
// lemmas).

/// The suffixes of the two texts from the two positions are the same text.
spec fn same_suffix(s1: Seq<char>, i1: int, s2: Seq<char>, i2: int) -> bool {
    &&& 0 <= i1 <= s1.len()
    &&& 0 <= i2 <= s2.len()
    &&& s1.subrange(i1, s1.len() as int) == s2.subrange(i2, s2.len() as int)
}

proof fn lemma_same_suffix_chars(s1: Seq<char>, i1: int, s2: Seq<char>, i2: int)
    requires
        same_suffix(s1, i1, s2, i2),
    ensures
        s1.len() - i1 == s2.len() - i2,
        forall|d: int| 0 <= d < s1.len() - i1 ==> #[trigger] s1[i1 + d] == s2[i2 + d],
{
    assert(s1.subrange(i1, s1.len() as int).len() == s1.len() - i1);
    assert forall|d: int| 0 <= d < s1.len() - i1 implies #[trigger] s1[i1 + d] == s2[i2 + d] by {
        assert(s1.subrange(i1, s1.len() as int)[d] == s1[i1 + d]);
        assert(s2.subrange(i2, s2.len() as int)[d] == s2[i2 + d]);
    }
}

proof fn lemma_same_suffix_step(s1: Seq<char>, i1: int, s2: Seq<char>, i2: int, d: int)
    requires
        same_suffix(s1, i1, s2, i2),
        0 <= d <= s1.len() - i1,
    ensures
        same_suffix(s1, i1 + d, s2, i2 + d),
{
    lemma_same_suffix_chars(s1, i1, s2, i2);
    assert forall|m: int| 0 <= m < s1.len() - (i1 + d) implies #[trigger] s1.subrange(
        i1 + d,
        s1.len() as int,
    )[m] == s2.subrange(i2 + d, s2.len() as int)[m] by {
        assert(s1[i1 + (d + m)] == s2[i2 + (d + m)]);
        assert(s1.subrange(i1 + d, s1.len() as int)[m] == s1[i1 + d + m]);
        assert(s2.subrange(i2 + d, s2.len() as int)[m] == s2[i2 + d + m]);
    }
    assert(s1.subrange(i1 + d, s1.len() as int) =~= s2.subrange(i2 + d, s2.len() as int));
}

proof fn lemma_skip_ws_shift(s1: Seq<char>, i1: int, s2: Seq<char>, i2: int)
    requires
        same_suffix(s1, i1, s2, i2),
    ensures
        skip_ws(s1, i1) - i1 == skip_ws(s2, i2) - i2,
    decreases s1.len() - i1,
{
    lemma_same_suffix_chars(s1, i1, s2, i2);
    if i1 < s1.len() && is_ws_char(s1[i1]) {
        assert(s1[i1 + 0] == s2[i2 + 0]);
        lemma_same_suffix_step(s1, i1, s2, i2, 1);
        lemma_skip_ws_shift(s1, i1 + 1, s2, i2 + 1);
    } else if i2 < s2.len() {
        assert(s1[i1 + 0] == s2[i2 + 0]) by {
            assert(i1 < s1.len());
        }
    }
}

proof fn lemma_xid_run_shift(s1: Seq<char>, i1: int, s2: Seq<char>, i2: int)
    requires
        same_suffix(s1, i1, s2, i2),
    ensures
        xid_run_end(s1, i1) - i1 == xid_run_end(s2, i2) - i2,
    decreases s1.len() - i1,
{
    lemma_same_suffix_chars(s1, i1, s2, i2);
    if i1 < s1.len() && is_xid_continue_char(s1[i1]) {
        assert(s1[i1 + 0] == s2[i2 + 0]);
        lemma_same_suffix_step(s1, i1, s2, i2, 1);
        lemma_xid_run_shift(s1, i1 + 1, s2, i2 + 1);
    } else if i2 < s2.len() {
        assert(s1[i1 + 0] == s2[i2 + 0]) by {
            assert(i1 < s1.len());
        }
    }
}

proof fn lemma_num_run_shift(s1: Seq<char>, i1: int, s2: Seq<char>, i2: int)
    requires
        same_suffix(s1, i1, s2, i2),
    ensures
        num_run_end(s1, i1) - i1 == num_run_end(s2, i2) - i2,
    decreases s1.len() - i1,
{
    lemma_same_suffix_chars(s1, i1, s2, i2);
    if i1 < s1.len() && is_numeric_char(s1[i1]) {
        assert(s1[i1 + 0] == s2[i2 + 0]);
        lemma_same_suffix_step(s1, i1, s2, i2, 1);
        lemma_num_run_shift(s1, i1 + 1, s2, i2 + 1);
    } else if i2 < s2.len() {
        assert(s1[i1 + 0] == s2[i2 + 0]) by {
            assert(i1 < s1.len());
        }
    }
}

proof fn lemma_digit_run_shift(s1: Seq<char>, i1: int, s2: Seq<char>, i2: int)
    requires
        same_suffix(s1, i1, s2, i2),
    ensures
        digit_run_end(s1, i1) - i1 == digit_run_end(s2, i2) - i2,
    decreases s1.len() - i1,
{
    lemma_same_suffix_chars(s1, i1, s2, i2);
    if i1 < s1.len() && is_ascii_digit_char(s1[i1]) {
        assert(s1[i1 + 0] == s2[i2 + 0]);
        lemma_same_suffix_step(s1, i1, s2, i2, 1);
        lemma_digit_run_shift(s1, i1 + 1, s2, i2 + 1);
    } else if i2 < s2.len() {
        assert(s1[i1 + 0] == s2[i2 + 0]) by {
            assert(i1 < s1.len());
        }
    }
}

proof fn lemma_scan_string_shift(s1: Seq<char>, i1: int, st1: int, s2: Seq<char>, i2: int, st2: int)
    requires
        same_suffix(s1, i1, s2, i2),
    ensures
        scan_string(s1, i1, st1) is Ok <==> scan_string(s2, i2, st2) is Ok,
        scan_string(s1, i1, st1) matches Ok((t, j)) ==> scan_string(s2, i2, st2) == Ok::<
            (Seq<char>, int),
            LexError,
        >((t, j - i1 + i2)),
    decreases s1.len() - i1,
{
    lemma_same_suffix_chars(s1, i1, s2, i2);
    if i1 < s1.len() {
        assert(s1[i1 + 0] == s2[i2 + 0]);
        if s1[i1] == '"' {
        } else if s1[i1] == '\\' {
            if i1 + 1 < s1.len() {
                assert(s1[i1 + 1] == s2[i2 + 1]);
                if s1[i1 + 1] == '"' || s1[i1 + 1] == '\\' || s1[i1 + 1] == 'n' {
                    lemma_same_suffix_step(s1, i1, s2, i2, 2);
                    lemma_scan_string_shift(s1, i1 + 2, st1, s2, i2 + 2, st2);
                }
            }
        } else {
            lemma_same_suffix_step(s1, i1, s2, i2, 1);
            lemma_scan_string_shift(s1, i1 + 1, st1, s2, i2 + 1, st2);
        }
    }
}

proof fn lemma_scan_token_shift(s1: Seq<char>, i1: int, s2: Seq<char>, i2: int)
    requires
        same_suffix(s1, i1, s2, i2),
        0 <= i1 < s1.len(),
    ensures
        scan_token(s1, i1) is Ok <==> scan_token(s2, i2) is Ok,
        scan_token(s1, i1) matches Ok((t, j)) ==> scan_token(s2, i2) == Ok::<
            (SpecToken, int),
            LexError,
        >((t, j - i1 + i2)),
{
    lemma_same_suffix_chars(s1, i1, s2, i2);
    assert(s1[i1 + 0] == s2[i2 + 0]);
    if i1 + 1 < s1.len() {
        assert(s1[i1 + 1] == s2[i2 + 1]);
    }
    let c = s1[i1];
    if c == '"' {
        lemma_same_suffix_step(s1, i1, s2, i2, 1);
        lemma_scan_string_shift(s1, i1 + 1, i1, s2, i2 + 1, i2);
    } else if is_numeric_char(c) {
        lemma_same_suffix_step(s1, i1, s2, i2, 1);
        lemma_num_run_shift(s1, i1 + 1, s2, i2 + 1);
        lemma_digit_run_shift(s1, i1, s2, i2);
        let j1 = num_run_end(s1, i1 + 1);
        let k1 = digit_run_end(s1, i1);
        lemma_num_run_end(s1, i1 + 1);
        lemma_digit_run_end(s1, i1);
        assert(s1.subrange(i1, j1) =~= s2.subrange(i2, j1 - i1 + i2)) by {
            lemma_num_run_end(s1, i1 + 1);
        }
        if k1 < j1 {
            assert(s1[i1 + (k1 - i1)] == s2[i2 + (k1 - i1)]);
        }
    } else if is_xid_start_char(c) && c != ';' && c != '{' && c != '}' && c != '(' && c != ')'
        && c != '=' && c != '>' && c != '<' && c != '!' {
        lemma_same_suffix_step(s1, i1, s2, i2, 1);
        lemma_xid_run_shift(s1, i1 + 1, s2, i2 + 1);
        let j1 = xid_run_end(s1, i1 + 1);
        lemma_xid_run_end(s1, i1 + 1);
        assert(s1.subrange(i1, j1) =~= s2.subrange(i2, j1 - i1 + i2));
    }
}

proof fn lemma_lex_from_shift(s1: Seq<char>, i1: int, s2: Seq<char>, i2: int)
    requires
        same_suffix(s1, i1, s2, i2),
    ensures
        lex_from(s1, i1) is Ok <==> lex_from(s2, i2) is Ok,
        lex_from(s1, i1) matches Ok(ts) ==> lex_from(s2, i2) == Ok::<Seq<SpecToken>, LexError>(ts),
    decreases s1.len() - i1,
{
    lemma_same_suffix_chars(s1, i1, s2, i2);
    lemma_skip_ws_shift(s1, i1, s2, i2);
    lemma_skip_ws(s1, i1);
    lemma_skip_ws(s2, i2);
    let k1 = skip_ws(s1, i1);
    let k2 = skip_ws(s2, i2);
    lemma_same_suffix_step(s1, i1, s2, i2, k1 - i1);
    if k1 < s1.len() {
        lemma_scan_token_shift(s1, k1, s2, k2);
        lemma_scan_token_bounds(s1, k1);
        match scan_token(s1, k1) {
            Ok((t, j1)) => {
                lemma_same_suffix_step(s1, k1, s2, k2, j1 - k1);
                lemma_lex_from_shift(s1, j1, s2, j1 - k1 + k2);
            },
            Err(_) => {},
        }
    }
}

/// Whitespace characters separate, never extend, a token: an ASCII
/// whitespace character continues no identifier, no number, and no
/// two-character operator.
proof fn lemma_ascii_ws_stops(c: char)
    requires
        is_ws_char(c),
        (c as u32) < 128,
    ensures
        !is_xid_continue_char(c),
        !is_numeric_char(c),
        c != '=',
{
}

proof fn lemma_xid_run_append(s: Seq<char>, t: Seq<char>, i: int)
    requires
        0 <= i <= s.len(),
        xid_run_end(s, i) < s.len() || t.len() == 0 || !is_xid_continue_char(t[0]),
    ensures
        xid_run_end(s + t, i) == xid_run_end(s, i),
    decreases s.len() - i,
{
    lemma_xid_run_end(s, i);
    assert forall|m: int| 0 <= m < s.len() implies (s + t)[m] == s[m] by {}
    if i < s.len() && is_xid_continue_char(s[i]) {
        lemma_xid_run_append(s, t, i + 1);
    } else if i >= s.len() && t.len() > 0 {
        assert((s + t)[i] == t[0]);
    }
}

proof fn lemma_num_run_append(s: Seq<char>, t: Seq<char>, i: int)
    requires
        0 <= i <= s.len(),
        num_run_end(s, i) < s.len() || t.len() == 0 || !is_numeric_char(t[0]),
    ensures
        num_run_end(s + t, i) == num_run_end(s, i),
    decreases s.len() - i,
{
    lemma_num_run_end(s, i);
    assert forall|m: int| 0 <= m < s.len() implies (s + t)[m] == s[m] by {}
    if i < s.len() && is_numeric_char(s[i]) {
        lemma_num_run_append(s, t, i + 1);
    } else if i >= s.len() && t.len() > 0 {
        assert((s + t)[i] == t[0]);
    }
}

proof fn lemma_digit_run_append(s: Seq<char>, t: Seq<char>, i: int)
    requires
        0 <= i <= s.len(),
        digit_run_end(s, i) < s.len() || t.len() == 0 || !is_ascii_digit_char(t[0]),
    ensures
        digit_run_end(s + t, i) == digit_run_end(s, i),
    decreases s.len() - i,
{
    lemma_digit_run_end(s, i);
    assert forall|m: int| 0 <= m < s.len() implies (s + t)[m] == s[m] by {}
    if i < s.len() && is_ascii_digit_char(s[i]) {
        lemma_digit_run_append(s, t, i + 1);
    } else if i >= s.len() && t.len() > 0 {
        assert((s + t)[i] == t[0]);
    }
}

proof fn lemma_scan_string_append(s: Seq<char>, t: Seq<char>, i: int, st: int)
    requires
        0 <= i <= s.len(),
        scan_string(s, i, st) is Ok,
    ensures
        scan_string(s + t, i, st) == scan_string(s, i, st),
    decreases s.len() - i,
{
    assert forall|m: int| 0 <= m < s.len() implies (s + t)[m] == s[m] by {}
    if i < s.len() {
        if s[i] == '"' {
        } else if s[i] == '\\' {
            if i + 1 < s.len() && (s[i + 1] == '"' || s[i + 1] == '\\' || s[i + 1] == 'n') {
                lemma_scan_string_append(s, t, i + 2, st);
            }
        } else {
            lemma_scan_string_append(s, t, i + 1, st);
        }
    }
}

/// Scanning a complete token is not changed by text appended after it,
/// provided the appended text starts with no character that would extend
/// the token: nothing identifier-continuing, nothing numeric, and not the
/// equals sign that completes a two-character operator.
proof fn lemma_scan_token_append(s: Seq<char>, t: Seq<char>, i: int)
    requires
        0 <= i < s.len(),
        scan_token(s, i) is Ok,
        t.len() == 0 || (!is_xid_continue_char(t[0]) && !is_numeric_char(t[0]) && t[0] != '='),
    ensures
        scan_token(s + t, i) == scan_token(s, i),
{
    assert forall|m: int| 0 <= m < s.len() implies (s + t)[m] == s[m] by {}
    if t.len() > 0 {
        assert((s + t)[s.len() as int] == t[0]);
    }
    let c = s[i];
    if c == '"' {
        lemma_scan_string_append(s, t, i + 1, i);
    } else if c == ';' || c == '{' || c == '}' || c == '(' || c == ')' || c == '=' {
    } else if c == '>' || c == '<' || c == '!' {
    } else if is_numeric_char(c) {
        lemma_num_run_end(s, i + 1);
        lemma_digit_run_end(s, i);
        let j = num_run_end(s, i + 1);
        let k = digit_run_end(s, i);
        lemma_num_run_append(s, t, i + 1);
        lemma_digit_run_append(s, t, i);
        assert((s + t).subrange(i, j) =~= s.subrange(i, j));
    } else if is_xid_start_char(c) {
        lemma_xid_run_end(s, i + 1);
        lemma_xid_run_append(s, t, i + 1);
        let j = xid_run_end(s, i + 1);
        assert((s + t).subrange(i, j) =~= s.subrange(i, j));
    }
}

proof fn lemma_skip_ws_trans(s: Seq<char>, p: int, q: int)
    requires
        0 <= p <= q <= s.len(),
        forall|k: int| p <= k < q ==> is_ws_char(s[k]),
    ensures
        skip_ws(s, p) == skip_ws(s, q),
    decreases q - p,
{
    if p < q {
        lemma_skip_ws_trans(s, p + 1, q);
    }
}

/// Whether the text that follows a token boundary leaves the preceding
/// token whole: it starts with no identifier-continue character, no
/// numeric character, and no equals sign.
pub open spec fn no_token_glue(post: Seq<char>) -> bool {
    post.len() == 0 || (!is_xid_continue_char(post[0]) && !is_numeric_char(post[0]) && post[0]
        != '=')
}

proof fn lemma_ws_insert_at(pre: Seq<char>, w: Seq<char>, post: Seq<char>, p: int)
    requires
        0 <= p <= pre.len(),
        forall|k: int| 0 <= k < w.len() ==> is_ws_char(w[k]) && (#[trigger] w[k] as u32) < 128,
        no_token_glue(post),
        lex_from(pre, p) is Ok,
    ensures
        lex_from(pre + w + post, p) is Ok <==> lex_from(pre + post, p) is Ok,
        lex_from(pre + w + post, p) matches Ok(ts) ==> lex_from(pre + post, p) == Ok::<
            Seq<SpecToken>,
            LexError,
        >(ts),
    decreases pre.len() - p,
{
    let a = pre + w + post;
    let b = pre + post;
    assert forall|m: int| 0 <= m < pre.len() implies a[m] == pre[m] && b[m] == pre[m] by {}
    lemma_skip_ws(pre, p);
    let k = skip_ws(pre, p);
    if k < pre.len() {
        // The scan of the next token lies inside `pre` in all three texts.
        assert(skip_ws(a, p) == k) by {
            lemma_skip_ws_trans(a, p, k);
            assert(!is_ws_char(a[k]));
        }
        assert(skip_ws(b, p) == k) by {
            lemma_skip_ws_trans(b, p, k);
            assert(!is_ws_char(b[k]));
        }
        match scan_token(pre, k) {
            Ok((t, j)) => {
                lemma_scan_token_bounds(pre, k);
                assert(pre + (w + post) =~= a);
                assert(pre + post =~= b);
                if w.len() > 0 {
                    lemma_ascii_ws_stops(w[0]);
                    assert((w + post)[0] == w[0]);
                } else {
                    assert(w + post =~= post);
                }
                lemma_scan_token_append(pre, w + post, k);
                lemma_scan_token_append(pre, post, k);
                assert(scan_token(a, k) == Ok::<(SpecToken, int), LexError>((t, j)));
                assert(scan_token(b, k) == Ok::<(SpecToken, int), LexError>((t, j)));
                lemma_ws_insert_at(pre, w, post, j);
            },
            Err(_) => {
                // Excluded: the scan of `pre` succeeds from `p`.
                assert(false);
            },
        }
    } else {
        // Only whitespace is left of `pre`: both texts go on in `post`.
        let pwl = pre.len() + w.len();
        assert(forall|m: int| pre.len() <= m < pwl ==> a[m] == w[m - pre.len()]
            && is_ws_char(a[m]));
        lemma_skip_ws_trans(a, p, pwl as int);
        lemma_skip_ws_trans(b, p, pre.len() as int);
        assert(a.subrange(pwl as int, a.len() as int) =~= post);
        assert(b.subrange(pre.len() as int, b.len() as int) =~= post);
        assert(post.subrange(0, post.len() as int) =~= post);
        assert(same_suffix(a, pwl as int, b, pre.len() as int));
        lemma_lex_from_shift(a, pwl as int, b, pre.len() as int);
        assert(lex_from(a, p) == lex_from(a, pwl as int)) by {
            lemma_skip_ws(a, pwl as int);
        }
        assert(lex_from(b, p) == lex_from(b, pre.len() as int)) by {
            lemma_skip_ws(b, pre.len() as int);
        }
    }
}

/// Whitespace-insensitivity: inserting a run of ASCII whitespace at a
/// token boundary of a scannable text — a point after which the text
/// starts no continuation of what precedes (`no_token_glue`) — never
/// changes the token sequence; read right to left, removing such a run
/// never changes it either. (Removing the space of `> =` is no instance:
/// there the boundary glues into the two-character operator.)
pub proof fn lemma_whitespace_insensitive(pre: Seq<char>, w: Seq<char>, post: Seq<char>)
    requires
        forall|k: int| 0 <= k < w.len() ==> is_ws_char(w[k]) && (#[trigger] w[k] as u32) < 128,
        lex_spec(pre) is Ok,
        no_token_glue(post),
    ensures
        lex_spec(pre + w + post) is Ok <==> lex_spec(pre + post) is Ok,
        lex_spec(pre + w + post) matches Ok(ts) ==> lex_spec(pre + post) == Ok::<
            Seq<SpecToken>,
            LexError,
        >(ts),
{
    lemma_ws_insert_at(pre, w, post, 0);
}

/// The scan from `p0` has produced `done` and stands at `p`: whatever the
/// rest of the text yields, the whole scan yields `done` followed by it.
spec fn lex_decomposes(s: Seq<char>, p0: int, done: Seq<SpecToken>, p: int) -> bool {
    match lex_from(s, p) {
        Ok(ts) => lex_from(s, p0) == Ok::<Seq<SpecToken>, LexError>(done + ts),
        Err(e) => lex_from(s, p0) == Err::<Seq<SpecToken>, LexError>(e),
    }
}

proof fn lemma_lex_step_ok(s: Seq<char>, p0: int, done: Seq<SpecToken>, cur: int, t: SpecToken, j: int)
    requires
        0 <= cur < s.len(),
        !is_ws_char(s[cur]),
        scan_token(s, cur) == Ok::<(SpecToken, int), LexError>((t, j)),
        lex_decomposes(s, p0, done, cur),
    ensures
        cur < j <= s.len(),
        lex_decomposes(s, p0, done + seq![t], j),
{
    lemma_scan_token_bounds(s, cur);
    assert(skip_ws(s, cur) == cur);
    match lex_from(s, j) {
        Ok(rest) => {
            assert(lex_from(s, cur) == Ok::<Seq<SpecToken>, LexError>(seq![t] + rest));
            assert(done + (seq![t] + rest) =~= (done + seq![t]) + rest);
        },
        Err(_) => {},
    }
}

proof fn lemma_lex_step_err(s: Seq<char>, p0: int, done: Seq<SpecToken>, cur: int, e: LexError)
    requires
        0 <= cur < s.len(),
        !is_ws_char(s[cur]),
        scan_token(s, cur) == Err::<(SpecToken, int), LexError>(e),
        lex_decomposes(s, p0, done, cur),
    ensures
        lex_from(s, p0) == Err::<Seq<SpecToken>, LexError>(e),
{
    assert(skip_ws(s, cur) == cur);
}

/// Appending digits to a digit string never shrinks its decimal value.
proof fn lemma_digits_val_mono(s: Seq<char>, i: int, a: int, b: int)
    requires
        0 <= i <= a <= b <= s.len(),
    ensures
        digits_val(s.subrange(i, a)) <= digits_val(s.subrange(i, b)),
    decreases b - a,
{
    if a < b {
        lemma_digits_val_mono(s, i, a, b - 1);
        assert(s.subrange(i, b).drop_last() =~= s.subrange(i, b - 1));
        assert(digits_val(s.subrange(i, b - 1)) * 10 >= digits_val(s.subrange(i, b - 1)));
    }
}

/// The scanning cursor of the tokenizer: the text as characters and the
/// current position in it.
pub struct Lexer {
    input: Vec<char>,
    pos: usize,
}

impl Lexer {
    /// The text being scanned.
    pub closed spec fn text(&self) -> Seq<char> {
        self.input@
    }

    /// The current scan position.
    pub closed spec fn position(&self) -> int {
        self.pos as int
    }

    /// The cursor never stands past the end of the text.
    pub closed spec fn wf(&self) -> bool {
        self.pos <= self.input@.len()
    }

    /// A fresh scanner over the given source text, standing at its start.
    #[verifier::loop_isolation(false)]
pub fn new(input: &str) -> (l: Lexer)
        ensures
            l.wf(),
            l.text() == input@,
            l.position() == 0,
    {
        let n = input.unicode_len();
        let mut chars: Vec<char> = Vec::new();
        let mut i: usize = 0;
        while i < n
            invariant
                i <= n,
                n == input@.len(),
                chars@ == input@.subrange(0, i as int),
            decreases n - i,
        {
            let c = input.get_char(i);
            chars.push(c);
            i += 1;
            proof {
                assert(chars@ =~= input@.subrange(0, i as int));
            }
        }
        proof {
            assert(chars@ =~= input@);
        }
        Lexer { input: chars, pos: 0 }
    }

    /// Scan an identifier or keyword name: the character at the cursor and
    /// the longest run of identifier-continue characters after it.
    #[verifier::loop_isolation(false)]
    fn collect_to_string(&mut self) -> (r: String)
        requires
            old(self).wf(),
            old(self).pos < old(self).input@.len(),
        ensures
            final(self).input@ == old(self).input@,
            final(self).wf(),
            final(self).pos as int == xid_run_end(old(self).input@, old(self).pos + 1),
            r@ == old(self).input@.subrange(old(self).pos as int, final(self).pos as int),
    {
        let ghost s = self.input@;
        let ghost i0 = self.pos as int;
        let n = self.input.len();
        let mut buf: Vec<char> = Vec::new();
        let c0 = self.input[self.pos];
        buf.push(c0);
        self.pos = self.pos + 1;
        proof {
            assert(buf@ =~= s.subrange(i0, self.pos as int));
        }
        while self.pos < self.input.len() && char_is_xid_continue(self.input[self.pos])
            invariant
                self.input@ == s,
                i0 + 1 <= self.pos as int <= s.len(),
                xid_run_end(s, i0 + 1) == xid_run_end(s, self.pos as int),
                buf@ == s.subrange(i0, self.pos as int),
            decreases s.len() - self.pos,
        {
            let c = self.input[self.pos];
            buf.push(c);
            self.pos = self.pos + 1;
            proof {
                assert(buf@ =~= s.subrange(i0, self.pos as int));
            }
        }
        proof {
            assert(xid_run_end(s, self.pos as int) == self.pos as int);
        }
        chars_to_string(&buf)
    }

    /// Scan a number literal at the cursor: the longest run of numeric
    /// characters, read as a decimal value.
    #[verifier::loop_isolation(false)]
    fn collect_to_number(&mut self) -> (r: Result<u128, LexError>)
        requires
            old(self).wf(),
            old(self).pos < old(self).input@.len(),
        ensures
            final(self).input@ == old(self).input@,
            final(self).wf(),
            ({
                let s = old(self).input@;
                let i = old(self).pos as int;
                let j = num_run_end(s, i + 1);
                let k = digit_run_end(s, i);
                if k < j {
                    r == Err::<u128, LexError>(
                        LexError { kind: LexErrorKind::InvalidDigit(s[k]), offset: k as usize },
                    )
                } else if digits_val(s.subrange(i, j)) > u128::MAX {
                    r == Err::<u128, LexError>(
                        LexError { kind: LexErrorKind::NumberOverflow, offset: i as usize },
                    )
                } else {
                    r matches Ok(v) && v as nat == digits_val(s.subrange(i, j))
                        && final(self).pos as int == j
                }
            }),
    {
        let ghost s = self.input@;
        let ghost i0 = self.pos as int;
        let n = self.input.len();
        let start = self.pos;
        self.pos = self.pos + 1;
        while self.pos < self.input.len() && char_is_numeric(self.input[self.pos])
            invariant
                self.input@ == s,
                i0 + 1 <= self.pos as int <= s.len(),
                num_run_end(s, i0 + 1) == num_run_end(s, self.pos as int),
            decreases s.len() - self.pos,
        {
            self.pos = self.pos + 1;
        }
        proof {
            assert(num_run_end(s, self.pos as int) == self.pos as int);
        }
        let ghost j = num_run_end(s, i0 + 1);
        // Every character of the run must be a decimal digit.
        let mut idx = start;
        while idx < self.pos
            invariant
                self.input@ == s,
                start as int == i0,
                0 <= i0 < s.len(),
                self.pos as int == j,
                j <= s.len(),
                i0 <= idx as int <= j,
                digit_run_end(s, i0) == digit_run_end(s, idx as int),
            decreases j - idx,
        {
            let c = self.input[idx];
            let u = c as u32;
            if u < 48 || u > 57 {
                proof {
                    assert(digit_run_end(s, idx as int) == idx as int);
                }
                return Err(LexError { kind: LexErrorKind::InvalidDigit(c), offset: idx });
            }
            idx = idx + 1;
        }
        proof {
            assert(digit_run_end(s, j) == j) by {
                lemma_num_run_end(s, i0 + 1);
            }
        }
        // The run is all digits; fold it into a value, watching for overflow.
        let mut value: u128 = 0;
        idx = start;
        proof {
            assert(s.subrange(i0, i0) =~= Seq::<char>::empty());
        }
        while idx < self.pos
            invariant
                self.input@ == s,
                start as int == i0,
                0 <= i0 < s.len(),
                self.pos as int == j,
                i0 <= idx as int <= j <= s.len(),
                digit_run_end(s, i0) == j,
                value as nat == digits_val(s.subrange(i0, idx as int)),
            decreases j - idx,
        {
            let c = self.input[idx];
            proof {
                lemma_digit_run_end(s, i0);
                assert(is_ascii_digit_char(s[idx as int]));
            }
            let u = c as u32;
            let d = (u - 48) as u128;
            let ghost pref = s.subrange(i0, idx as int);
            let ghost ext = s.subrange(i0, idx as int + 1);
            proof {
                assert(ext.drop_last() =~= pref);
                assert(digits_val(ext) == digits_val(pref) * 10 + digit_val(s[idx as int]));
            }
            let overflowed: bool;
            match value.checked_mul(10) {
                Some(v10) => {
                    match v10.checked_add(d) {
                        Some(v) => {
                            value = v;
                            overflowed = false;
                        },
                        None => {
                            overflowed = true;
                        },
                    }
                },
                None => {
                    overflowed = true;
                },
            }
            if overflowed {
                proof {
                    assert(digits_val(ext) > u128::MAX);
                    lemma_digits_val_mono(s, i0, idx as int + 1, j);
                }
                return Err(LexError { kind: LexErrorKind::NumberOverflow, offset: start });
            }
            idx = idx + 1;
        }
        Ok(value)
    }

    /// Scan the inside of a string literal, the cursor standing just past
    /// the opening delimiter at `start`, up to and past the closing one.
    #[verifier::loop_isolation(false)]
    fn collect_string_literal(&mut self, start: usize) -> (r: Result<String, LexError>)
        requires
            old(self).wf(),
            (start as int) < old(self).input@.len(),
        ensures
            final(self).input@ == old(self).input@,
            final(self).wf(),
            match scan_string(old(self).input@, old(self).pos as int, start as int) {
                Ok((t, j)) => r matches Ok(v) && v@ == t && final(self).pos as int == j,
                Err(e) => r matches Err(e2) && e2 == e,
            },
    {
        let ghost s = self.input@;
        let ghost p0 = self.pos as int;
        let ghost st = start as int;
        let n = self.input.len();
        let mut buf: Vec<char> = Vec::new();
        loop
            invariant
                self.input@ == s,
                p0 <= self.pos as int <= s.len(),
                st < s.len(),
                start as int == st,
                0 <= p0,
                match scan_string(s, self.pos as int, st) {
                    Ok((t, j)) => scan_string(s, p0, st) == Ok::<(Seq<char>, int), LexError>(
                        (buf@ + t, j),
                    ),
                    Err(e) => scan_string(s, p0, st) == Err::<(Seq<char>, int), LexError>(e),
                },
            decreases s.len() - self.pos,
        {
            if self.pos >= self.input.len() {
                return Err(LexError { kind: LexErrorKind::UnterminatedString, offset: start });
            }
            let c = self.input[self.pos];
            if c == '"' {
                self.pos = self.pos + 1;
                proof {
                    assert(buf@ + Seq::<char>::empty() =~= buf@);
                }
                return Ok(chars_to_string(&buf));
            }
            if c == '\\' {
                if self.pos + 1 >= self.input.len() {
                    return Err(LexError { kind: LexErrorKind::UnterminatedString, offset: start });
                }
                let e = self.input[self.pos + 1];
                if e == '"' || e == '\\' || e == 'n' {
                    let u = if e == 'n' { '\n' } else { e };
                    let ghost old_buf = buf@;
                    buf.push(u);
                    self.pos = self.pos + 2;
                    proof {
                        assert(buf@ =~= old_buf + seq![u]);
                        match scan_string(s, self.pos as int, st) {
                            Ok((t, j)) => {
                                assert(buf@ + t =~= old_buf + (seq![u] + t));
                            },
                            Err(_) => {},
                        }
                    }
                } else {
                    return Err(LexError { kind: LexErrorKind::InvalidEscape(e), offset: self.pos + 1 });
                }
            } else {
                let ghost old_buf = buf@;
                buf.push(c);
                self.pos = self.pos + 1;
                proof {
                    assert(buf@ =~= old_buf + seq![c]);
                    match scan_string(s, self.pos as int, st) {
                        Ok((t, j)) => {
                            assert(buf@ + t =~= old_buf + (seq![c] + t));
                        },
                        Err(_) => {},
                    }
                }
            }
        }
    }

    /// Scan the whole text into tokens: whitespace separates tokens and is
    /// never emitted; the first unscannable character, malformed number or
    /// unterminated string aborts the scan with a `LexError`.
    #[verifier::loop_isolation(false)]
    pub fn lex(&mut self) -> (r: Result<Vec<LexerToken>, LexError>)
        requires
            old(self).wf(),
        ensures
            match lex_from(old(self).text(), old(self).position()) {
                Ok(ts) => r matches Ok(v) && v.deep_view() == ts,
                Err(e) => r matches Err(e2) && e2 == e,
            },
    {
        let ghost s = self.input@;
        let ghost p0 = self.pos as int;
        let n = self.input.len();
        let mut out: Vec<LexerToken> = Vec::new();
        proof {
            match lex_from(s, p0) {
                Ok(ts) => {
                    assert(Seq::<SpecToken>::empty() + ts =~= ts);
                    assert(out.deep_view() =~= Seq::<SpecToken>::empty());
                },
                Err(_) => {},
            }
        }
        loop
            invariant
                self.input@ == s,
                self.pos as int <= s.len(),
                lex_decomposes(s, p0, out.deep_view(), self.pos as int),
            decreases s.len() - self.pos,
        {
            let ghost p = self.pos as int;
            while self.pos < self.input.len() && char_is_whitespace(self.input[self.pos])
                invariant
                    self.input@ == s,
                    p <= self.pos as int <= s.len(),
                    skip_ws(s, p) == skip_ws(s, self.pos as int),
                decreases s.len() - self.pos,
            {
                self.pos = self.pos + 1;
            }
            proof {
                assert(skip_ws(s, self.pos as int) == self.pos as int);
                assert(lex_from(s, p) == lex_from(s, self.pos as int));
            }
            if self.pos >= self.input.len() {
                proof {
                    assert(lex_from(s, self.pos as int) == Ok::<Seq<SpecToken>, LexError>(
                        Seq::<SpecToken>::empty(),
                    ));
                    assert(out.deep_view() + Seq::<SpecToken>::empty() =~= out.deep_view());
                }
                return Ok(out);
            }
            let ghost cur = self.pos as int;
            let ghost done = out.deep_view();
            let c = self.input[self.pos];
            let tok: LexerToken;
            if c == ';' {
                self.pos = self.pos + 1;
                tok = LexerToken::EndStatement;
            } else if c == '{' {
                self.pos = self.pos + 1;
                tok = LexerToken::BeginBlock;
            } else if c == '}' {
                self.pos = self.pos + 1;
                tok = LexerToken::EndBlock;
            } else if c == '(' {
                self.pos = self.pos + 1;
                tok = LexerToken::OpenParen;
            } else if c == ')' {
                self.pos = self.pos + 1;
                tok = LexerToken::CloseParen;
            } else if c == '=' {
                self.pos = self.pos + 1;
                tok = LexerToken::Equals;
            } else if c == '>' {
                if self.pos + 1 < self.input.len() && self.input[self.pos + 1] == '=' {
                    self.pos = self.pos + 2;
                    tok = LexerToken::GreaterEqual;
                } else {
                    self.pos = self.pos + 1;
                    tok = LexerToken::GreaterThan;
                }
            } else if c == '<' {
                if self.pos + 1 < self.input.len() && self.input[self.pos + 1] == '=' {
                    self.pos = self.pos + 2;
                    tok = LexerToken::LessEqual;
                } else {
                    self.pos = self.pos + 1;
                    tok = LexerToken::LessThan;
                }
            } else if c == '!' {
                if self.pos + 1 < self.input.len() && self.input[self.pos + 1] == '=' {
                    self.pos = self.pos + 2;
                    tok = LexerToken::NotEqual;
                } else {
                    let e = LexError { kind: LexErrorKind::UnexpectedChar('!'), offset: self.pos };
                    proof {
                        lemma_lex_step_err(s, p0, done, cur, e);
                    }
                    return Err(e);
                }
            } else if c == '"' {
                let start = self.pos;
                self.pos = self.pos + 1;
                match self.collect_string_literal(start) {
                    Ok(v) => {
                        tok = LexerToken::StringLiteral(v);
                    },
                    Err(e) => {
                        proof {
                            lemma_lex_step_err(s, p0, done, cur, e);
                        }
                        return Err(e);
                    },
                }
            } else {
                let numeric = char_is_numeric(c);
                if numeric {
                    match self.collect_to_number() {
                        Ok(v) => {
                            tok = LexerToken::Number(v);
                        },
                        Err(e) => {
                            proof {
                                lemma_lex_step_err(s, p0, done, cur, e);
                            }
                            return Err(e);
                        },
                    }
                } else {
                    let xs = char_is_xid_start(c);
                    if xs {
                        let name = self.collect_to_string();
                        tok = LexerToken::from_string(name.as_str());
                    } else {
                        let e = LexError { kind: LexErrorKind::UnexpectedChar(c), offset: self.pos };
                        proof {
                            lemma_lex_step_err(s, p0, done, cur, e);
                        }
                        return Err(e);
                    }
                }
            }
            let ghost old_out = out.deep_view();
            out.push(tok);
            proof {
                assert(out.deep_view() =~= old_out + seq![tok.deep_view()]);
                lemma_lex_step_ok(s, p0, done, cur, tok.deep_view(), self.pos as int);
            }
        }
    }
}

} // verus!
