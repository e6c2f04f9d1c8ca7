//! The template lexer: HTML text and `-[ ... ]-` directives to tokens.
use vstd::prelude::*;
use crate::text::push_char;

verus! {

/// A literal inside a directive: a string, a number (kept as its source
/// text) or a boolean.
#[derive(Debug, PartialEq, Clone)]
pub enum Literal {
    /// A string literal, escapes decoded.
    Str(String),
    /// A number literal: an optional `-`, digits and at most one `.`, with at
    /// least one digit.
    Number(String),
    /// `true` or `false`.
    Boolean(bool),
}

/// The mathematical value of a literal.
pub enum LiteralView {
    Str(Seq<char>),
    Number(Seq<char>),
    Boolean(bool),
}

impl View for Literal {
    type V = LiteralView;

    open spec fn view(&self) -> LiteralView {
        match self {
            Literal::Str(s) => LiteralView::Str(s@),
            Literal::Number(s) => LiteralView::Number(s@),
            Literal::Boolean(b) => LiteralView::Boolean(*b),
        }
    }
}

/// A token of the template language.
#[derive(Debug, PartialEq, Clone)]
pub enum Token {
    /// The keyword `template`.
    TemplateKeyword,
    /// The keyword `insert`.
    InsertKeyword,
    /// The keyword `block`.
    BlockKeyword,
    /// The keyword `endblock`.
    EndBlockKeyword,
    /// The keyword `export`.
    ExportKeyword,
    /// The keyword `placeholder`.
    PlaceholderKeyword,
    /// The keyword `let`.
    LetKeyword,
    /// The keyword `for`.
    ForKeyword,
    /// The keyword `in`.
    InKeyword,
    /// The keyword `if`.
    IfKeyword,
    /// The keyword `match`.
    MatchKeyword,
    /// The keyword `case`.
    CaseKeyword,
    /// The keyword `output`.
    OutputKeyword,
    /// The keyword `endif`.
    EndIfKeyword,
    /// The keyword `endfor`.
    EndForKeyword,
    /// The keyword `endmatch`.
    EndMatchKeyword,
    /// The keyword `endcase`.
    EndCaseKeyword,
    /// The keyword `while`.
    WhileKeyword,
    /// The keyword `endwhile`.
    EndWhileKeyword,
    /// The keyword `del`.
    DelKeyword,
    /// A variable or user-defined name.
    Identifier(String),
    /// A literal string, number or boolean.
    Object(Literal),
    /// Text outside directives, kept as it is.
    HtmlContent(String),
    /// `.`, object access.
    Dot,
    /// `=`.
    Assignment,
    /// `+=`.
    PlusAssignment,
    /// `-=`.
    MinusAssignment,
    /// `*=`.
    MultiplyAssignment,
    /// `/=`.
    DivideAssignment,
    /// `%=`.
    ModulusAssignment,
    /// `++`.
    Increment,
    /// `--`.
    Decrement,
    /// `+`.
    Plus,
    /// `-`.
    Minus,
    /// `*`.
    Multiply,
    /// `/`.
    Divide,
    /// `%`.
    Modulus,
    /// `**`.
    Exponent,
    /// `==`.
    EqualsEquals,
    /// `!=`.
    NotEquals,
    /// `<`.
    LessThan,
    /// `<=`.
    LessThanEquals,
    /// `>`.
    GreaterThan,
    /// `>=`.
    GreaterThanEquals,
    /// `&&`.
    LogicalAnd,
    /// `||`.
    LogicalOr,
    /// `!`.
    LogicalNot,
    /// `(`.
    LeftParen,
    /// `)`.
    RightParen,
    /// `[`.
    LeftSquareBracket,
    /// `]`.
    RightSquareBracket,
    /// The end of a directive or statement.
    EndOfStatement,
}

/// The mathematical value of a token: its strings as character sequences.
pub enum TokenView {
    TemplateKeyword,
    InsertKeyword,
    BlockKeyword,
    EndBlockKeyword,
    ExportKeyword,
    PlaceholderKeyword,
    LetKeyword,
    ForKeyword,
    InKeyword,
    IfKeyword,
    MatchKeyword,
    CaseKeyword,
    OutputKeyword,
    EndIfKeyword,
    EndForKeyword,
    EndMatchKeyword,
    EndCaseKeyword,
    WhileKeyword,
    EndWhileKeyword,
    DelKeyword,
    Identifier(Seq<char>),
    Object(LiteralView),
    HtmlContent(Seq<char>),
    Dot,
    Assignment,
    PlusAssignment,
    MinusAssignment,
    MultiplyAssignment,
    DivideAssignment,
    ModulusAssignment,
    Increment,
    Decrement,
    Plus,
    Minus,
    Multiply,
    Divide,
    Modulus,
    Exponent,
    EqualsEquals,
    NotEquals,
    LessThan,
    LessThanEquals,
    GreaterThan,
    GreaterThanEquals,
    LogicalAnd,
    LogicalOr,
    LogicalNot,
    LeftParen,
    RightParen,
    LeftSquareBracket,
    RightSquareBracket,
    EndOfStatement,
}

impl View for Token {
    type V = TokenView;

    open spec fn view(&self) -> TokenView {
        match self {
            Token::TemplateKeyword => TokenView::TemplateKeyword,
            Token::InsertKeyword => TokenView::InsertKeyword,
            Token::BlockKeyword => TokenView::BlockKeyword,
            Token::EndBlockKeyword => TokenView::EndBlockKeyword,
            Token::ExportKeyword => TokenView::ExportKeyword,
            Token::PlaceholderKeyword => TokenView::PlaceholderKeyword,
            Token::LetKeyword => TokenView::LetKeyword,
            Token::ForKeyword => TokenView::ForKeyword,
            Token::InKeyword => TokenView::InKeyword,
            Token::IfKeyword => TokenView::IfKeyword,
            Token::MatchKeyword => TokenView::MatchKeyword,
            Token::CaseKeyword => TokenView::CaseKeyword,
            Token::OutputKeyword => TokenView::OutputKeyword,
            Token::EndIfKeyword => TokenView::EndIfKeyword,
            Token::EndForKeyword => TokenView::EndForKeyword,
            Token::EndMatchKeyword => TokenView::EndMatchKeyword,
            Token::EndCaseKeyword => TokenView::EndCaseKeyword,
            Token::WhileKeyword => TokenView::WhileKeyword,
            Token::EndWhileKeyword => TokenView::EndWhileKeyword,
            Token::DelKeyword => TokenView::DelKeyword,
            Token::Identifier(s) => TokenView::Identifier(s@),
            Token::Object(l) => TokenView::Object(l@),
            Token::HtmlContent(s) => TokenView::HtmlContent(s@),
            Token::Dot => TokenView::Dot,
            Token::Assignment => TokenView::Assignment,
            Token::PlusAssignment => TokenView::PlusAssignment,
            Token::MinusAssignment => TokenView::MinusAssignment,
            Token::MultiplyAssignment => TokenView::MultiplyAssignment,
            Token::DivideAssignment => TokenView::DivideAssignment,
            Token::ModulusAssignment => TokenView::ModulusAssignment,
            Token::Increment => TokenView::Increment,
            Token::Decrement => TokenView::Decrement,
            Token::Plus => TokenView::Plus,
            Token::Minus => TokenView::Minus,
            Token::Multiply => TokenView::Multiply,
            Token::Divide => TokenView::Divide,
            Token::Modulus => TokenView::Modulus,
            Token::Exponent => TokenView::Exponent,
            Token::EqualsEquals => TokenView::EqualsEquals,
            Token::NotEquals => TokenView::NotEquals,
            Token::LessThan => TokenView::LessThan,
            Token::LessThanEquals => TokenView::LessThanEquals,
            Token::GreaterThan => TokenView::GreaterThan,
            Token::GreaterThanEquals => TokenView::GreaterThanEquals,
            Token::LogicalAnd => TokenView::LogicalAnd,
            Token::LogicalOr => TokenView::LogicalOr,
            Token::LogicalNot => TokenView::LogicalNot,
            Token::LeftParen => TokenView::LeftParen,
            Token::RightParen => TokenView::RightParen,
            Token::LeftSquareBracket => TokenView::LeftSquareBracket,
            Token::RightSquareBracket => TokenView::RightSquareBracket,
            Token::EndOfStatement => TokenView::EndOfStatement,
        }
    }
}

/// How tightly a binary operator binds (higher binds tighter); 0 for a token
/// that is no binary operator. Property access and indexing bind tightest.
pub open spec fn precedence(t: TokenView) -> u8 {
    match t {
        TokenView::LogicalOr => 10,
        TokenView::LogicalAnd => 20,
        TokenView::EqualsEquals | TokenView::NotEquals => 30,
        TokenView::LessThan | TokenView::LessThanEquals | TokenView::GreaterThan
        | TokenView::GreaterThanEquals => 40,
        TokenView::Plus | TokenView::Minus => 50,
        TokenView::Multiply | TokenView::Divide | TokenView::Modulus => 60,
        TokenView::Exponent => 70,
        TokenView::Dot | TokenView::LeftSquareBracket => 90,
        _ => 0,
    }
}

/// The precedence of the operator at `pos`, 0 past the end (see
/// `precedence`).
pub fn get_operator_precedence(tokens: &[Token], pos: usize) -> (r: u8)
    ensures
        pos >= tokens@.len() ==> r == 0,
        pos < tokens@.len() ==> r == precedence(tokens@[pos as int]@),
{
    if pos >= tokens.len() {
        return 0;
    }
    match &tokens[pos] {
        Token::LogicalOr => 10,
        Token::LogicalAnd => 20,
        Token::EqualsEquals | Token::NotEquals => 30,
        Token::LessThan | Token::LessThanEquals | Token::GreaterThan | Token::GreaterThanEquals => 40,
        Token::Plus | Token::Minus => 50,
        Token::Multiply | Token::Divide | Token::Modulus => 60,
        Token::Exponent => 70,
        Token::Dot => 90,
        Token::LeftSquareBracket => 90,
        _ => 0,
    }
}

/// A copy of a literal.
pub(crate) fn copy_literal(l: &Literal) -> (r: Literal)
    ensures
        r@ == l@,
{
    match l {
        Literal::Str(s) => Literal::Str(s.clone()),
        Literal::Number(s) => Literal::Number(s.clone()),
        Literal::Boolean(b) => Literal::Boolean(*b),
    }
}

/// A copy of a token.
pub(crate) fn copy_token(t: &Token) -> (r: Token)
    ensures
        r@ == t@,
{
    match t {
        Token::TemplateKeyword => Token::TemplateKeyword,
        Token::InsertKeyword => Token::InsertKeyword,
        Token::BlockKeyword => Token::BlockKeyword,
        Token::EndBlockKeyword => Token::EndBlockKeyword,
        Token::ExportKeyword => Token::ExportKeyword,
        Token::PlaceholderKeyword => Token::PlaceholderKeyword,
        Token::LetKeyword => Token::LetKeyword,
        Token::ForKeyword => Token::ForKeyword,
        Token::InKeyword => Token::InKeyword,
        Token::IfKeyword => Token::IfKeyword,
        Token::MatchKeyword => Token::MatchKeyword,
        Token::CaseKeyword => Token::CaseKeyword,
        Token::OutputKeyword => Token::OutputKeyword,
        Token::EndIfKeyword => Token::EndIfKeyword,
        Token::EndForKeyword => Token::EndForKeyword,
        Token::EndMatchKeyword => Token::EndMatchKeyword,
        Token::EndCaseKeyword => Token::EndCaseKeyword,
        Token::WhileKeyword => Token::WhileKeyword,
        Token::EndWhileKeyword => Token::EndWhileKeyword,
        Token::DelKeyword => Token::DelKeyword,
        Token::Identifier(s) => Token::Identifier(s.clone()),
        Token::Object(l) => Token::Object(copy_literal(l)),
        Token::HtmlContent(s) => Token::HtmlContent(s.clone()),
        Token::Dot => Token::Dot,
        Token::Assignment => Token::Assignment,
        Token::PlusAssignment => Token::PlusAssignment,
        Token::MinusAssignment => Token::MinusAssignment,
        Token::MultiplyAssignment => Token::MultiplyAssignment,
        Token::DivideAssignment => Token::DivideAssignment,
        Token::ModulusAssignment => Token::ModulusAssignment,
        Token::Increment => Token::Increment,
        Token::Decrement => Token::Decrement,
        Token::Plus => Token::Plus,
        Token::Minus => Token::Minus,
        Token::Multiply => Token::Multiply,
        Token::Divide => Token::Divide,
        Token::Modulus => Token::Modulus,
        Token::Exponent => Token::Exponent,
        Token::EqualsEquals => Token::EqualsEquals,
        Token::NotEquals => Token::NotEquals,
        Token::LessThan => Token::LessThan,
        Token::LessThanEquals => Token::LessThanEquals,
        Token::GreaterThan => Token::GreaterThan,
        Token::GreaterThanEquals => Token::GreaterThanEquals,
        Token::LogicalAnd => Token::LogicalAnd,
        Token::LogicalOr => Token::LogicalOr,
        Token::LogicalNot => Token::LogicalNot,
        Token::LeftParen => Token::LeftParen,
        Token::RightParen => Token::RightParen,
        Token::LeftSquareBracket => Token::LeftSquareBracket,
        Token::RightSquareBracket => Token::RightSquareBracket,
        Token::EndOfStatement => Token::EndOfStatement,
    }
}

/// Whether `c` has the Unicode `White_Space` property.
pub uninterp spec fn unicode_whitespace(c: char) -> bool;

/// Whether `c` has the Unicode `Alphabetic` property.
pub uninterp spec fn unicode_alphabetic(c: char) -> bool;

/// Whether `c` is alphabetic or numeric in Unicode's sense.
pub uninterp spec fn unicode_alphanumeric(c: char) -> bool;

/// Whitespace: among ASCII characters tab, line feed, vertical tab, form
/// feed, carriage return and space; above ASCII the Unicode `White_Space`
/// property.
pub open spec fn is_whitespace_char(c: char) -> bool {
    if (c as u32) < 128 {
        c as u32 == 32 || (9 <= c as u32 && c as u32 <= 13)
    } else {
        unicode_whitespace(c)
    }
}

/// Alphabetic: among ASCII characters the letters `A-Z` and `a-z`; above
/// ASCII the Unicode `Alphabetic` property.
pub open spec fn is_alphabetic_char(c: char) -> bool {
    if (c as u32) < 128 {
        is_ascii_letter(c)
    } else {
        unicode_alphabetic(c)
    }
}

/// Alphanumeric: among ASCII characters the letters and the digits; above
/// ASCII alphabetic or numeric in Unicode's sense.
pub open spec fn is_alphanumeric_char(c: char) -> bool {
    if (c as u32) < 128 {
        is_ascii_letter(c) || is_ascii_digit(c)
    } else {
        unicode_alphanumeric(c)
    }
}

/// Whether `c` is whitespace.
///
/// Trusted: calls `char::is_whitespace`, which std documents as the Unicode
/// `White_Space` property; among ASCII characters that is tab, line feed,
/// vertical tab, form feed, carriage return and space. The result is named
/// `unicode_whitespace`.
#[verifier::external_body]
fn char_is_whitespace(c: char) -> (r: bool)
    ensures
        r == unicode_whitespace(c),
        r == is_whitespace_char(c),
{
    c.is_whitespace()
}

/// Whether `c` is alphabetic.
///
/// Trusted: calls `char::is_alphabetic`, which std documents as the Unicode
/// `Alphabetic` property; among ASCII characters that is the letters `A-Z`
/// and `a-z`. The result is named `unicode_alphabetic`; an alphabetic
/// character is also alphanumeric, as std documents `is_alphanumeric`.
#[verifier::external_body]
fn char_is_alphabetic(c: char) -> (r: bool)
    ensures
        r == unicode_alphabetic(c),
        r == is_alphabetic_char(c),
        r ==> unicode_alphanumeric(c),
{
    c.is_alphabetic()
}

/// Whether `c` is alphanumeric.
///
/// Trusted: calls `char::is_alphanumeric`, which std documents as
/// `is_alphabetic() || is_numeric()`; among ASCII characters that is the
/// letters and the digits. The result is named `unicode_alphanumeric`.
#[verifier::external_body]
fn char_is_alphanumeric(c: char) -> (r: bool)
    ensures
        r == unicode_alphanumeric(c),
        r == is_alphanumeric_char(c),
{
    c.is_alphanumeric()
}

/// An ASCII letter.
pub open spec fn is_ascii_letter(c: char) -> bool {
    (65 <= c as u32 && c as u32 <= 90) || (97 <= c as u32 && c as u32 <= 122)
}

/// A decimal digit, as `char::is_digit(10)` decides it.
pub open spec fn is_ascii_digit(c: char) -> bool {
    48 <= c as u32 && c as u32 <= 57
}

/// Whether `c` is a decimal digit.
fn is_decimal_digit(c: char) -> (r: bool)
    ensures
        r == is_ascii_digit(c),
{
    let v = c as u32;
    48 <= v && v <= 57
}

/// `s` occurs in `input` at `p`.
pub open spec fn starts_at(input: Seq<char>, p: int, s: Seq<char>) -> bool {
    0 <= p && p + s.len() <= input.len() && input.subrange(p, p + s.len()) == s
}

/// The first position at or after `p` that is not whitespace.
pub open spec fn skip_ws(input: Seq<char>, p: int) -> int
    decreases input.len() - p,
{
    if 0 <= p < input.len() && is_whitespace_char(input[p]) {
        skip_ws(input, p + 1)
    } else {
        p
    }
}

/// Skipping whitespace from inside the input stays inside it, moves forward
/// and stops at a non-whitespace character or the end.
pub proof fn lemma_skip_ws_bounds(input: Seq<char>, p: int)
    requires
        0 <= p <= input.len(),
    ensures
        p <= skip_ws(input, p) <= input.len(),
        skip_ws(input, skip_ws(input, p)) == skip_ws(input, p),
        skip_ws(input, p) < input.len() ==> !is_whitespace_char(input[skip_ws(input, p)]),
    decreases input.len() - p,
{
    if p < input.len() && is_whitespace_char(input[p]) {
        lemma_skip_ws_bounds(input, p + 1);
    }
}


/// The character that `\c` stands for in a directive string literal.
pub open spec fn unescape(c: char) -> char {
    if c == 'n' {
        '\n'
    } else if c == 't' {
        '\t'
    } else if c == 'r' {
        '\r'
    } else {
        c
    }
}

/// Reading a directive string literal from `i` on, with `acc` read so far:
/// the text and the position after the closing quote (or the end of input).
pub open spec fn string_from(input: Seq<char>, i: int, acc: Seq<char>) -> (Seq<char>, int)
    decreases input.len() - i,
{
    if i < 0 || i >= input.len() {
        (acc, i)
    } else if input[i] == '"' {
        (acc, i + 1)
    } else if input[i] == '\\' {
        if i + 1 >= input.len() {
            (acc, i + 1)
        } else {
            string_from(input, i + 2, acc.push(unescape(input[i + 1])))
        }
    } else {
        string_from(input, i + 1, acc.push(input[i]))
    }
}

/// How a character is written inside a directive string literal: a line
/// feed, a tab and a carriage return as `\n`, `\t` and `\r`, a quote and a
/// backslash behind a backslash, any other character as itself.
pub open spec fn literal_char_text(c: char) -> Seq<char> {
    if c == '\n' {
        seq!['\\', 'n']
    } else if c == '\t' {
        seq!['\\', 't']
    } else if c == '\r' {
        seq!['\\', 'r']
    } else if c == '"' || c == '\\' {
        seq!['\\', c]
    } else {
        seq![c]
    }
}

/// The text `s` written inside a directive string literal, character by
/// character (see `literal_char_text`).
pub open spec fn literal_text(s: Seq<char>) -> Seq<char>
    decreases s.len(),
{
    if s.len() == 0 {
        Seq::empty()
    } else {
        literal_char_text(s[0]) + literal_text(s.drop_first())
    }
}

/// Reading the written text of `s` followed by the closing quote, from `i`
/// on with `acc` read so far, gives `acc + s` and the position past the
/// quote.
proof fn lemma_string_from_literal_text(input: Seq<char>, i: int, acc: Seq<char>, s: Seq<char>)
    requires
        0 <= i,
        i + literal_text(s).len() < input.len(),
        input.subrange(i, i + literal_text(s).len()) == literal_text(s),
        input[i + literal_text(s).len()] == '"',
    ensures
        string_from(input, i, acc) == (acc + s, i + literal_text(s).len() + 1),
    decreases s.len(),
{
    if s.len() == 0 {
        assert(acc + s =~= acc);
    } else {
        let c = s[0];
        let e1 = literal_char_text(c);
        let r = s.drop_first();
        let n = literal_text(s).len() as int;
        assert(literal_text(s) == e1 + literal_text(r));
        assert(input[i] == input.subrange(i, i + n)[0]);
        assert(input.subrange(i + e1.len(), i + n) =~= literal_text(r)) by {
            assert forall|k: int| 0 <= k < literal_text(r).len() implies input.subrange(i + e1.len(), i + n)[k]
                == literal_text(r)[k] by {
                assert(input.subrange(i, i + n)[e1.len() + k] == literal_text(s)[e1.len() + k]);
            }
        }
        if e1.len() == 2 {
            assert(input[i + 1] == input.subrange(i, i + n)[1]);
        }
        lemma_string_from_literal_text(input, i + e1.len(), acc.push(c), r);
        assert(acc.push(c) + r =~= acc + s);
    }
}

/// Law: a directive string literal reads back as the text it was written
/// from: for every text `s` (line feeds, tabs, carriage returns, quotes and
/// backslashes escaped), the literal `"` + its written text + `"`, followed by
/// anything, lexes as the string `s`, ending past the closing quote.
pub proof fn law_string_literal_reads_written_text(s: Seq<char>, rest: Seq<char>)
    ensures
        string_token(seq!['"'] + literal_text(s) + seq!['"'] + rest, 0) == (
            TokenView::Object(LiteralView::Str(s)),
            literal_text(s).len() + 2int,
        ),
{
    let input = seq!['"'] + literal_text(s) + seq!['"'] + rest;
    let n = literal_text(s).len() as int;
    assert(input.subrange(1, 1 + n) =~= literal_text(s));
    assert(input[1 + n] == '"');
    lemma_string_from_literal_text(input, 1, Seq::empty(), s);
    assert(Seq::<char>::empty() + s =~= s);
}

/// `lex_string` at `p`: the first character (the opening quote) is skipped.
pub open spec fn string_token(input: Seq<char>, p: int) -> (TokenView, int) {
    let (text, end) = if p < input.len() {
        string_from(input, p + 1, Seq::empty())
    } else {
        string_from(input, p, Seq::empty())
    };
    (TokenView::Object(LiteralView::Str(text)), end)
}

/// The end of a run of digits and (if `dot` is false, one) `.` from `i` on.
pub open spec fn number_end(input: Seq<char>, i: int, dot: bool) -> int
    decreases input.len() - i,
{
    if 0 <= i < input.len() && (is_ascii_digit(input[i]) || (input[i] == '.' && !dot)) {
        number_end(input, i + 1, dot || input[i] == '.')
    } else {
        i
    }
}

/// Some character of `text` is a decimal digit.
pub open spec fn has_digit(text: Seq<char>) -> bool {
    exists|k: int| 0 <= k < text.len() && #[trigger] is_ascii_digit(text[k])
}

/// `lex_number` at `p`: an optional `-`, then digits and at most one `.`.
///
/// Text with a digit is a number literal (it then parses as a float);
/// text without one is returned as an identifier.
pub open spec fn number_token(input: Seq<char>, p: int) -> (TokenView, int) {
    let q = if 0 <= p < input.len() && input[p] == '-' {
        p + 1
    } else {
        p
    };
    let e = number_end(input, q, false);
    let text = input.subrange(p, e);
    if has_digit(text) {
        (TokenView::Object(LiteralView::Number(text)), e)
    } else {
        (TokenView::Identifier(text), e)
    }
}

/// The end of a run of alphanumeric characters and `_` from `i` on.
pub open spec fn word_end(input: Seq<char>, i: int) -> int
    decreases input.len() - i,
{
    if 0 <= i < input.len() && (is_alphanumeric_char(input[i]) || input[i] == '_') {
        word_end(input, i + 1)
    } else {
        i
    }
}

/// The token of a reserved word, or `None` for other words.
pub open spec fn keyword_token(word: Seq<char>) -> Option<TokenView> {
    if word == "true"@ {
        Some(TokenView::Object(LiteralView::Boolean(true)))
    } else if word == "false"@ {
        Some(TokenView::Object(LiteralView::Boolean(false)))
    } else if word == "template"@ {
        Some(TokenView::TemplateKeyword)
    } else if word == "insert"@ {
        Some(TokenView::InsertKeyword)
    } else if word == "block"@ {
        Some(TokenView::BlockKeyword)
    } else if word == "endblock"@ {
        Some(TokenView::EndBlockKeyword)
    } else if word == "export"@ {
        Some(TokenView::ExportKeyword)
    } else if word == "placeholder"@ {
        Some(TokenView::PlaceholderKeyword)
    } else if word == "let"@ {
        Some(TokenView::LetKeyword)
    } else if word == "for"@ {
        Some(TokenView::ForKeyword)
    } else if word == "in"@ {
        Some(TokenView::InKeyword)
    } else if word == "if"@ {
        Some(TokenView::IfKeyword)
    } else if word == "output"@ {
        Some(TokenView::OutputKeyword)
    } else if word == "endif"@ {
        Some(TokenView::EndIfKeyword)
    } else if word == "endfor"@ {
        Some(TokenView::EndForKeyword)
    } else if word == "while"@ {
        Some(TokenView::WhileKeyword)
    } else if word == "endwhile"@ {
        Some(TokenView::EndWhileKeyword)
    } else if word == "del"@ {
        Some(TokenView::DelKeyword)
    } else if word == "match"@ {
        Some(TokenView::MatchKeyword)
    } else if word == "endmatch"@ {
        Some(TokenView::EndMatchKeyword)
    } else if word == "case"@ {
        Some(TokenView::CaseKeyword)
    } else if word == "endcase"@ {
        Some(TokenView::EndCaseKeyword)
    } else {
        None
    }
}

/// `lex_identifier_or_keyword` at `p`.
pub open spec fn word_token(input: Seq<char>, p: int) -> (TokenView, int) {
    let e = word_end(input, p);
    let word = input.subrange(p, e);
    match keyword_token(word) {
        Some(t) => (t, e),
        None => (TokenView::Identifier(word), e),
    }
}


/// The operator spelled by the two characters `a`, `b`, if any.
pub open spec fn two_char_op(a: char, b: char) -> Option<TokenView> {
    if a == '=' && b == '=' {
        Some(TokenView::EqualsEquals)
    } else if a == '!' && b == '=' {
        Some(TokenView::NotEquals)
    } else if a == '<' && b == '=' {
        Some(TokenView::LessThanEquals)
    } else if a == '>' && b == '=' {
        Some(TokenView::GreaterThanEquals)
    } else if a == '+' && b == '=' {
        Some(TokenView::PlusAssignment)
    } else if a == '-' && b == '=' {
        Some(TokenView::MinusAssignment)
    } else if a == '*' && b == '=' {
        Some(TokenView::MultiplyAssignment)
    } else if a == '/' && b == '=' {
        Some(TokenView::DivideAssignment)
    } else if a == '%' && b == '=' {
        Some(TokenView::ModulusAssignment)
    } else if a == '+' && b == '+' {
        Some(TokenView::Increment)
    } else if a == '-' && b == '-' {
        Some(TokenView::Decrement)
    } else if a == '*' && b == '*' {
        Some(TokenView::Exponent)
    } else if a == '&' && b == '&' {
        Some(TokenView::LogicalAnd)
    } else if a == '|' && b == '|' {
        Some(TokenView::LogicalOr)
    } else {
        None
    }
}

/// The token of a single character; an unrecognized character becomes an
/// identifier of that character.
pub open spec fn single_char_token(c: char) -> TokenView {
    if c == '=' {
        TokenView::Assignment
    } else if c == '+' {
        TokenView::Plus
    } else if c == '-' {
        TokenView::Minus
    } else if c == '*' {
        TokenView::Multiply
    } else if c == '/' {
        TokenView::Divide
    } else if c == '%' {
        TokenView::Modulus
    } else if c == '<' {
        TokenView::LessThan
    } else if c == '>' {
        TokenView::GreaterThan
    } else if c == '!' {
        TokenView::LogicalNot
    } else if c == '(' {
        TokenView::LeftParen
    } else if c == ')' {
        TokenView::RightParen
    } else if c == '[' {
        TokenView::LeftSquareBracket
    } else if c == ']' {
        TokenView::RightSquareBracket
    } else if c == '.' {
        TokenView::Dot
    } else {
        TokenView::Identifier(seq![c])
    }
}

/// The directive closing marker `]-`.
pub open spec fn closing_marker() -> Seq<char> {
    seq![']', '-']
}

/// The directive opening marker `-[`.
pub open spec fn opening_marker() -> Seq<char> {
    seq!['-', '[']
}

/// `lex_directive_token` at `p0`: skip whitespace, then a string, a number,
/// a word, a two-character operator or a single character; at `]-` or at
/// the end of input, the end of the statement (nothing consumed).
pub open spec fn directive_token(input: Seq<char>, p0: int) -> (TokenView, int) {
    let p = skip_ws(input, p0);
    if starts_at(input, p, closing_marker()) || p < 0 || p >= input.len() {
        (TokenView::EndOfStatement, p)
    } else {
        let ch = input[p];
        if ch == '"' {
            string_token(input, p)
        } else if is_ascii_digit(ch) || (ch == '-' && p + 1 < input.len() && is_ascii_digit(
            input[p + 1],
        )) {
            number_token(input, p)
        } else if is_alphabetic_char(ch) || ch == '_' {
            word_token(input, p)
        } else if p + 1 < input.len() && two_char_op(ch, input[p + 1]) is Some {
            (two_char_op(ch, input[p + 1])->0, p + 2)
        } else {
            (single_char_token(ch), p + 1)
        }
    }
}

/// The tokens of a directive body from `p` (just after whitespace) up to
/// `]-` or the end of input, and the position where they stop.
///
/// Each token consumes input; the recursion also stops where one would not.
pub open spec fn directive_body(input: Seq<char>, p: int) -> (Seq<TokenView>, int)
    decreases input.len() - p,
{
    if 0 <= p < input.len() && !starts_at(input, p, closing_marker()) {
        let (t, p2) = directive_token(input, p);
        let p3 = skip_ws(input, p2);
        if p < p3 <= input.len() {
            let (rest, e) = directive_body(input, p3);
            (seq![t] + rest, e)
        } else {
            (seq![t], p3)
        }
    } else {
        (Seq::empty(), p)
    }
}

/// `lex_directive` at `p0` (just after `-[`): the tokens up to `]-`, the
/// marker consumed if present, then an end of statement.
pub open spec fn directive_tokens(input: Seq<char>, p0: int) -> (Seq<TokenView>, int) {
    let (toks, e) = directive_body(input, skip_ws(input, p0));
    let end = if starts_at(input, e, closing_marker()) {
        e + 2
    } else {
        e
    };
    (toks.push(TokenView::EndOfStatement), end)
}

/// The end of HTML text from `i` on: the next `-[` or the end of input.
pub open spec fn html_end(input: Seq<char>, i: int) -> int
    decreases input.len() - i,
{
    if 0 <= i < input.len() && !starts_at(input, i, opening_marker()) {
        html_end(input, i + 1)
    } else {
        i
    }
}

/// The views of a sequence of tokens.
pub open spec fn token_views(tokens: Seq<Token>) -> Seq<TokenView> {
    tokens.map_values(|t: Token| t@)
}

/// A directive body that starts inside the input ends inside it, not before
/// its start.
pub proof fn lemma_directive_body_bounds(input: Seq<char>, p: int)
    requires
        0 <= p <= input.len(),
    ensures
        p <= directive_body(input, p).1 <= input.len(),
    decreases input.len() - p,
{
    if 0 <= p < input.len() && !starts_at(input, p, closing_marker()) {
        let (t, p2) = directive_token(input, p);
        let p3 = skip_ws(input, p2);
        if p < p3 <= input.len() {
            lemma_directive_body_bounds(input, p3);
        } else {
            lemma_directive_token_bounds(input, p);
            lemma_skip_ws_bounds(input, p2);
        }
    }
}

/// A directive token that starts inside the input ends inside it.
pub proof fn lemma_directive_token_bounds(input: Seq<char>, p0: int)
    requires
        0 <= p0 <= input.len(),
    ensures
        p0 <= directive_token(input, p0).1 <= input.len(),
{
    let p = skip_ws(input, p0);
    lemma_skip_ws_bounds(input, p0);
    if starts_at(input, p, closing_marker()) || p < 0 || p >= input.len() {
    } else {
        let ch = input[p];
        if ch == '"' {
            lemma_string_from_bounds(input, p + 1, Seq::empty());
        } else if is_ascii_digit(ch) || (ch == '-' && p + 1 < input.len() && is_ascii_digit(
            input[p + 1],
        )) {
            let q = if input[p] == '-' {
                p + 1
            } else {
                p
            };
            lemma_number_end_bounds(input, q, false);
        } else if is_alphabetic_char(ch) || ch == '_' {
            lemma_word_end_bounds(input, p);
        }
    }
}

/// A string literal that starts inside the input ends inside it.
pub proof fn lemma_string_from_bounds(input: Seq<char>, i: int, acc: Seq<char>)
    requires
        0 <= i <= input.len(),
    ensures
        i <= string_from(input, i, acc).1 <= input.len(),
    decreases input.len() - i,
{
    if i < input.len() && input[i] != '"' {
        if input[i] == '\\' {
            if i + 1 < input.len() {
                lemma_string_from_bounds(input, i + 2, acc.push(unescape(input[i + 1])));
            }
        } else {
            lemma_string_from_bounds(input, i + 1, acc.push(input[i]));
        }
    }
}

/// A number run that starts inside the input ends inside it.
pub proof fn lemma_number_end_bounds(input: Seq<char>, i: int, dot: bool)
    requires
        0 <= i <= input.len(),
    ensures
        i <= number_end(input, i, dot) <= input.len(),
    decreases input.len() - i,
{
    if i < input.len() && (is_ascii_digit(input[i]) || (input[i] == '.' && !dot)) {
        lemma_number_end_bounds(input, i + 1, dot || input[i] == '.');
    }
}

/// A word run that starts inside the input ends inside it.
pub proof fn lemma_word_end_bounds(input: Seq<char>, i: int)
    requires
        0 <= i <= input.len(),
    ensures
        i <= word_end(input, i) <= input.len(),
    decreases input.len() - i,
{
    if i < input.len() && (is_alphanumeric_char(input[i]) || input[i] == '_') {
        lemma_word_end_bounds(input, i + 1);
    }
}

/// HTML text that starts inside the input ends inside it, after at least
/// one character when no `-[` starts it.
pub proof fn lemma_html_end_bounds(input: Seq<char>, i: int)
    requires
        0 <= i <= input.len(),
    ensures
        i <= html_end(input, i) <= input.len(),
        i < input.len() && !starts_at(input, i, opening_marker()) ==> i < html_end(input, i),
    decreases input.len() - i,
{
    if i < input.len() && !starts_at(input, i, opening_marker()) {
        lemma_html_end_bounds(input, i + 1);
    }
}

/// The tokens of the whole input from `p` on: HTML text between directives,
/// and the tokens of each directive.
pub open spec fn tokens_from(input: Seq<char>, p: int) -> Seq<TokenView>
    decreases input.len() - p,
{
    if p < 0 || p >= input.len() {
        Seq::empty()
    } else if starts_at(input, p, opening_marker()) {
        let (d, e) = directive_tokens(input, p + 2);
        proof {
            lemma_skip_ws_bounds(input, p + 2);
            lemma_directive_body_bounds(input, skip_ws(input, p + 2));
        }
        d + tokens_from(input, e)
    } else {
        let e = html_end(input, p);
        proof {
            lemma_html_end_bounds(input, p);
        }
        seq![TokenView::HtmlContent(input.subrange(p, e))] + tokens_from(input, e)
    }
}

/// The template source and a read position (in characters).
pub struct Lexer {
    input: Vec<char>,
    pos: usize,
}

impl View for Lexer {
    /// The source characters and the read position.
    type V = (Seq<char>, int);

    closed spec fn view(&self) -> (Seq<char>, int) {
        (self.input@, self.pos as int)
    }
}

impl Lexer {
    #[verifier::type_invariant]
    closed spec fn wf(&self) -> bool {
        self.pos <= self.input.len()
    }

    /// A lexer at the start of `input`.
    pub fn new(input: String) -> (l: Self)
        ensures
            l@ == (input@, 0int),
    {
        let mut chars: Vec<char> = Vec::new();
        proof {
            broadcast use vstd::string::axiom_spec_iter;
        }
        for c in it: input.as_str().chars()
            invariant
                it.seq() == input@,
                chars@ == input@.take(it.index()),
        {
            chars.push(c);
            assert(chars@ =~= input@.take(it.index() + 1));
        }
        assert(input@.take(input@.len() as int) =~= input@);
        Lexer { input: chars, pos: 0 }
    }

    /// The next character, not consumed.
    pub fn peek(&self) -> (c: Option<char>)
        ensures
            self@.1 < self@.0.len() ==> c == Some(self@.0[self@.1]),
            self@.1 >= self@.0.len() ==> c is None,
    {
        if self.pos < self.input.len() {
            Some(self.input[self.pos])
        } else {
            None
        }
    }

    /// Whether the input from the read position on starts with `s`.
    pub fn peek_str(&self, s: &str) -> (b: bool)
        ensures
            b == starts_at(self@.0, self@.1, s@),
    {
        proof {
            use_type_invariant(self);
        }
        let n = s.unicode_len();
        if n > self.input.len() - self.pos {
            return false;
        }
        let mut k: usize = 0;
        while k < n
            invariant
                n == s@.len(),
                self.pos + n <= self.input.len(),
                0 <= k <= n,
                forall|j: int| 0 <= j < k ==> self.input@[self.pos + j] == s@[j],
            decreases n - k,
        {
            if self.input[self.pos + k] != s.get_char(k) {
                assert(self.input@.subrange(self.pos as int, self.pos + n)[k as int] != s@[k as int]);
                return false;
            }
            k = k + 1;
        }
        assert(self.input@.subrange(self.pos as int, self.pos + n) =~= s@);
        true
    }

    /// Whether the input from the read position on starts with `a` then `b`.
    fn peek_pair(&self, a: char, b: char) -> (r: bool)
        ensures
            r == starts_at(self@.0, self@.1, seq![a, b]),
            r == (self@.1 + 1 < self@.0.len() && self@.0[self@.1] == a && self@.0[self@.1 + 1]
                == b),
    {
        proof {
            use_type_invariant(self);
        }
        if self.input.len() - self.pos < 2 {
            return false;
        }
        let r = self.input[self.pos] == a && self.input[self.pos + 1] == b;
        proof {
            let sub = self.input@.subrange(self.pos as int, self.pos + 2);
            if r {
                assert(sub =~= seq![a, b]);
            } else {
                assert(sub[0] != a || sub[1] != b);
            }
        }
        r
    }

    /// Consume and return the next character.
    pub fn next_char(&mut self) -> (c: Option<char>)
        ensures
            final(self)@.0 == old(self)@.0,
            old(self)@.1 < old(self)@.0.len() ==> c == Some(old(self)@.0[old(self)@.1])
                && final(self)@.1 == old(self)@.1 + 1,
            old(self)@.1 >= old(self)@.0.len() ==> c is None && final(self)@.1 == old(self)@.1,
    {
        if self.pos < self.input.len() {
            let c = self.input[self.pos];
            self.pos = self.pos + 1;
            Some(c)
        } else {
            None
        }
    }

    /// Advance past whitespace.
    pub fn skip_whitespace(&mut self)
        ensures
            final(self)@ == (old(self)@.0, skip_ws(old(self)@.0, old(self)@.1)),
    {
        proof {
            use_type_invariant(&*self);
        }
        while self.pos < self.input.len() && char_is_whitespace(self.input[self.pos])
            invariant
                self.input@ == old(self)@.0,
                old(self)@.1 <= self.pos <= self.input@.len(),
                skip_ws(self.input@, self.pos as int) == skip_ws(old(self)@.0, old(self)@.1),
            decreases self.input@.len() - self.pos,
        {
            self.pos = self.pos + 1;
        }
    }

    /// Whether the character after the next one is a decimal digit.
    pub fn peek_next_is_digit(&self) -> (b: bool)
        ensures
            b == (self@.1 + 1 < self@.0.len() && is_ascii_digit(self@.0[self@.1 + 1])),
    {
        proof {
            use_type_invariant(self);
        }
        if self.input.len() - self.pos >= 2 {
            is_decimal_digit(self.input[self.pos + 1])
        } else {
            false
        }
    }

    /// The characters `start..end` of the source as a `String`.
    fn text_between(&self, start: usize, end: usize) -> (t: String)
        requires
            start <= end <= self@.0.len(),
        ensures
            t@ == self@.0.subrange(start as int, end as int),
    {
        let mut t = String::new();
        let mut k: usize = start;
        while k < end
            invariant
                start <= k <= end <= self.input@.len(),
                t@ == self.input@.subrange(start as int, k as int),
            decreases end - k,
        {
            push_char(&mut t, self.input[k]);
            k = k + 1;
            assert(t@ =~= self.input@.subrange(start as int, k as int));
        }
        t
    }

    /// Whether the characters `start..end` of the source spell `word`.
    fn spells(&self, start: usize, end: usize, word: &str) -> (r: bool)
        requires
            start <= end <= self@.0.len(),
        ensures
            r == (self@.0.subrange(start as int, end as int) == word@),
    {
        let n = word.unicode_len();
        if n != end - start {
            return false;
        }
        let mut k: usize = 0;
        while k < n
            invariant
                n == word@.len(),
                start + n == end <= self.input@.len(),
                0 <= k <= n,
                forall|j: int| 0 <= j < k ==> self.input@[start + j] == word@[j],
            decreases n - k,
        {
            if self.input[start + k] != word.get_char(k) {
                assert(self.input@.subrange(start as int, end as int)[k as int] != word@[k as int]);
                return false;
            }
            k = k + 1;
        }
        assert(self.input@.subrange(start as int, end as int) =~= word@);
        true
    }

    /// Lex a string literal: skip the opening quote, decode `\n`, `\t`,
    /// `\r` (any other escaped character stands for itself), up to the
    /// closing quote or the end of input.
    pub fn lex_string(&mut self) -> (t: Token)
        ensures
            final(self)@.0 == old(self)@.0,
            (t@, final(self)@.1) == string_token(old(self)@.0, old(self)@.1),
    {
        proof {
            use_type_invariant(&*self);
        }
        self.next_char();
        let ghost start = self.pos as int;
        let mut s = String::new();
        loop
            invariant
                self.input@ == old(self)@.0,
                self.pos <= self.input@.len(),
                start == (if old(self)@.1 < old(self)@.0.len() {
                    old(self)@.1 + 1
                } else {
                    old(self)@.1
                }),
                string_from(self.input@, self.pos as int, s@) == string_from(
                    self.input@,
                    start,
                    Seq::empty(),
                ),
            decreases self.input@.len() - self.pos,
        {
            match self.next_char() {
                None => {
                    return Token::Object(Literal::Str(s));
                },
                Some(ch) => {
                    if ch == '"' {
                        return Token::Object(Literal::Str(s));
                    }
                    if ch == '\\' {
                        match self.next_char() {
                            Some(escaped) => {
                                let c = if escaped == 'n' {
                                    '\n'
                                } else if escaped == 't' {
                                    '\t'
                                } else if escaped == 'r' {
                                    '\r'
                                } else {
                                    escaped
                                };
                                push_char(&mut s, c);
                            },
                            None => {
                                return Token::Object(Literal::Str(s));
                            },
                        }
                    } else {
                        push_char(&mut s, ch);
                    }
                },
            }
        }
    }

    /// Lex a number: an optional `-`, then digits and at most one `.`. Text
    /// without a digit comes back as an identifier.
    pub fn lex_number(&mut self) -> (t: Token)
        ensures
            final(self)@.0 == old(self)@.0,
            (t@, final(self)@.1) == number_token(old(self)@.0, old(self)@.1),
    {
        proof {
            use_type_invariant(&*self);
        }
        let start = self.pos;
        let mut dot_encountered = false;
        let mut seen_digit = false;
        if self.peek() == Some('-') {
            self.next_char();
        }
        let ghost q = self.pos as int;
        while self.pos < self.input.len() && (is_decimal_digit(self.input[self.pos]) || (
        self.input[self.pos] == '.' && !dot_encountered))
            invariant
                self.input@ == old(self)@.0,
                start == old(self)@.1,
                start <= q <= self.pos <= self.input@.len(),
                q == (if start < self.input@.len() && self.input@[start as int] == '-' {
                    start + 1
                } else {
                    start as int
                }),
                number_end(self.input@, self.pos as int, dot_encountered) == number_end(
                    self.input@,
                    q,
                    false,
                ),
                seen_digit == has_digit(self.input@.subrange(start as int, self.pos as int)),
            decreases self.input@.len() - self.pos,
        {
            let ch = self.input[self.pos];
            let ghost before = self.input@.subrange(start as int, self.pos as int);
            if ch == '.' {
                dot_encountered = true;
            } else {
                seen_digit = true;
            }
            self.pos = self.pos + 1;
            proof {
                let after = self.input@.subrange(start as int, self.pos as int);
                assert(after =~= before.push(ch));
                if has_digit(before) {
                    let k = choose|k: int| 0 <= k < before.len() && #[trigger] is_ascii_digit(before[k]);
                    assert(is_ascii_digit(after[k]));
                }
                if is_ascii_digit(ch) {
                    assert(is_ascii_digit(after[after.len() - 1]));
                }
            }
        }
        let text = self.text_between(start, self.pos);
        if seen_digit {
            Token::Object(Literal::Number(text))
        } else {
            Token::Identifier(text)
        }
    }

    /// Lex an identifier (alphanumeric characters and `_`), or the keyword
    /// or boolean literal it spells.
    pub fn lex_identifier_or_keyword(&mut self) -> (t: Token)
        ensures
            final(self)@.0 == old(self)@.0,
            (t@, final(self)@.1) == word_token(old(self)@.0, old(self)@.1),
    {
        proof {
            use_type_invariant(&*self);
        }
        let start = self.pos;
        while self.pos < self.input.len() && (char_is_alphanumeric(self.input[self.pos])
            || self.input[self.pos] == '_')
            invariant
                self.input@ == old(self)@.0,
                start == old(self)@.1,
                start <= self.pos <= self.input@.len(),
                word_end(self.input@, self.pos as int) == word_end(self.input@, start as int),
            decreases self.input@.len() - self.pos,
        {
            self.pos = self.pos + 1;
        }
        let end = self.pos;
        if self.spells(start, end, "true") {
            return Token::Object(Literal::Boolean(true));
        } else if self.spells(start, end, "false") {
            return Token::Object(Literal::Boolean(false));
        }
        if self.spells(start, end, "template") {
            Token::TemplateKeyword
        } else if self.spells(start, end, "insert") {
            Token::InsertKeyword
        } else if self.spells(start, end, "block") {
            Token::BlockKeyword
        } else if self.spells(start, end, "endblock") {
            Token::EndBlockKeyword
        } else if self.spells(start, end, "export") {
            Token::ExportKeyword
        } else if self.spells(start, end, "placeholder") {
            Token::PlaceholderKeyword
        } else if self.spells(start, end, "let") {
            Token::LetKeyword
        } else if self.spells(start, end, "for") {
            Token::ForKeyword
        } else if self.spells(start, end, "in") {
            Token::InKeyword
        } else if self.spells(start, end, "if") {
            Token::IfKeyword
        } else if self.spells(start, end, "output") {
            Token::OutputKeyword
        } else if self.spells(start, end, "endif") {
            Token::EndIfKeyword
        } else if self.spells(start, end, "endfor") {
            Token::EndForKeyword
        } else if self.spells(start, end, "while") {
            Token::WhileKeyword
        } else if self.spells(start, end, "endwhile") {
            Token::EndWhileKeyword
        } else if self.spells(start, end, "del") {
            Token::DelKeyword
        } else if self.spells(start, end, "match") {
            Token::MatchKeyword
        } else if self.spells(start, end, "endmatch") {
            Token::EndMatchKeyword
        } else if self.spells(start, end, "case") {
            Token::CaseKeyword
        } else if self.spells(start, end, "endcase") {
            Token::EndCaseKeyword
        } else {
            Token::Identifier(self.text_between(start, end))
        }
    }

    /// Lex one token inside a directive (see `directive_token`).
    pub fn lex_directive_token(&mut self) -> (t: Token)
        ensures
            final(self)@.0 == old(self)@.0,
            (t@, final(self)@.1) == directive_token(old(self)@.0, old(self)@.1),
            ({
                let p = skip_ws(old(self)@.0, old(self)@.1);
                p < old(self)@.0.len() && !starts_at(old(self)@.0, p, closing_marker()) ==> p
                    < final(self)@.1
            }),
    {
        self.skip_whitespace();
        proof {
            use_type_invariant(&*self);
        }
        if self.peek_pair(']', '-') {
            return Token::EndOfStatement;
        }
        let ch = match self.peek() {
            Some(ch) => ch,
            None => {
                return Token::EndOfStatement;
            },
        };
        let ghost input = self.input@;
        let ghost p = self.pos as int;
        if ch == '"' {
            let t = self.lex_string();
            proof {
                lemma_string_from_bounds(input, p + 1, Seq::empty());
            }
            return t;
        }
        if is_decimal_digit(ch) || (ch == '-' && self.peek_next_is_digit()) {
            let t = self.lex_number();
            proof {
                if ch == '-' {
                    lemma_number_end_bounds(input, p + 1, false);
                } else {
                    lemma_number_end_bounds(input, p + 1, false);
                    assert(number_end(input, p, false) == number_end(input, p + 1, false));
                }
            }
            return t;
        }
        if char_is_alphabetic(ch) || ch == '_' {
            let t = self.lex_identifier_or_keyword();
            proof {
                lemma_word_end_bounds(input, p + 1);
            }
            return t;
        }
        if self.peek_pair('=', '=') {
            self.pos = self.pos + 2;
            return Token::EqualsEquals;
        }
        if self.peek_pair('!', '=') {
            self.pos = self.pos + 2;
            return Token::NotEquals;
        }
        if self.peek_pair('<', '=') {
            self.pos = self.pos + 2;
            return Token::LessThanEquals;
        }
        if self.peek_pair('>', '=') {
            self.pos = self.pos + 2;
            return Token::GreaterThanEquals;
        }
        if self.peek_pair('+', '=') {
            self.pos = self.pos + 2;
            return Token::PlusAssignment;
        }
        if self.peek_pair('-', '=') {
            self.pos = self.pos + 2;
            return Token::MinusAssignment;
        }
        if self.peek_pair('*', '=') {
            self.pos = self.pos + 2;
            return Token::MultiplyAssignment;
        }
        if self.peek_pair('/', '=') {
            self.pos = self.pos + 2;
            return Token::DivideAssignment;
        }
        if self.peek_pair('%', '=') {
            self.pos = self.pos + 2;
            return Token::ModulusAssignment;
        }
        if self.peek_pair('+', '+') {
            self.pos = self.pos + 2;
            return Token::Increment;
        }
        if self.peek_pair('-', '-') {
            self.pos = self.pos + 2;
            return Token::Decrement;
        }
        if self.peek_pair('*', '*') {
            self.pos = self.pos + 2;
            return Token::Exponent;
        }
        if self.peek_pair('&', '&') {
            self.pos = self.pos + 2;
            return Token::LogicalAnd;
        }
        if self.peek_pair('|', '|') {
            self.pos = self.pos + 2;
            return Token::LogicalOr;
        }
        self.pos = self.pos + 1;
        if ch == '=' {
            Token::Assignment
        } else if ch == '+' {
            Token::Plus
        } else if ch == '-' {
            Token::Minus
        } else if ch == '*' {
            Token::Multiply
        } else if ch == '/' {
            Token::Divide
        } else if ch == '%' {
            Token::Modulus
        } else if ch == '<' {
            Token::LessThan
        } else if ch == '>' {
            Token::GreaterThan
        } else if ch == '!' {
            Token::LogicalNot
        } else if ch == '(' {
            Token::LeftParen
        } else if ch == ')' {
            Token::RightParen
        } else if ch == '[' {
            Token::LeftSquareBracket
        } else if ch == ']' {
            Token::RightSquareBracket
        } else if ch == '.' {
            Token::Dot
        } else {
            let mut name = String::new();
            push_char(&mut name, ch);
            assert(name@ =~= seq![ch]);
            Token::Identifier(name)
        }
    }

    /// Lex a directive body, after its `-[`: the tokens up to `]-` (consumed
    /// if present) and then an end of statement.
    pub fn lex_directive(&mut self) -> (tokens: Vec<Token>)
        ensures
            final(self)@.0 == old(self)@.0,
            (token_views(tokens@), final(self)@.1) == directive_tokens(old(self)@.0, old(self)@.1),
    {
        let mut tokens: Vec<Token> = Vec::new();
        proof {
            use_type_invariant(&*self);
            lemma_skip_ws_bounds(self.input@, self.pos as int);
        }
        self.skip_whitespace();
        let ghost start = self.pos as int;
        while self.pos < self.input.len() && !self.peek_pair(']', '-')
            invariant
                self.input@ == old(self)@.0,
                start <= self.pos <= self.input@.len(),
                self.pos == skip_ws(self.input@, self.pos as int),
                token_views(tokens@) + directive_body(self.input@, self.pos as int).0
                    == directive_body(self.input@, start).0,
                directive_body(self.input@, self.pos as int).1 == directive_body(
                    self.input@,
                    start,
                ).1,
            decreases self.input@.len() - self.pos,
        {
            let ghost p = self.pos as int;
            let token = self.lex_directive_token();
            let ghost p2 = self.pos as int;
            tokens.push(token);
            self.skip_whitespace();
            proof {
                lemma_directive_token_bounds(self.input@, p);
                lemma_skip_ws_bounds(self.input@, p2);
                assert(p2 == directive_token(self.input@, p).1);
                assert(token_views(tokens@) =~= token_views(tokens@.drop_last()).push(token@));
            }
        }
        if self.peek_pair(']', '-') {
            self.pos = self.pos + 2;
        }
        tokens.push(Token::EndOfStatement);
        proof {
            assert(token_views(tokens@) =~= token_views(tokens@.drop_last()).push(
                TokenView::EndOfStatement,
            ));
        }
        tokens
    }
}

/// Tokenize a whole template source: HTML text outside directives becomes
/// `HtmlContent`, each `-[ ... ]-` directive its tokens and an end of
/// statement.
pub fn tokenize_string(input: String) -> (tokens: Vec<Token>)
    ensures
        token_views(tokens@) == tokens_from(input@, 0),
{
    let mut lexer = Lexer::new(input);
    let mut tokens: Vec<Token> = Vec::new();
    assert(token_views(tokens@) =~= Seq::<TokenView>::empty());
    while lexer.pos < lexer.input.len()
        invariant
            lexer.input@ == input@,
            lexer.pos <= input@.len(),
            token_views(tokens@) + tokens_from(input@, lexer.pos as int) == tokens_from(input@, 0),
        decreases input@.len() - lexer.pos,
    {
        let ghost p = lexer.pos as int;
        let ghost before = token_views(tokens@);
        if lexer.peek_pair('-', '[') {
            lexer.pos = lexer.pos + 2;
            let mut directive = lexer.lex_directive();
            let ghost d = token_views(directive@);
            tokens.append(&mut directive);
            proof {
                lemma_skip_ws_bounds(input@, p + 2);
                lemma_directive_body_bounds(input@, skip_ws(input@, p + 2));
                assert(token_views(tokens@) =~= before + d);
                assert(before + d + tokens_from(input@, lexer.pos as int) =~= before + (d
                    + tokens_from(input@, lexer.pos as int)));
            }
        } else {
            let start = lexer.pos;
            proof {
                lemma_html_end_bounds(input@, p);
            }
            while lexer.pos < lexer.input.len() && !lexer.peek_pair('-', '[')
                invariant
                    lexer.input@ == input@,
                    start <= lexer.pos <= input@.len(),
                    html_end(input@, lexer.pos as int) == html_end(input@, start as int),
                decreases input@.len() - lexer.pos,
            {
                lexer.pos = lexer.pos + 1;
            }
            let html = lexer.text_between(start, lexer.pos);
            if lexer.pos > start {
                tokens.push(Token::HtmlContent(html));
            }
            proof {
                assert(token_views(tokens@) =~= before.push(
                    TokenView::HtmlContent(input@.subrange(p, lexer.pos as int)),
                ));
            }
        }
    }
    tokens
}

/// Tokenize a whole template source given as anything that converts into a
/// `String` (see `tokenize_string`): the tokens are those of the converted
/// text (for a `&str` or a `String`, the same characters).
pub fn tokenize<S: Into<String>>(input: S) -> (tokens: Vec<Token>)
    ensures
        exists|s: String|
            call_ensures(<S as Into<String>>::into, (input,), s) && token_views(tokens@)
                == tokens_from(s@, 0),
{
    let s = input.into();
    tokenize_string(s)
}

/// With no `-[` from `i` on, HTML text runs to the end of the input.
proof fn lemma_html_end_without_marker(input: Seq<char>, i: int)
    requires
        0 <= i <= input.len(),
        forall|k: int| i <= k < input.len() ==> !starts_at(input, k, opening_marker()),
    ensures
        html_end(input, i) == input.len(),
    decreases input.len() - i,
{
    if i < input.len() {
        lemma_html_end_without_marker(input, i + 1);
    }
}

/// Law: text without a directive marker `-[` is kept whole: it tokenizes to
/// one `HtmlContent` token holding all of it (no token for empty text).
pub proof fn law_plain_text_is_one_html_token(input: Seq<char>)
    requires
        forall|k: int| 0 <= k < input.len() ==> !starts_at(input, k, opening_marker()),
    ensures
        input.len() == 0 ==> tokens_from(input, 0) == Seq::<TokenView>::empty(),
        input.len() > 0 ==> tokens_from(input, 0) == seq![TokenView::HtmlContent(input)],
{
    if input.len() > 0 {
        lemma_html_end_without_marker(input, 0);
        assert(input.subrange(0, input.len() as int) =~= input);
        assert(tokens_from(input, input.len() as int) == Seq::<TokenView>::empty());
        assert(seq![TokenView::HtmlContent(input)] + Seq::<TokenView>::empty() =~= seq![
            TokenView::HtmlContent(input),
        ]);
    }
}

/// Law: every directive's tokens end with an end of statement, and lexing
/// it never moves backwards.
pub proof fn law_directive_ends_statement(input: Seq<char>, p: int)
    requires
        0 <= p <= input.len(),
    ensures
        directive_tokens(input, p).0.len() > 0,
        directive_tokens(input, p).0.last() == TokenView::EndOfStatement,
        p <= directive_tokens(input, p).1 <= input.len(),
{
    lemma_skip_ws_bounds(input, p);
    lemma_directive_body_bounds(input, skip_ws(input, p));
}

/// The text of the `HtmlContent` tokens, joined in order.
pub open spec fn html_text(t: Seq<TokenView>) -> Seq<char>
    decreases t.len(),
{
    if t.len() == 0 {
        Seq::empty()
    } else {
        (match t[0] {
            TokenView::HtmlContent(s) => s,
            _ => Seq::empty(),
        }) + html_text(t.drop_first())
    }
}

/// The input from `p` on with every directive taken out: each span from a
/// `-[` up to the end of the directive as the lexer reads it (past its
/// closing `]-`, or to the end of the input when it is not closed).
pub open spec fn outside_directives(input: Seq<char>, p: int) -> Seq<char>
    decreases input.len() - p,
{
    if p < 0 || p >= input.len() {
        Seq::empty()
    } else if starts_at(input, p, opening_marker()) {
        proof {
            law_directive_ends_statement(input, p + 2);
        }
        outside_directives(input, directive_tokens(input, p + 2).1)
    } else {
        seq![input[p]] + outside_directives(input, p + 1)
    }
}

/// Joining the HTML text distributes over concatenation.
proof fn lemma_html_text_concat(a: Seq<TokenView>, b: Seq<TokenView>)
    ensures
        html_text(a + b) == html_text(a) + html_text(b),
    decreases a.len(),
{
    if a.len() == 0 {
        assert(a + b =~= b);
    } else {
        assert((a + b).drop_first() =~= a.drop_first() + b);
        lemma_html_text_concat(a.drop_first(), b);
    }
}

/// Tokens without `HtmlContent` hold no HTML text.
proof fn lemma_html_text_none(t: Seq<TokenView>)
    requires
        forall|i: int| 0 <= i < t.len() ==> !(t[i] is HtmlContent),
    ensures
        html_text(t) == Seq::<char>::empty(),
    decreases t.len(),
{
    if t.len() > 0 {
        assert forall|i: int| 0 <= i < t.drop_first().len() implies !(
        t.drop_first()[i] is HtmlContent) by {
            assert(t.drop_first()[i] == t[i + 1]);
        }
        lemma_html_text_none(t.drop_first());
    }
}

/// A directive yields no `HtmlContent` token.
proof fn lemma_directive_body_no_html(input: Seq<char>, p: int)
    ensures
        forall|i: int|
            0 <= i < directive_body(input, p).0.len() ==> !(
            #[trigger] directive_body(input, p).0[i] is HtmlContent),
    decreases input.len() - p,
{
    if 0 <= p < input.len() && !starts_at(input, p, closing_marker()) {
        let (t, p2) = directive_token(input, p);
        let p3 = skip_ws(input, p2);
        assert(!(t is HtmlContent));
        if p < p3 <= input.len() {
            lemma_directive_body_no_html(input, p3);
            let rest = directive_body(input, p3).0;
            assert forall|i: int| 0 <= i < (seq![t] + rest).len() implies !((seq![t]
                + rest)[i] is HtmlContent) by {
                if i > 0 {
                    assert((seq![t] + rest)[i] == rest[i - 1]);
                }
            }
        }
    }
}

/// A directive's tokens hold no HTML text, and the first one is no
/// `HtmlContent` token.
proof fn lemma_directive_tokens_no_html(input: Seq<char>, p: int)
    requires
        0 <= p <= input.len(),
    ensures
        forall|i: int|
            0 <= i < directive_tokens(input, p).0.len() ==> !(
            #[trigger] directive_tokens(input, p).0[i] is HtmlContent),
        html_text(directive_tokens(input, p).0) == Seq::<char>::empty(),
{
    let body = directive_body(input, skip_ws(input, p)).0;
    lemma_directive_body_no_html(input, skip_ws(input, p));
    let d = directive_tokens(input, p).0;
    assert(d == body.push(TokenView::EndOfStatement));
    assert forall|i: int| 0 <= i < d.len() implies !(#[trigger] d[i] is HtmlContent) by {
        if i < body.len() {
            assert(d[i] == body[i]);
        }
    }
    lemma_html_text_none(d);
}

/// HTML text up to the next `-[` stands whole at the front of the input
/// with the directives taken out.
proof fn lemma_outside_html(input: Seq<char>, p: int)
    requires
        0 <= p <= input.len(),
    ensures
        outside_directives(input, p) == input.subrange(p, html_end(input, p)) + outside_directives(
            input,
            html_end(input, p),
        ),
    decreases input.len() - p,
{
    lemma_html_end_bounds(input, p);
    if p < input.len() && !starts_at(input, p, opening_marker()) {
        lemma_outside_html(input, p + 1);
        lemma_html_end_bounds(input, p + 1);
        let e = html_end(input, p);
        assert(input.subrange(p, e) =~= seq![input[p]] + input.subrange(p + 1, e));
    } else {
        assert(input.subrange(p, p) =~= Seq::<char>::empty());
    }
}

/// The tokens from `p` on: their HTML text is the input with the directives
/// taken out; no `HtmlContent` token is empty; no two are adjacent; and at a
/// `-[` the first token is no `HtmlContent` token.
proof fn lemma_tokens_html(input: Seq<char>, p: int)
    requires
        0 <= p <= input.len(),
    ensures
        html_text(tokens_from(input, p)) == outside_directives(input, p),
        forall|i: int|
            0 <= i < tokens_from(input, p).len() && #[trigger] tokens_from(input, p)[i] is HtmlContent
                ==> tokens_from(input, p)[i]->HtmlContent_0.len() > 0,
        forall|i: int|
            0 <= i < tokens_from(input, p).len() - 1 && #[trigger] tokens_from(input, p)[i] is HtmlContent
                ==> !(tokens_from(input, p)[i + 1] is HtmlContent),
        p < input.len() && starts_at(input, p, opening_marker()) ==> tokens_from(input, p).len() > 0
            && !(tokens_from(input, p)[0] is HtmlContent),
    decreases input.len() - p,
{
    let t = tokens_from(input, p);
    if p < input.len() {
        if starts_at(input, p, opening_marker()) {
            law_directive_ends_statement(input, p + 2);
            lemma_directive_tokens_no_html(input, p + 2);
            let (d, e) = directive_tokens(input, p + 2);
            lemma_tokens_html(input, e);
            let r = tokens_from(input, e);
            assert(t == d + r);
            lemma_html_text_concat(d, r);
            assert(html_text(d) + html_text(r) =~= html_text(r));
            assert forall|i: int| 0 <= i < t.len() && #[trigger] t[i] is HtmlContent implies t[i]->HtmlContent_0.len() > 0 by {
                if i < d.len() {
                    assert(t[i] == d[i]);
                } else {
                    assert(t[i] == r[i - d.len()]);
                }
            }
            assert forall|i: int| 0 <= i < t.len() - 1 && #[trigger] t[i] is HtmlContent implies !(t[i + 1] is HtmlContent) by {
                if i < d.len() {
                    assert(t[i] == d[i]);
                } else {
                    assert(t[i] == r[i - d.len()]);
                    assert(t[i + 1] == r[i + 1 - d.len()]);
                }
            }
            assert(t[0] == d[0]);
        } else {
            lemma_html_end_bounds(input, p);
            let e = html_end(input, p);
            lemma_tokens_html(input, e);
            lemma_outside_html(input, p);
            let r = tokens_from(input, e);
            let h = TokenView::HtmlContent(input.subrange(p, e));
            assert(t == seq![h] + r);
            assert(t.drop_first() =~= r);
            assert(html_text(t) == input.subrange(p, e) + html_text(r));
            // HTML text stops at a `-[` or at the end.
            if e < input.len() {
                assert(starts_at(input, e, opening_marker())) by {
                    lemma_html_end_stops(input, p);
                }
            }
            assert forall|i: int| 0 <= i < t.len() && #[trigger] t[i] is HtmlContent implies t[i]->HtmlContent_0.len() > 0 by {
                if i > 0 {
                    assert(t[i] == r[i - 1]);
                }
            }
            assert forall|i: int| 0 <= i < t.len() - 1 && #[trigger] t[i] is HtmlContent implies !(t[i + 1] is HtmlContent) by {
                assert(t[i + 1] == r[i]);
                if i > 0 {
                    assert(t[i] == r[i - 1]);
                }
            }
        }
    }
}

/// HTML text stops only at a `-[` or at the end of the input.
proof fn lemma_html_end_stops(input: Seq<char>, p: int)
    requires
        0 <= p <= input.len(),
    ensures
        html_end(input, p) < input.len() ==> starts_at(input, html_end(input, p), opening_marker()),
    decreases input.len() - p,
{
    if p < input.len() && !starts_at(input, p, opening_marker()) {
        lemma_html_end_stops(input, p + 1);
    }
}

/// Tokenizing keeps the text: the `HtmlContent` tokens, joined in order,
/// are the input with every directive taken out (from its `-[` past its
/// closing `]-`, or to the end when it is not closed); no `HtmlContent`
/// token is empty, and no two of them are adjacent.
pub proof fn law_tokenize_keeps_text(input: Seq<char>)
    ensures
        html_text(tokens_from(input, 0)) == outside_directives(input, 0),
        forall|i: int|
            0 <= i < tokens_from(input, 0).len() && #[trigger] tokens_from(input, 0)[i] is HtmlContent
                ==> tokens_from(input, 0)[i]->HtmlContent_0.len() > 0,
        forall|i: int|
            0 <= i < tokens_from(input, 0).len() - 1 && #[trigger] tokens_from(input, 0)[i] is HtmlContent
                ==> !(tokens_from(input, 0)[i + 1] is HtmlContent),
{
    lemma_tokens_html(input, 0);
}

} // verus!
