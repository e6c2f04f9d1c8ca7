//! The template lexer.
use akari::lexer::{tokenize, tokenize_string, Lexer, Literal, Token};

#[test]
fn parse_test_tokenize() {
    let input = r#"
        -[ template "template.html" ]-
        -[ block header ]-
            <script src="pmine.org"></script>
        -[ endblock ]-

        -[ block body ]-
            -[ let a = 1 ]-
            -[ for str in list ]-
                -[ if (a % 2 == 0) ]- 
                    -[ output str ]- 
                -[ endif ]- 
                -[ a = a + 1 ]-
            -[ endfor ]-
        -[ endblock ]- 
        "#;
    let tokens = tokenize(input);
    println!("{:?}", tokens);
}

fn ident(s: &str) -> Token {
    Token::Identifier(s.to_string())
}

fn html(s: &str) -> Token {
    Token::HtmlContent(s.to_string())
}

#[test]
fn tokenize_html_and_directives() {
    let tokens = tokenize("<p>-[ let a = 1 ]-</p>");
    assert_eq!(
        tokens,
        vec![
            html("<p>"),
            Token::LetKeyword,
            ident("a"),
            Token::Assignment,
            Token::Object(Literal::Number("1".to_string())),
            Token::EndOfStatement,
            html("</p>"),
        ]
    );
}

#[test]
fn tokenize_plain_text_is_one_html_token() {
    assert_eq!(tokenize(String::from("just text")), vec![html("just text")]);
    assert_eq!(tokenize(""), Vec::<Token>::new());
}

#[test]
fn tokenize_operators_and_literals() {
    let tokens = tokenize_string(
        "-[ if (x.y[0] >= -2.5 && !b || c != \"q\\\"\\n\") ]--[ n += 1 ]-".to_string(),
    );
    assert_eq!(
        tokens,
        vec![
            Token::IfKeyword,
            Token::LeftParen,
            ident("x"),
            Token::Dot,
            ident("y"),
            Token::LeftSquareBracket,
            Token::Object(Literal::Number("0".to_string())),
            Token::RightSquareBracket,
            Token::GreaterThanEquals,
            Token::Object(Literal::Number("-2.5".to_string())),
            Token::LogicalAnd,
            Token::LogicalNot,
            ident("b"),
            Token::LogicalOr,
            ident("c"),
            Token::NotEquals,
            Token::Object(Literal::Str("q\"\n".to_string())),
            Token::RightParen,
            Token::EndOfStatement,
            ident("n"),
            Token::PlusAssignment,
            Token::Object(Literal::Number("1".to_string())),
            Token::EndOfStatement,
        ]
    );
}

#[test]
fn tokenize_all_two_character_operators() {
    let tokens = tokenize("-[ == != <= >= += -= *= /= %= ++ -- ** && || ]-");
    assert_eq!(
        tokens,
        vec![
            Token::EqualsEquals,
            Token::NotEquals,
            Token::LessThanEquals,
            Token::GreaterThanEquals,
            Token::PlusAssignment,
            Token::MinusAssignment,
            Token::MultiplyAssignment,
            Token::DivideAssignment,
            Token::ModulusAssignment,
            Token::Increment,
            Token::Decrement,
            Token::Exponent,
            Token::LogicalAnd,
            Token::LogicalOr,
            Token::EndOfStatement,
        ]
    );
}

#[test]
fn tokenize_single_characters_and_unknowns() {
    let tokens = tokenize("-[ = + - * / % < > ! ( ) [ ] . @ ]-");
    assert_eq!(
        tokens,
        vec![
            Token::Assignment,
            Token::Plus,
            Token::Minus,
            Token::Multiply,
            Token::Divide,
            Token::Modulus,
            Token::LessThan,
            Token::GreaterThan,
            Token::LogicalNot,
            Token::LeftParen,
            Token::RightParen,
            Token::LeftSquareBracket,
            Token::RightSquareBracket,
            Token::Dot,
            ident("@"),
            Token::EndOfStatement,
        ]
    );
}

#[test]
fn tokenize_keywords_and_booleans() {
    let tokens = tokenize(
        "-[ template insert block endblock export placeholder let for in if output endif endfor while endwhile del match endmatch case endcase true false _x ]-",
    );
    assert_eq!(
        tokens,
        vec![
            Token::TemplateKeyword,
            Token::InsertKeyword,
            Token::BlockKeyword,
            Token::EndBlockKeyword,
            Token::ExportKeyword,
            Token::PlaceholderKeyword,
            Token::LetKeyword,
            Token::ForKeyword,
            Token::InKeyword,
            Token::IfKeyword,
            Token::OutputKeyword,
            Token::EndIfKeyword,
            Token::EndForKeyword,
            Token::WhileKeyword,
            Token::EndWhileKeyword,
            Token::DelKeyword,
            Token::MatchKeyword,
            Token::EndMatchKeyword,
            Token::CaseKeyword,
            Token::EndCaseKeyword,
            Token::Object(Literal::Boolean(true)),
            Token::Object(Literal::Boolean(false)),
            ident("_x"),
            Token::EndOfStatement,
        ]
    );
}

#[test]
fn tokenize_unterminated_directive_still_ends_statement() {
    assert_eq!(tokenize("-[ let"), vec![Token::LetKeyword, Token::EndOfStatement]);
    assert_eq!(tokenize("-["), vec![Token::EndOfStatement]);
    assert_eq!(tokenize("-[ \"open"), vec![Token::Object(Literal::Str("open".to_string())), Token::EndOfStatement]);
}

#[test]
fn lexer_primitives() {
    let mut lexer = Lexer::new("  ab1 \"x\\ty\" -7. 1.2.3".to_string());
    assert_eq!(lexer.peek(), Some(' '));
    lexer.skip_whitespace();
    assert!(lexer.peek_str("ab"));
    assert!(!lexer.peek_str("abc"));
    assert!(!lexer.peek_next_is_digit());
    assert_eq!(lexer.lex_identifier_or_keyword(), ident("ab1"));
    lexer.skip_whitespace();
    assert_eq!(lexer.lex_string(), Token::Object(Literal::Str("x\ty".to_string())));
    lexer.skip_whitespace();
    assert!(lexer.peek_next_is_digit());
    assert_eq!(lexer.lex_number(), Token::Object(Literal::Number("-7.".to_string())));
    lexer.skip_whitespace();
    assert_eq!(lexer.lex_number(), Token::Object(Literal::Number("1.2".to_string())));
    assert_eq!(lexer.next_char(), Some('.'));
    assert_eq!(lexer.lex_directive_token(), Token::Object(Literal::Number("3".to_string())));
    assert_eq!(lexer.next_char(), None);
    assert_eq!(lexer.lex_directive_token(), Token::EndOfStatement);
}

#[test]
fn lex_number_without_digits_is_an_identifier() {
    let mut lexer = Lexer::new("-x".to_string());
    assert_eq!(lexer.lex_number(), ident("-"));
    let mut lexer = Lexer::new("x".to_string());
    assert_eq!(lexer.lex_number(), ident(""));
}

#[test]
fn lex_directive_consumes_closing_marker() {
    let mut lexer = Lexer::new(" a ]-rest".to_string());
    assert_eq!(lexer.lex_directive(), vec![ident("a"), Token::EndOfStatement]);
    assert!(lexer.peek_str("rest"));
}

#[test]
fn non_ascii_letters_form_identifiers() {
    assert_eq!(tokenize("-[ 名前 ]-"), vec![ident("名前"), Token::EndOfStatement]);
}

fn html_joined(tokens: &[Token]) -> String {
    tokens
        .iter()
        .filter_map(|t| match t {
            Token::HtmlContent(s) => Some(s.as_str()),
            _ => None,
        })
        .collect()
}

#[test]
fn tokenizing_keeps_the_text_outside_directives() {
    let input = "<p>a-[ let x = \"]-\" ]-b-[ output x ]--[ ]-c-[ unclosed";
    let tokens = tokenize(input);
    assert_eq!(html_joined(&tokens), "<p>abc");
    for w in tokens.windows(2) {
        assert!(!(matches!(w[0], Token::HtmlContent(_)) && matches!(w[1], Token::HtmlContent(_))));
    }
    assert!(tokens.iter().all(|t| !matches!(t, Token::HtmlContent(s) if s.is_empty())));
}

#[test]
fn ascii_whitespace_is_skipped_and_letters_stay() {
    let mut lexer = Lexer::new(" \t\na".to_string());
    lexer.skip_whitespace();
    assert_eq!(lexer.peek(), Some('a'));
    let mut lexer = Lexer::new("\u{85}x".to_string());
    lexer.skip_whitespace();
    assert_eq!(lexer.peek(), Some('x'));
}
