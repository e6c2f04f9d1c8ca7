//! Template inheritance on token streams.
use akari::lexer::{get_operator_precedence, Literal};
use akari::template_blocks::{
    collect_blocks_and_metadata, create_template_with_blocks, extract_blocks,
    extract_parent_template_name, find_insertion, find_matching_end, merge_blocks, Blocks,
    NestedStatement,
};
use akari::{tokenize, Token};

fn html(s: &str) -> Token {
    Token::HtmlContent(s.to_string())
}

fn ident(s: &str) -> Token {
    Token::Identifier(s.to_string())
}

fn string(s: &str) -> Token {
    Token::Object(Literal::Str(s.to_string()))
}

/// `block name ; body... endblock`
fn block(name: &str, body: Vec<Token>) -> Vec<Token> {
    let mut v = vec![Token::BlockKeyword, ident(name), Token::EndOfStatement];
    v.extend(body);
    v.push(Token::EndBlockKeyword);
    v
}

#[test]
fn parent_name_is_the_string_after_the_first_template_keyword() {
    let tokens = vec![html("a"), Token::TemplateKeyword, string("base.html"), Token::EndOfStatement];
    assert_eq!(extract_parent_template_name(&tokens), Some("base.html".to_string()));
    let tokens = vec![Token::TemplateKeyword, ident("x"), Token::TemplateKeyword, string("b")];
    assert_eq!(extract_parent_template_name(&tokens), None);
    assert_eq!(extract_parent_template_name(&[html("no parent")]), None);
    let parsed = tokenize(r#"-[ template "base.html" ]-<p>hi</p>"#);
    assert_eq!(extract_parent_template_name(&parsed), Some("base.html".to_string()));
}

#[test]
fn blocks_are_extracted_with_nesting_and_later_ones_replace_earlier() {
    let mut tokens = vec![html("top")];
    tokens.extend(block("a", vec![html("A1")]));
    let mut inner = vec![html("B1")];
    inner.extend(block("c", vec![html("C")]));
    inner.push(html("B2"));
    tokens.extend(block("b", inner.clone()));
    tokens.extend(block("a", vec![html("A2")]));
    let blocks = extract_blocks(&tokens).unwrap();
    assert_eq!(blocks.get(&"a".to_string()), Some(&vec![html("A2")]));
    assert_eq!(blocks.get(&"b".to_string()), Some(&inner));
    // A nested block is part of its parent's tokens, not a block of its own.
    assert_eq!(blocks.get(&"c".to_string()), None);
}

#[test]
fn unterminated_block_is_an_error() {
    let tokens = vec![Token::BlockKeyword, ident("main"), Token::EndOfStatement, html("x")];
    assert_eq!(extract_blocks(&tokens).err(), Some("Unterminated block: main".to_string()));
}

#[test]
fn child_blocks_override_parent_blocks() {
    let mut parent = vec![Token::TemplateKeyword, string("root"), html("<h1>")];
    parent.extend(block("title", vec![html("Parent title")]));
    parent.push(html("</h1>"));
    parent.extend(block("body", vec![html("Parent body")]));

    let mut child = vec![Token::TemplateKeyword, string("base")];
    child.extend(block("body", vec![html("Child body")]));

    let merged = merge_blocks(extract_blocks(&parent).unwrap(), &extract_blocks(&child).unwrap());
    assert_eq!(merged.get(&"title".to_string()), Some(&vec![html("Parent title")]));
    assert_eq!(merged.get(&"body".to_string()), Some(&vec![html("Child body")]));

    let out = create_template_with_blocks(&parent, &merged).unwrap();
    let mut expected = vec![html("<h1>")];
    expected.extend(block("title", vec![html("Parent title")]));
    expected.push(html("</h1>"));
    expected.extend(block("body", vec![html("Child body")]));
    assert_eq!(out, expected);
}

#[test]
fn a_block_missing_from_the_map_is_left_empty() {
    let mut tokens = vec![html("x")];
    tokens.extend(block("side", vec![html("old")]));
    let out = create_template_with_blocks(&tokens, &Blocks::new()).unwrap();
    assert_eq!(
        out,
        vec![html("x"), Token::BlockKeyword, ident("side"), Token::EndOfStatement, Token::EndBlockKeyword]
    );
}

#[test]
fn insertions_are_found_after_the_end_of_their_directive() {
    let tokens = vec![
        html("a"),
        Token::InsertKeyword,
        string("nav.html"),
        Token::EndOfStatement,
        html("b"),
        Token::InsertKeyword,
        ident("not a string"),
        Token::EndOfStatement,
        Token::InsertKeyword,
        string("footer.html"),
    ];
    assert_eq!(find_insertion(&tokens, 0), Some(("nav.html".to_string(), 3)));
    assert_eq!(find_insertion(&tokens, 2), None);
    assert_eq!(find_insertion(&tokens, 4), None);
}

#[test]
fn first_pass_collects_name_blocks_and_export_mode() {
    let mut tokens = vec![Token::TemplateKeyword, string("base.html"), Token::EndOfStatement, html("x")];
    tokens.extend(block("title", vec![html("T")]));
    tokens.push(Token::ExportKeyword);
    tokens.push(Token::EndOfStatement);
    let meta = collect_blocks_and_metadata(&tokens).unwrap();
    assert_eq!(meta.template_name, Some("base.html".to_string()));
    assert_eq!(meta.blocks.get(&"title".to_string()), Some(&vec![html("T")]));
    assert!(meta.export_mode);

    let plain = collect_blocks_and_metadata(&[html("only text")]).unwrap();
    assert_eq!(plain.template_name, None);
    assert!(!plain.export_mode);
}

#[test]
fn first_pass_errors() {
    assert_eq!(
        collect_blocks_and_metadata(&[Token::TemplateKeyword, ident("x")]).err(),
        Some("Expected string after template keyword".to_string())
    );
    assert_eq!(
        collect_blocks_and_metadata(&[Token::BlockKeyword, html("x")]).err(),
        Some("Expected identifier after block keyword".to_string())
    );
    assert_eq!(
        collect_blocks_and_metadata(&[Token::BlockKeyword, ident("b"), html("x")]).err(),
        Some("Unterminated block: b".to_string())
    );
}

#[test]
fn operator_precedence_orders_operators() {
    let tokens = vec![
        Token::LogicalOr,
        Token::LogicalAnd,
        Token::EqualsEquals,
        Token::LessThan,
        Token::Plus,
        Token::Modulus,
        Token::Exponent,
        Token::Dot,
        Token::LeftSquareBracket,
        html("x"),
    ];
    let got: Vec<u8> = (0..tokens.len() + 1).map(|i| get_operator_precedence(&tokens, i)).collect();
    assert_eq!(got, vec![10, 20, 30, 40, 50, 60, 70, 90, 90, 0, 0]);
}

#[test]
fn matching_end_counts_nested_statements() {
    let tokens = vec![
        Token::IfKeyword,
        ident("a"),
        Token::IfKeyword,
        ident("b"),
        Token::EndIfKeyword,
        html("x"),
        Token::EndIfKeyword,
        html("after"),
    ];
    // The body of the outer `if` starts at 1; its `endif` is at 6.
    assert_eq!(find_matching_end(&tokens, 1, NestedStatement::If), 7);
    // The inner one closes at 4.
    assert_eq!(find_matching_end(&tokens, 3, NestedStatement::If), 5);
    // Other kinds of statement are not counted.
    assert_eq!(find_matching_end(&tokens, 1, NestedStatement::For), tokens.len());
    let loops = vec![Token::ForKeyword, Token::EndForKeyword, Token::EndForKeyword, Token::WhileKeyword, Token::EndWhileKeyword];
    assert_eq!(find_matching_end(&loops, 0, NestedStatement::For), 3);
    assert_eq!(find_matching_end(&loops, 4, NestedStatement::While), 5);
    assert_eq!(find_matching_end(&loops, 9, NestedStatement::While), 9);
}
