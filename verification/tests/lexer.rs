use yamlex::errors::YamlError;
use yamlex::lexer::lex;
use yamlex::types::Token;

fn id(s: &str) -> Token {
    Token::Identifier(s.to_string())
}

#[test]
fn flat_mapping_two_pairs() {
    let tokens = lex("a: 1\nb: 2\n").unwrap();
    assert_eq!(
        tokens,
        vec![id("a"), Token::Colon, id("1"), id("b"), Token::Colon, id("2")]
    );
}

#[test]
fn nested_mapping_emits_indent() {
    let tokens = lex("a:\n  b: 1\n").unwrap();
    assert_eq!(
        tokens,
        vec![id("a"), Token::Colon, Token::Indent, id("b"), Token::Colon, id("1")]
    );
}

#[test]
fn first_line_indented_rejected() {
    assert_eq!(lex(" a: 1\n"), Err(YamlError::FirstLineNotZeroIndentation));
}

#[test]
fn odd_indentation_rejected() {
    assert_eq!(lex("a:\n   b: 1\n"), Err(YamlError::InvalidIndentation));
}

#[test]
fn list_item_at_unlicensed_depth_rejected() {
    assert_eq!(lex("a:\n- 1\n"), Err(YamlError::InvalidListItemPosition));
}

#[test]
fn licensed_list_items() {
    let tokens = lex("a:\n  - 1\n  - 2\n").unwrap();
    assert_eq!(
        tokens,
        vec![
            id("a"),
            Token::Colon,
            Token::Indent,
            Token::ListItem,
            id("1"),
            Token::ListItem,
            id("2"),
        ]
    );
}

#[test]
fn tab_in_indentation_rejected() {
    assert_eq!(lex("\ta: 1\n"), Err(YamlError::InvalidIndentCharacter('\t')));
}

#[test]
fn tab_on_later_line_rejected() {
    assert_eq!(lex("a:\n\tb: 1\n"), Err(YamlError::InvalidIndentCharacter('\t')));
}

#[test]
fn retokenizing_yields_identical_tokens() {
    let input = "a:\n  - 1\n  - 2\nb: 3\n";
    assert_eq!(lex(input), lex(input));
}

#[test]
fn retokenizing_yields_identical_error() {
    let input = "a:\n- 1\n";
    assert_eq!(lex(input), lex(input));
}

#[test]
fn dedent_emitted_on_return_to_shallower_depth() {
    let tokens = lex("a:\n  b: 1\nc: 2\n").unwrap();
    assert_eq!(
        tokens,
        vec![
            id("a"),
            Token::Colon,
            Token::Indent,
            id("b"),
            Token::Colon,
            id("1"),
            Token::Dedent,
            id("c"),
            Token::Colon,
            id("2"),
        ]
    );
}

#[test]
fn one_dedent_per_level_closed() {
    let tokens = lex("a:\n  b:\n    c: 1\nd: 2\n").unwrap();
    assert_eq!(
        tokens,
        vec![
            id("a"),
            Token::Colon,
            Token::Indent,
            id("b"),
            Token::Colon,
            Token::Indent,
            id("c"),
            Token::Colon,
            id("1"),
            Token::Dedent,
            Token::Dedent,
            id("d"),
            Token::Colon,
            id("2"),
        ]
    );
}

#[test]
fn dedents_never_exceed_indents_in_any_prefix() {
    let tokens = lex("a:\n  b:\n    c: 1\nd:\n  e: 2\nf: 3\n").unwrap();
    let mut depth: i64 = 0;
    for token in &tokens {
        match token {
            Token::Indent => depth += 1,
            Token::Dedent => depth -= 1,
            _ => {}
        }
        assert!(depth >= 0);
    }
}

#[test]
fn depth_jump_of_two_levels_rejected() {
    assert_eq!(lex("a:\n    b: 1\n"), Err(YamlError::InvalidIndentation));
}

#[test]
fn colon_with_no_key_rejected() {
    assert_eq!(lex(": 1\n"), Err(YamlError::ColonWithNoKey));
}

#[test]
fn key_with_no_colon_rejected() {
    assert_eq!(lex("abc\n"), Err(YamlError::KeyWithNoColon));
}

#[test]
fn blank_lines_are_skipped() {
    let tokens = lex("a: 1\n\n\nb: 2\n").unwrap();
    assert_eq!(
        tokens,
        vec![id("a"), Token::Colon, id("1"), id("b"), Token::Colon, id("2")]
    );
}

#[test]
fn comment_truncates_a_line() {
    let tokens = lex("a: 1 # note\n").unwrap();
    assert_eq!(tokens, vec![id("a"), Token::Colon, id("1")]);
}

#[test]
fn comment_only_line_is_skipped() {
    let tokens = lex("# heading\na: 1\n").unwrap();
    assert_eq!(tokens, vec![id("a"), Token::Colon, id("1")]);
}

#[test]
fn list_item_with_nested_mapping() {
    let tokens = lex("a:\n  - b: 1\n").unwrap();
    assert_eq!(
        tokens,
        vec![
            id("a"),
            Token::Colon,
            Token::Indent,
            Token::ListItem,
            id("b"),
            Token::Colon,
            id("1"),
        ]
    );
}

#[test]
fn only_first_colon_splits_the_line() {
    let tokens = lex("a: b:c\n").unwrap();
    assert_eq!(tokens, vec![id("a"), Token::Colon, id("b:c")]);
}

#[test]
fn colon_leading_a_value_is_content() {
    let tokens = lex("a: : b\n").unwrap();
    assert_eq!(tokens, vec![id("a"), Token::Colon, id(": b")]);
}

#[test]
fn keys_keep_inner_spaces() {
    let tokens = lex("a b: 1\n").unwrap();
    assert_eq!(tokens, vec![id("a b"), Token::Colon, id("1")]);
}

#[test]
fn indented_colon_with_no_key_rejected() {
    assert_eq!(lex("a:\n  : 1\n"), Err(YamlError::ColonWithNoKey));
}

#[test]
fn scalars_keep_inner_spaces() {
    let tokens = lex("a:\n  - foo bar\n").unwrap();
    assert_eq!(
        tokens,
        vec![id("a"), Token::Colon, Token::Indent, Token::ListItem, id("foo bar")]
    );
}

#[test]
fn value_trimmed_of_surrounding_spaces() {
    let tokens = lex("a:   1   \n").unwrap();
    assert_eq!(tokens, vec![id("a"), Token::Colon, id("1")]);
}

#[test]
fn carriage_return_line_endings_accepted() {
    let tokens = lex("a: 1\r\nb: 2\r\n").unwrap();
    assert_eq!(
        tokens,
        vec![id("a"), Token::Colon, id("1"), id("b"), Token::Colon, id("2")]
    );
}

#[test]
fn missing_final_newline_accepted() {
    let tokens = lex("a: 1").unwrap();
    assert_eq!(tokens, vec![id("a"), Token::Colon, id("1")]);
}

#[test]
fn empty_input_gives_no_tokens() {
    assert_eq!(lex(""), Ok(vec![]));
}

#[test]
fn no_trailing_dedent_flush_at_end_of_stream() {
    let tokens = lex("a:\n  b: 1\n").unwrap();
    assert_eq!(tokens.last(), Some(&id("1")));
}

#[test]
fn list_item_without_scalar() {
    let tokens = lex("a:\n  -\n").unwrap();
    assert_eq!(
        tokens,
        vec![id("a"), Token::Colon, Token::Indent, Token::ListItem]
    );
}

#[test]
fn sibling_after_nested_block_may_start_a_list() {
    let tokens = lex("a:\n  b:\n    c: 1\n  - 2\n").unwrap();
    assert_eq!(
        tokens,
        vec![
            id("a"),
            Token::Colon,
            Token::Indent,
            id("b"),
            Token::Colon,
            Token::Indent,
            id("c"),
            Token::Colon,
            id("1"),
            Token::Dedent,
            Token::ListItem,
            id("2"),
        ]
    );
}
