use markup::Position;
use markup::Token;
use markup::TokenType;
use markup::TokenizeError;
use markup::Tokenizer;

fn lex(input: &str) -> Vec<(TokenType, String, Position)> {
    let mut t = Tokenizer::new(input.to_string());
    t.tokenize().expect("lexing succeeds");
    t.tokens()
        .iter()
        .map(|tok: &Token| (tok.token_type, tok.content.clone(), tok.position))
        .collect()
}

fn lex_err(input: &str) -> TokenizeError {
    let mut t = Tokenizer::new(input.to_string());
    t.tokenize().expect_err("lexing fails")
}

fn pos(line: usize, col: usize) -> Position {
    Position { line, col }
}

#[test]
fn tokens_carry_kinds_contents_and_positions() {
    let toks = lex("<a b=\"cd\">");
    assert_eq!(toks.len(), 6);
    assert_eq!(toks[0], (TokenType::LeftAngle, "<".to_string(), pos(0, 0)));
    assert_eq!(toks[1], (TokenType::Identifier, "a".to_string(), pos(0, 1)));
    assert_eq!(toks[2], (TokenType::Identifier, "b".to_string(), pos(0, 3)));
    assert_eq!(toks[3], (TokenType::Equals, "=".to_string(), pos(0, 4)));
    assert_eq!(toks[4], (TokenType::Literal, "cd".to_string(), pos(0, 5)));
    assert_eq!(toks[5], (TokenType::RightAngle, ">".to_string(), pos(0, 9)));
}

#[test]
fn free_text_keeps_spaces_but_not_newlines() {
    let toks = lex("ab cd\nef");
    assert_eq!(toks.len(), 2);
    assert_eq!(toks[0], (TokenType::Identifier, "ab cd".to_string(), pos(0, 0)));
    assert_eq!(toks[1], (TokenType::Identifier, "ef".to_string(), pos(1, 0)));
}

#[test]
fn identifier_inside_tag_stops_at_space() {
    let toks = lex("<ab cd>");
    assert_eq!(toks.len(), 4);
    assert_eq!(toks[1], (TokenType::Identifier, "ab".to_string(), pos(0, 1)));
    assert_eq!(toks[2], (TokenType::Identifier, "cd".to_string(), pos(0, 4)));
}

#[test]
fn comment_region_produces_zero_tokens() {
    let with_comment = lex("<a><!-- ignored --></a>");
    let without = lex("<a></a>");
    let kinds_with: Vec<TokenType> = with_comment.iter().map(|t| t.0).collect();
    let kinds_without: Vec<TokenType> = without.iter().map(|t| t.0).collect();
    assert_eq!(kinds_with, kinds_without);
    assert_eq!(with_comment.len(), 7);
}

#[test]
fn comment_interior_advances_the_position_per_character() {
    let toks = lex("<!-- c -->=");
    assert_eq!(toks.len(), 1);
    assert_eq!(toks[0], (TokenType::Equals, "=".to_string(), pos(0, 10)));
}

#[test]
fn newline_inside_a_comment_advances_the_line() {
    let toks = lex("<!--\nx-->=");
    assert_eq!(toks.len(), 1);
    assert_eq!(toks[0], (TokenType::Equals, "=".to_string(), pos(1, 4)));
}

#[test]
fn bang_and_dash_become_tokens() {
    let toks = lex("<!x->");
    assert_eq!(toks[0].0, TokenType::LeftAngle);
    assert_eq!(toks[1], (TokenType::Bang, "!".to_string(), pos(0, 1)));
    assert_eq!(toks[2].0, TokenType::Identifier);
    assert_eq!(toks[3], (TokenType::Dash, "-".to_string(), pos(0, 3)));
    assert_eq!(toks[4].0, TokenType::RightAngle);
}

#[test]
fn single_quoted_literal_is_accepted() {
    let toks = lex("<a b='cd'>");
    assert_eq!(toks[4], (TokenType::Literal, "cd".to_string(), pos(0, 5)));
}

#[test]
fn unterminated_comment_is_end_of_input() {
    assert_eq!(lex_err("<a><!-- open"), TokenizeError::UnexpectedEndOfFile);
}

#[test]
fn empty_literal_is_an_empty_token() {
    let toks = lex("<a b=\"\">");
    assert_eq!(toks.len(), 6);
    assert_eq!(toks[4], (TokenType::Literal, "".to_string(), pos(0, 5)));
    assert_eq!(toks[5], (TokenType::RightAngle, ">".to_string(), pos(0, 7)));
}

#[test]
fn literal_hitting_newline_is_unclosed() {
    assert_eq!(lex_err("<a b=\"c\nd\">"), TokenizeError::UnclosedLiteral);
}

#[test]
fn escaped_newline_inside_literal_is_rejected() {
    assert_eq!(lex_err("<a b=\"c\\nd\">"), TokenizeError::UnexpectedEndOfLine);
}

#[test]
fn unexpected_character_after_a_comment_keeps_the_true_position() {
    match lex_err("<!-- c -->?") {
        TokenizeError::UnexpectedChar(c, p) => {
            assert_eq!(c, '?');
            assert_eq!(p, pos(0, 10));
        },
        other => panic!("expected an unexpected-character error, got {:?}", other),
    }
}

#[test]
fn unexpected_character_is_reported_with_position() {
    match lex_err("<a ?>") {
        TokenizeError::UnexpectedChar(c, p) => {
            assert_eq!(c, '?');
            assert_eq!(p, pos(0, 3));
        },
        other => panic!("expected an unexpected-character error, got {:?}", other),
    }
}
