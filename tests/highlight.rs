use kelp::config::FileConfig;
use kelp::lexer::{scan_line, LexState};
use kelp::row::{HighlightingInfo, Row, Selection};
use kelp::token::Token;

fn config_with_keywords(words: &[&str]) -> FileConfig {
    let mut config = FileConfig::default();
    config.keywords = words.iter().map(|w| w.to_string()).collect();
    config
}

fn tokenize_lines(lines: &[&str], selection: Option<Selection>, config: &FileConfig) -> Vec<Row> {
    let mut rows: Vec<Row> = lines.iter().map(|l| Row::from_string(l.to_string())).collect();
    let n = rows.len();
    Token::tokenize(&mut rows, HighlightingInfo { selection }, 0, n, config);
    rows
}

#[test]
fn keyword_vs_identifier() {
    let config = config_with_keywords(&["if", "let"]);
    let (tokens, state) = scan_line("let x = foo(1)", LexState::Normal, &config);
    assert_eq!(
        tokens,
        vec![
            Token::Keyword(0..3),
            Token::Plain(3..4),
            Token::Identifier(4..5),
            Token::Plain(5..8),
            Token::FnCall(8..11),
            Token::Plain(11..12),
            Token::Number(12..13),
            Token::Plain(13..14),
        ]
    );
    assert_eq!(state, LexState::Normal);
    let rows = tokenize_lines(&["let x = foo(1)"], None, &config);
    assert_eq!(rows[0].tokens, tokens);
}

#[test]
fn line_comment_truncation() {
    let config = FileConfig::default();
    let (tokens, state) = scan_line("let x = 1 // stop here", LexState::Normal, &config);
    assert_eq!(tokens.last(), Some(&Token::Comment(10..22)));
    assert_eq!(tokens[tokens.len() - 2], Token::Plain(9..10));
    assert_eq!(state, LexState::Normal);
}

#[test]
fn empty_line_gives_no_span() {
    let config = FileConfig::default();
    let (tokens, state) = scan_line("", LexState::Normal, &config);
    assert!(tokens.is_empty());
    assert_eq!(state, LexState::Normal);
    let rows = tokenize_lines(&[""], None, &config);
    assert!(rows[0].tokens.is_empty());
    let (tokens, state) = scan_line("", LexState::InsideBlockComment, &config);
    assert!(tokens.is_empty());
    assert_eq!(state, LexState::InsideBlockComment);
}

#[test]
fn string_continues_on_next_line() {
    let config = FileConfig::default();
    let (first, carry) = scan_line("x = \"", LexState::Normal, &config);
    assert_eq!(
        first,
        vec![Token::Identifier(0..1), Token::Plain(1..4), Token::String(4..5)]
    );
    assert_eq!(carry, LexState::InsideString('"'));
    let (second, carry) = scan_line("still in string\"", carry, &config);
    assert_eq!(second, vec![Token::String(0..16)]);
    assert_eq!(carry, LexState::Normal);
    let rows = tokenize_lines(&["x = \"", "still in string\""], None, &config);
    assert_eq!(rows[1].tokens, vec![Token::String(0..16)]);
}

#[test]
fn block_comment_continues_on_next_line() {
    let config = FileConfig::default();
    let (first, carry) = scan_line("a /* b", LexState::Normal, &config);
    assert_eq!(
        first,
        vec![Token::Identifier(0..1), Token::Plain(1..2), Token::Comment(2..6)]
    );
    assert_eq!(carry, LexState::InsideBlockComment);
    let (second, carry) = scan_line("c */ d", carry, &config);
    assert_eq!(
        second,
        vec![Token::Comment(0..4), Token::Plain(4..5), Token::Identifier(5..6)]
    );
    assert_eq!(carry, LexState::Normal);
}

#[test]
fn disabled_highlighting_gives_one_plain_span() {
    let mut config = config_with_keywords(&["let"]);
    config.syntax_highlighting_disabled = true;
    let rows = tokenize_lines(&["let x = \"a\" // c", "/* 12"], None, &config);
    assert_eq!(rows[0].tokens, vec![Token::Plain(0..16)]);
    assert_eq!(rows[1].tokens, vec![Token::Plain(0..5)]);
    let (_, state) = scan_line("/* open", LexState::Normal, &config);
    assert_eq!(state, LexState::Normal);
}

#[test]
fn selection_wins_over_syntax() {
    let config = config_with_keywords(&["let"]);
    let selection = Selection::new(0, 2, 0, 5);
    let rows = tokenize_lines(&["let x = 1"], Some(selection), &config);
    assert_eq!(
        rows[0].tokens,
        vec![
            Token::Keyword(0..2),
            Token::Selection(2..5),
            Token::Plain(5..8),
            Token::Number(8..9),
        ]
    );
}

#[test]
fn selection_over_several_rows() {
    let config = FileConfig::default();
    let selection = Selection::new(2, 1, 0, 3);
    let rows = tokenize_lines(&["abcdef", "gh", "ijkl"], Some(selection), &config);
    assert_eq!(
        rows[0].tokens,
        vec![Token::Identifier(0..3), Token::Selection(3..6)]
    );
    assert_eq!(rows[1].tokens, vec![Token::Selection(0..2)]);
    assert_eq!(
        rows[2].tokens,
        vec![Token::Selection(0..1), Token::Identifier(1..4)]
    );
}

#[test]
fn higher_priority_wins_overlap() {
    let mut tokens = vec![Token::Plain(0..4), Token::String(1..3)];
    Token::normalize(&mut tokens, 4);
    assert_eq!(
        tokens,
        vec![Token::Plain(0..1), Token::String(1..3), Token::Plain(3..4)]
    );
    let mut tokens = vec![Token::Comment(0..4), Token::Keyword(0..2)];
    Token::normalize(&mut tokens, 4);
    assert_eq!(tokens, vec![Token::Comment(0..4)]);
}

#[test]
fn later_span_wins_tie() {
    let mut tokens = vec![Token::Identifier(0..3), Token::Number(1..2)];
    Token::normalize(&mut tokens, 3);
    assert_eq!(
        tokens,
        vec![Token::Identifier(0..1), Token::Number(1..2), Token::Identifier(2..3)]
    );
}

#[test]
fn normalize_empty_inputs() {
    let mut tokens: Vec<Token> = vec![];
    Token::normalize(&mut tokens, 5);
    assert!(tokens.is_empty());
    let mut tokens = vec![Token::Plain(0..0)];
    Token::normalize(&mut tokens, 0);
    assert!(tokens.is_empty());
}

#[test]
fn normalize_clips_to_line() {
    let mut tokens = vec![Token::Plain(0..3), Token::Selection(1..10)];
    Token::normalize(&mut tokens, 3);
    assert_eq!(tokens, vec![Token::Plain(0..1), Token::Selection(1..3)]);
}

#[test]
fn same_tag_runs_of_different_spans_stay_apart() {
    let mut tokens = vec![Token::Plain(0..2), Token::Plain(2..4)];
    Token::normalize(&mut tokens, 4);
    assert_eq!(tokens, vec![Token::Plain(0..2), Token::Plain(2..4)]);
}

#[test]
fn escape_sequences_get_a_dim_span() {
    let config = FileConfig::default();
    let (tokens, state) = scan_line("\"a\\\"b\"", LexState::Normal, &config);
    let style = kelp::style::string_escape_style(&config);
    assert_eq!(
        tokens,
        vec![Token::String(0..6), Token::CustomStyle(2..4, style.clone())]
    );
    assert_eq!(state, LexState::Normal);
    let rows = tokenize_lines(&["\"a\\\"b\""], None, &config);
    assert_eq!(
        rows[0].tokens,
        vec![
            Token::String(0..2),
            Token::CustomStyle(2..4, style),
            Token::String(4..6),
        ]
    );
}

#[test]
fn backslash_escapes_backslash() {
    let config = FileConfig::default();
    let (tokens, state) = scan_line("'\\\\' x", LexState::Normal, &config);
    assert_eq!(tokens[0], Token::String(0..4));
    assert_eq!(tokens[1], Token::Plain(4..5));
    assert_eq!(tokens[2], Token::Identifier(5..6));
    assert_eq!(state, LexState::Normal);
}

#[test]
fn macro_and_function_call() {
    let config = FileConfig::default();
    let (tokens, _) = scan_line("println!(f(x_1))", LexState::Normal, &config);
    assert_eq!(
        tokens,
        vec![
            Token::Macro(0..7),
            Token::Plain(7..9),
            Token::FnCall(9..10),
            Token::Plain(10..11),
            Token::Identifier(11..14),
            Token::Plain(14..16),
        ]
    );
}

#[test]
fn character_offsets_on_unicode() {
    let config = FileConfig::default();
    let (tokens, _) = scan_line("é = \"ü\"", LexState::Normal, &config);
    assert_eq!(
        tokens,
        vec![Token::Identifier(0..1), Token::Plain(1..4), Token::String(4..7)]
    );
}

#[test]
fn unterminated_string_keeps_delimiter() {
    let config = FileConfig::default();
    let (tokens, state) = scan_line("a `b", LexState::Normal, &config);
    assert_eq!(tokens.last(), Some(&Token::String(2..4)));
    assert_eq!(state, LexState::InsideString('`'));
}

#[test]
fn tokenize_window_only() {
    let config = FileConfig::default();
    let mut rows: Vec<Row> = ["a", "b", "c"].iter().map(|l| Row::from_string(l.to_string())).collect();
    Token::tokenize(&mut rows, HighlightingInfo { selection: None }, 1, 1, &config);
    assert!(rows[0].tokens.is_empty());
    assert_eq!(rows[1].tokens, vec![Token::Identifier(0..1)]);
    assert!(rows[2].tokens.is_empty());
}

#[test]
fn priorities_of_tokens() {
    assert_eq!(Token::Plain(0..1).priority(), 0);
    assert_eq!(Token::Identifier(0..1).priority(), 1);
    assert_eq!(Token::Number(0..1).priority(), 1);
    assert_eq!(Token::Keyword(0..1).priority(), 2);
    assert_eq!(Token::FnCall(0..1).priority(), 3);
    assert_eq!(Token::Macro(0..1).priority(), 3);
    assert_eq!(Token::String(0..1).priority(), 5);
    assert_eq!(Token::Comment(0..1).priority(), 6);
    assert_eq!(Token::Selection(0..1).priority(), 10);
    assert_eq!(Token::CustomStyle(0..1, String::new()).priority(), 10);
}

#[test]
fn token_ranges() {
    let mut t = Token::Keyword(2..5);
    assert_eq!(t.start(), 2);
    assert_eq!(t.end(), 5);
    assert_eq!(t.get_range(), &(2..5));
    *t.get_range_mut() = 1..3;
    assert_eq!(t, Token::Keyword(1..3));
    assert_eq!(t.with_range(4, 6), Token::Keyword(4..6));
    assert_ne!(Token::Keyword(1..3), Token::Identifier(1..3));
}

#[test]
fn tokenize_styled_marks_escapes_with_given_style() {
    let config = FileConfig::default();
    let mut rows = vec![Row::from_string("'\\n'".to_string())];
    Token::tokenize_styled(&mut rows, HighlightingInfo { selection: None }, 0, 1, &config, &"dim".to_string());
    assert_eq!(
        rows[0].tokens,
        vec![
            Token::String(0..1),
            Token::CustomStyle(1..3, "dim".to_string()),
            Token::String(3..4),
        ]
    );
}

#[test]
fn scan_chars_with_given_style() {
    let config = FileConfig::default();
    let chars: Vec<char> = "\"\\t".chars().collect();
    let (tokens, state) = kelp::lexer::scan_chars(&chars, LexState::Normal, &config, &"e".to_string());
    assert_eq!(tokens, vec![Token::String(0..3), Token::CustomStyle(1..3, "e".to_string())]);
    assert_eq!(state, LexState::InsideString('"'));
}

#[test]
fn word_jumps_follow_tokens() {
    let tokens = vec![
        Token::Keyword(0..3),
        Token::Plain(3..4),
        Token::Identifier(4..9),
        Token::Plain(9..12),
        Token::Number(12..14),
    ];
    assert_eq!(kelp::navigation::word_left(&tokens, 10), 9);
    assert_eq!(kelp::navigation::word_left(&tokens, 5), 4);
    assert_eq!(kelp::navigation::word_left(&tokens, 2), 0);
    assert_eq!(kelp::navigation::word_left(&tokens, 0), 0);
    assert_eq!(kelp::navigation::word_left(&[].to_vec(), 7), 7);
    assert_eq!(kelp::navigation::word_left(&tokens, 20), 20);
    assert_eq!(kelp::navigation::word_right(&tokens, 0, 14), 3);
    assert_eq!(kelp::navigation::word_right(&tokens, 4, 14), 9);
    assert_eq!(kelp::navigation::word_right(&tokens, 12, 14), 14);
    assert_eq!(kelp::navigation::word_right(&[].to_vec(), 3, 8), 8);
}
