use kelp::config::{FileConfig, Theme};
use kelp::document::{Document, Replay};
use kelp::history::{EditDiff, LineDeleteMode, UndoRedo};
use kelp::row::{Row, Selection};
use kelp::token::Token;
use kelp::style::Style;
use kelp::utils::{char_width, pad_center, pad_center_str};

fn doc_with(lines: &[&str]) -> Document {
    let mut doc = Document::new("notes.txt".to_string());
    doc.rows = lines.iter().map(|l| Row::from_string(l.to_string())).collect();
    doc
}

fn lines(doc: &Document) -> Vec<String> {
    doc.rows.iter().map(|r| r.buf.clone()).collect()
}

#[test]
fn row_edits_by_character() {
    let mut row = Row::from_string("héllo".to_string());
    assert_eq!(row.len(), 5);
    assert_eq!(row.char_at(1), 'é');
    row.insert_char(2, 'ß');
    assert_eq!(row.buf, "héßllo");
    assert_eq!(row.remove_at(1), 'é');
    assert_eq!(row.buf, "hßllo");
    assert_eq!(row.split_at(2), ("hß".to_string(), "llo".to_string()));
    assert_eq!(row.substring(1, 3), "ßl");
    row.insert_char(5, '!');
    assert_eq!(row.buf, "hßllo!");
    assert_eq!(Row::empty().len(), 0);
}

#[test]
fn line_width_counts_tabs() {
    let config = FileConfig::default();
    assert_eq!(Row::from_string("a\tb".to_string()).line_width(&config), 6);
    assert_eq!(Row::from_string("abc".to_string()).line_width(&config), 3);
    assert_eq!(Row::from_string("日本".to_string()).line_width(&config), 4);
    assert_eq!(Row::from_string("é\t".to_string()).line_width(&config), 6);
}

#[test]
fn selection_normalize_orders_ends() {
    let mut s = Selection::new(3, 1, 1, 4);
    s.normalize();
    assert_eq!(s, Selection::new(1, 4, 3, 1));
    let mut s = Selection::new(2, 7, 2, 3);
    s.normalize();
    assert_eq!(s, Selection::new(2, 3, 2, 7));
    let mut s = Selection::new(0, 1, 0, 2);
    s.normalize();
    assert_eq!(s, Selection::new(0, 1, 0, 2));
}

#[test]
fn add_diff_drops_redone_edits() {
    let mut doc = doc_with(&["abc"]);
    doc.add_diff(EditDiff::NewLine(1));
    assert_eq!(doc.history.len(), 1);
    assert_eq!(doc.history_index, Some(0));
    doc.add_diff(EditDiff::NewLine(2));
    doc.add_diff(EditDiff::NewLine(3));
    assert_eq!(doc.history.len(), 3);
    assert_eq!(doc.history_index, Some(2));
    doc.history_index = Some(0);
    doc.add_diff(EditDiff::SplitLine(1, 0));
    assert_eq!(doc.history.len(), 2);
    assert_eq!(doc.history_index, Some(1));
    assert!(matches!(doc.history[1], EditDiff::SplitLine(1, 0)));
    doc.history_index = None;
    doc.add_diff(EditDiff::NewLine(5));
    assert_eq!(doc.history.len(), 1);
    assert_eq!(doc.history_index, Some(0));
}

#[test]
fn insert_char_undo_and_redo() {
    let mut doc = doc_with(&["ac"]);
    let diff = EditDiff::InsertChar(1, 0, 'b');
    assert_eq!(diff.apply(UndoRedo::Redo, &mut doc), (2, 0));
    assert_eq!(lines(&doc), vec!["abc"]);
    assert_eq!(diff.apply(UndoRedo::Undo, &mut doc), (1, 0));
    assert_eq!(lines(&doc), vec!["ac"]);
}

#[test]
fn delete_char_undo_and_redo() {
    let mut doc = doc_with(&["abc"]);
    let diff = EditDiff::DeleteChar(2, 0, 'b', true);
    assert_eq!(diff.apply(UndoRedo::Redo, &mut doc), (1, 0));
    assert_eq!(lines(&doc), vec!["ac"]);
    assert_eq!(diff.apply(UndoRedo::Undo, &mut doc), (2, 0));
    assert_eq!(lines(&doc), vec!["abc"]);
    let del = EditDiff::DeleteChar(2, 0, 'b', false);
    del.apply(UndoRedo::Redo, &mut doc);
    assert_eq!(del.apply(UndoRedo::Undo, &mut doc), (1, 0));
}

#[test]
fn split_and_join_lines() {
    let mut doc = doc_with(&["hello world", "next"]);
    let diff = EditDiff::SplitLine(5, 0);
    assert_eq!(diff.apply(UndoRedo::Redo, &mut doc), (0, 1));
    assert_eq!(lines(&doc), vec!["hello", " world", "next"]);
    assert_eq!(diff.apply(UndoRedo::Undo, &mut doc), (5, 0));
    assert_eq!(lines(&doc), vec!["hello world", "next"]);
}

#[test]
fn new_line_undo_and_redo() {
    let mut doc = doc_with(&["ab", "cd"]);
    let diff = EditDiff::NewLine(1);
    assert_eq!(diff.apply(UndoRedo::Redo, &mut doc), (0, 1));
    assert_eq!(lines(&doc), vec!["ab", "", "cd"]);
    assert_eq!(diff.apply(UndoRedo::Undo, &mut doc), (0, 1));
    assert_eq!(lines(&doc), vec!["ab", "cd"]);
    let mut doc = doc_with(&["ab", "x"]);
    assert_eq!(diff.apply(UndoRedo::Undo, &mut doc), (2, 0));
    assert_eq!(lines(&doc), vec!["ab"]);
}

#[test]
fn delete_line_undo_and_redo() {
    let mut doc = doc_with(&["abcd", "xyz"]);
    let whole = EditDiff::DeleteLine(1, "xyz".to_string(), LineDeleteMode::WholeLine);
    assert_eq!(whole.apply(UndoRedo::Redo, &mut doc), (4, 0));
    assert_eq!(lines(&doc), vec!["abcd"]);
    assert_eq!(whole.apply(UndoRedo::Undo, &mut doc), (0, 1));
    assert_eq!(lines(&doc), vec!["abcd", "xyz"]);
    let mut doc = doc_with(&["abcxyz"]);
    let joined = EditDiff::DeleteLine(1, "xyz".to_string(), LineDeleteMode::Joined);
    assert_eq!(joined.apply(UndoRedo::Undo, &mut doc), (0, 1));
    assert_eq!(lines(&doc), vec!["abc", "xyz"]);
}

#[test]
fn compound_edit_replays_in_order() {
    let mut doc = doc_with(&["a"]);
    let diff = EditDiff::Compound(vec![
        EditDiff::InsertChar(1, 0, 'b'),
        EditDiff::InsertChar(2, 0, 'c'),
        EditDiff::SplitLine(1, 0),
    ]);
    assert_eq!(diff.apply(UndoRedo::Redo, &mut doc), (0, 1));
    assert_eq!(lines(&doc), vec!["a", "bc"]);
    assert_eq!(diff.apply(UndoRedo::Undo, &mut doc), (1, 0));
    assert_eq!(lines(&doc), vec!["a"]);
    let empty = EditDiff::Compound(vec![]);
    assert_eq!(empty.apply(UndoRedo::Redo, &mut doc), (0, 0));
}

#[test]
fn document_names_and_screen_rows() {
    let mut doc = doc_with(&["abcdefghij", "", "abc"]);
    doc.filename = "src/dir/main.rs".to_string();
    assert_eq!(doc.display_name(), "main.rs");
    assert_eq!(doc.extension(), "rs");
    let config = FileConfig::default();
    assert_eq!(doc.visual_rows_to(4, 0, &config), 0);
    assert_eq!(doc.visual_rows_to(4, 1, &config), 3);
    assert_eq!(doc.visual_rows_to(4, 3, &config), 5);
    assert_eq!(doc.visual_rows_to(4, 10, &config), 5);
}

#[test]
fn document_tokenize_uses_its_selection() {
    let mut doc = doc_with(&["ab cd"]);
    doc.selection = Some(Selection::new(0, 4, 0, 1));
    let config = FileConfig::default();
    doc.tokenize(0, 1, &config);
    assert_eq!(
        doc.rows[0].tokens,
        vec![Token::Identifier(0..1), Token::Selection(1..4), Token::Identifier(4..5)]
    );
}

#[test]
fn padding_centres_text() {
    assert_eq!(pad_center("ab".to_string(), 6), "  ab  ");
    assert_eq!(pad_center_str("abc", 6), " abc  ");
    assert_eq!(pad_center_str("", 3), "   ");
    assert_eq!(pad_center_str("full", 4), "full");
}

#[test]
fn widths_of_characters() {
    let config = FileConfig::default();
    assert_eq!(char_width('a', &config), Some(1));
    assert_eq!(char_width('\t', &config), Some(4));
    assert_eq!(char_width('日', &config), Some(2));
}

#[test]
fn styles_of_tokens() {
    let config = FileConfig::default();
    assert_eq!(Token::Plain(0..1).get_style(&config), "");
    let keyword = format!(
        "{}",
        crossterm::style::SetForegroundColor(crossterm::style::Color::Rgb { r: 0, g: 148, b: 255 })
    );
    assert_eq!(Token::Keyword(0..1).get_style(&config), keyword);
    let number = format!(
        "{}",
        crossterm::style::SetForegroundColor(crossterm::style::Color::Rgb { r: 255, g: 255, b: 255 })
    );
    assert_eq!(Token::Number(0..1).get_style(&config), number);
    let comment = format!(
        "{}{}",
        crossterm::style::Attribute::Italic,
        crossterm::style::SetForegroundColor(crossterm::style::Color::Rgb { r: 0, g: 127, b: 14 })
    );
    assert_eq!(Token::Comment(0..1).get_style(&config), comment);
    let selection = format!(
        "{}",
        crossterm::style::SetBackgroundColor(crossterm::style::Color::Rgb { r: 0, g: 0, b: 255 })
    );
    assert_eq!(Token::Selection(0..1).get_style(&config), selection);
    assert_eq!(Token::CustomStyle(0..1, "x".to_string()).get_style(&config), "x");
    let escape = format!(
        "{}{}",
        crossterm::style::SetForegroundColor(crossterm::style::Color::Rgb { r: 255, g: 240, b: 24 }),
        crossterm::style::Attribute::Dim
    );
    assert_eq!(kelp::style::string_escape_style(&config), escape);
}

#[test]
fn default_configuration() {
    let config = FileConfig::default();
    assert_eq!(config.tab_str, "    ");
    assert_eq!(config.line_comment_start, "//");
    assert_eq!(config.multi_line_comment, ("/*".to_string(), "*/".to_string()));
    assert!(!config.syntax_highlighting_disabled);
    let theme = Theme::default();
    assert_eq!(theme.foreground_color, (255, 255, 255));
    assert_eq!(theme.background_color, (0, 0, 0));
}

#[test]
fn display_buf_styles_each_token() {
    let config = FileConfig::default();
    let theme = Theme::default();
    let mut bare = Row::from_string("a\tb".to_string());
    assert_eq!(bare.display_buf(&config, &theme), "a    b");
    let mut row = Row::from_string("x\t1".to_string());
    row.tokens = vec![Token::Identifier(0..1), Token::Plain(1..2), Token::Number(2..3)];
    let colors = format!(
        "{}{}",
        crossterm::style::SetForegroundColor(crossterm::style::Color::Rgb { r: 255, g: 255, b: 255 }),
        crossterm::style::SetBackgroundColor(crossterm::style::Color::Rgb { r: 0, g: 0, b: 0 })
    );
    let expected = format!(
        "{c}{}x\x1B[0m{c}    \x1B[0m{c}{}1\x1B[0m",
        Token::Identifier(0..1).get_style(&config),
        Token::Number(0..1).get_style(&config),
        c = colors
    );
    assert_eq!(row.display_buf(&config, &theme), expected);
}

#[test]
fn style_of_picks_category_colour() {
    let mut config = FileConfig::default();
    config.syntax_colors.push(("number".to_string(), (1, 2, 3)));
    assert!(matches!(Token::Keyword(0..1).style_of(&config), Style::Foreground((0, 148, 255))));
    assert!(matches!(Token::Number(0..1).style_of(&config), Style::Foreground((1, 2, 3))));
    assert!(matches!(Token::FnCall(0..1).style_of(&config), Style::Foreground((255, 255, 255))));
    assert!(matches!(Token::Comment(0..1).style_of(&config), Style::ItalicForeground((0, 127, 14))));
    assert!(matches!(Token::Selection(0..1).style_of(&config), Style::Background((0, 0, 255))));
    assert!(matches!(Token::Plain(0..1).style_of(&config), Style::Plain));
    match Token::CustomStyle(0..1, "s".to_string()).style_of(&config) {
        Style::Verbatim(s) => assert_eq!(s, "s"),
        other => panic!("{:?}", other),
    }
}

#[test]
fn compose_display_places_styles() {
    let mut row = Row::from_string("ab\tc".to_string());
    row.tokens = vec![Token::Identifier(0..2), Token::Plain(2..4)];
    let styles = vec!["<id>".to_string(), String::new()];
    let shown = row.compose_display(&"<c>".to_string(), &styles, &"  ".to_string());
    assert_eq!(shown, "<c><id>ab\x1B[0m<c>  c\x1B[0m");
}

#[test]
fn tab_string_counts_in_bytes() {
    let mut config = FileConfig::default();
    config.tab_str = "é".to_string();
    assert_eq!(Row::from_string("\t".to_string()).line_width(&config), 2);
    assert_eq!(Row::from_string("ü\t".to_string()).line_width(&config), 4);
    let mut doc = doc_with(&["a\tb"]);
    doc.filename = "x".to_string();
    assert_eq!(doc.visual_rows_to(2, 1, &config), 3);
}

#[test]
fn add_diff_keeps_cursor() {
    let mut doc = doc_with(&["abc"]);
    doc.cursor_row = 0;
    doc.cursor_col = 2;
    doc.dirty = 3;
    doc.add_diff(EditDiff::NewLine(1));
    assert_eq!((doc.cursor_col, doc.cursor_row, doc.dirty), (2, 0, 3));
}

#[test]
fn document_undo_and_redo() {
    let mut doc = doc_with(&["ac"]);
    assert_eq!(doc.undo(), Replay::Nothing);
    assert_eq!(doc.redo(), Replay::Nothing);
    let diff = EditDiff::InsertChar(1, 0, 'b');
    diff.apply(UndoRedo::Redo, &mut doc);
    doc.add_diff(diff);
    assert_eq!(doc.undo(), Replay::Done);
    assert_eq!(lines(&doc), vec!["ac"]);
    assert_eq!(doc.history_index, None);
    assert_eq!((doc.cursor_col, doc.cursor_row), (1, 0));
    assert_eq!(doc.undo(), Replay::Nothing);
    assert_eq!(doc.redo(), Replay::Done);
    assert_eq!(lines(&doc), vec!["abc"]);
    assert_eq!(doc.history_index, Some(0));
    assert_eq!((doc.cursor_col, doc.cursor_row), (2, 0));
    assert_eq!(doc.redo(), Replay::Nothing);
}

#[test]
fn undo_of_edit_that_does_not_apply() {
    let mut doc = doc_with(&["a"]);
    doc.add_diff(EditDiff::InsertChar(5, 0, 'x'));
    assert_eq!(doc.undo(), Replay::Failed);
    assert_eq!(lines(&doc), vec!["a"]);
    assert_eq!(doc.history_index, Some(0));
}

#[test]
fn try_apply_rejects_missing_rows() {
    let mut doc = doc_with(&["ab"]);
    assert_eq!(EditDiff::SplitLine(1, 3).try_apply(UndoRedo::Redo, &mut doc.rows), None);
    assert_eq!(EditDiff::NewLine(0).try_apply(UndoRedo::Undo, &mut doc.rows), None);
    assert_eq!(EditDiff::DeleteChar(0, 0, 'a', true).try_apply(UndoRedo::Redo, &mut doc.rows), None);
    assert_eq!(lines(&doc), vec!["ab"]);
    assert_eq!(EditDiff::SplitLine(1, 0).try_apply(UndoRedo::Redo, &mut doc.rows), Some((0, 1)));
    assert_eq!(lines(&doc), vec!["a", "b"]);
}

#[test]
fn unique_keys_check() {
    let mut config = FileConfig::default();
    assert!(config.has_unique_keys());
    config.auto_close = vec![('(', ')'), ('[', ']')];
    assert!(config.has_unique_keys());
    config.auto_close.push(('(', ']'));
    assert!(!config.has_unique_keys());
    let mut config = FileConfig::default();
    config.syntax_colors.push(("keyword".to_string(), (1, 1, 1)));
    assert!(!config.has_unique_keys());
}

#[test]
fn checked_widths() {
    let mut config = FileConfig::default();
    assert_eq!(Row::from_string("a\tb".to_string()).checked_line_width(&config), Some(6));
    assert_eq!(Row::from_string("日本".to_string()).checked_line_width(&config), Some(4));
    config.tab_str = String::new();
    assert_eq!(Row::from_string("a\tb".to_string()).checked_line_width(&config), None);
    assert_eq!(Row::from_string("ab".to_string()).checked_line_width(&config), Some(2));
    let doc = doc_with(&["abcdefghij", "a\tb", "abc"]);
    assert_eq!(doc.checked_visual_rows_to(4, 1, &config), Some(3));
    assert_eq!(doc.checked_visual_rows_to(4, 2, &config), None);
    assert_eq!(doc.checked_visual_rows_to(0, 1, &config), None);
    let config = FileConfig::default();
    assert_eq!(doc.checked_visual_rows_to(4, 3, &config), Some(6));
    assert_eq!(doc.checked_visual_rows_to(4, 3, &config), Some(doc.visual_rows_to(4, 3, &config)));
}
