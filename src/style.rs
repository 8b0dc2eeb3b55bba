use crate::config::FileConfig;
use crate::token::{Tag, Token};
use vstd::prelude::*;

verus! {

/// A text attribute that the renderer can switch on.
#[derive(Debug, Clone, Copy, PartialEq, Eq, Structural)]
pub enum TextAttribute {
    Italic,
    Dim,
}

/// How a category of text is drawn.
#[derive(Debug)]
pub enum Style {
    /// As the surrounding text.
    Plain,
    /// In the foreground colour `(r, g, b)`.
    Foreground((u8, u8, u8)),
    /// In italics, in the foreground colour `(r, g, b)`.
    ItalicForeground((u8, u8, u8)),
    /// On the background colour `(r, g, b)`.
    Background((u8, u8, u8)),
    /// By the escape sequence given.
    Verbatim(String),
}

/// Relies on crossterm's `Command::write_ansi` of `SetForegroundColor(Color::Rgb)`,
/// written into a `String`, which cannot fail. Its text depends on the
/// environment (`NO_COLOR`), so nothing is stated of it.
#[verifier::external_body]
pub(crate) fn foreground(rgb: (u8, u8, u8)) -> String {
    let mut s = String::new();
    let command = crossterm::style::SetForegroundColor(crossterm::style::Color::from(rgb));
    let _ = crossterm::Command::write_ansi(&command, &mut s);
    s
}

/// Relies on crossterm's `Command::write_ansi` of `SetBackgroundColor(Color::Rgb)`,
/// written into a `String`, which cannot fail. Its text depends on the
/// environment (`NO_COLOR`), so nothing is stated of it.
#[verifier::external_body]
pub(crate) fn background(rgb: (u8, u8, u8)) -> String {
    let mut s = String::new();
    let command = crossterm::style::SetBackgroundColor(crossterm::style::Color::from(rgb));
    let _ = crossterm::Command::write_ansi(&command, &mut s);
    s
}

/// Relies on crossterm's `Command::write_ansi` of `SetAttribute`, written
/// into a `String`, which cannot fail. Nothing is stated of its text.
#[verifier::external_body]
fn attribute(a: TextAttribute) -> String {
    let a = match a {
        TextAttribute::Italic => crossterm::style::Attribute::Italic,
        TextAttribute::Dim => crossterm::style::Attribute::Dim,
    };
    let mut s = String::new();
    let _ = crossterm::Command::write_ansi(&crossterm::style::SetAttribute(a), &mut s);
    s
}

pub open spec fn white() -> (u8, u8, u8) {
    (255u8, 255u8, 255u8)
}

pub open spec fn blue() -> (u8, u8, u8) {
    (0u8, 0u8, 255u8)
}

/// The colour of the first entry from `k` on named `name`, or `default`.
pub open spec fn color_from(
    cs: Seq<(String, (u8, u8, u8))>,
    k: int,
    name: Seq<char>,
    default: (u8, u8, u8),
) -> (u8, u8, u8)
    decreases cs.len() - k,
{
    if k < 0 || k >= cs.len() {
        default
    } else if cs[k].0@ == name {
        cs[k].1
    } else {
        color_from(cs, k + 1, name, default)
    }
}

/// The colour that `cfg` gives the category `name`, or `default`.
pub open spec fn color(cfg: FileConfig, name: Seq<char>, default: (u8, u8, u8)) -> (u8, u8, u8) {
    color_from(cfg.syntax_colors@, 0, name, default)
}

/// How text of tag `tag` is drawn under `cfg`.
pub open spec fn tag_style(s: Style, tag: Tag, cfg: FileConfig) -> bool {
    match tag {
        Tag::Identifier => s == Style::Foreground(color(cfg, "identifier"@, white())),
        Tag::Keyword => s == Style::Foreground(color(cfg, "keyword"@, white())),
        Tag::Str => s == Style::Foreground(color(cfg, "string"@, white())),
        Tag::Plain => s is Plain,
        Tag::Comment => s == Style::ItalicForeground(color(cfg, "comment"@, white())),
        Tag::FnCall => s == Style::Foreground(color(cfg, "fncall"@, white())),
        Tag::Macro => s == Style::Foreground(color(cfg, "macro"@, white())),
        Tag::Number => s == Style::Foreground(color(cfg, "number"@, white())),
        Tag::Selection => s == Style::Background(color(cfg, "selection"@, blue())),
        Tag::CustomStyle(t) => s is Verbatim && s->Verbatim_0@ == t,
    }
}

proof fn lemma_color_from_entry(cfg: FileConfig, m: int, k: int, default: (u8, u8, u8))
    requires
        cfg.keys_unique(),
        0 <= m <= k < cfg.syntax_colors@.len(),
    ensures
        color_from(cfg.syntax_colors@, m, cfg.syntax_colors@[k].0@, default) == cfg.syntax_colors@[k].1,
    decreases k - m,
{
    if m < k {
        assert(cfg.syntax_colors@[m].0@ != cfg.syntax_colors@[k].0@);
        lemma_color_from_entry(cfg, m + 1, k, default);
    }
}

/// Where the keys are unique, the colour of a category is that of its entry,
/// as in a map.
pub proof fn lemma_color_is_entry(cfg: FileConfig, k: int, default: (u8, u8, u8))
    requires
        cfg.keys_unique(),
        0 <= k < cfg.syntax_colors@.len(),
    ensures
        color(cfg, cfg.syntax_colors@[k].0@, default) == cfg.syntax_colors@[k].1,
{
    lemma_color_from_entry(cfg, 0, k, default);
}

/// The colour that `config` gives the category `name`, or `default`.
fn color_of(config: &FileConfig, name: &str, default: (u8, u8, u8)) -> (c: (u8, u8, u8))
    ensures
        c == color(*config, name@, default),
{
    let key = String::from_str(name);
    let mut k: usize = 0;
    while k < config.syntax_colors.len()
        invariant
            key@ == name@,
            k <= config.syntax_colors@.len(),
            color(*config, name@, default) == color_from(config.syntax_colors@, k as int, name@, default),
        decreases config.syntax_colors@.len() - k,
    {
        let entry = &config.syntax_colors[k];
        if entry.0.eq(&key) {
            return entry.1;
        }
        k += 1;
    }
    default
}

impl Style {
    /// The escape sequence that switches this style on.
    pub fn render(&self) -> (s: String)
        ensures
            self is Plain ==> s@ == Seq::<char>::empty(),
            self is Verbatim ==> s@ == self->Verbatim_0@,
    {
        match self {
            Style::Plain => String::new(),
            Style::Foreground(c) => foreground(*c),
            Style::ItalicForeground(c) => {
                let mut s = attribute(TextAttribute::Italic);
                let f = foreground(*c);
                s.append(f.as_str());
                s
            },
            Style::Background(c) => background(*c),
            Style::Verbatim(s) => s.clone(),
        }
    }
}

impl Token {
    /// How this token is drawn under `config`: in the colour that `config`
    /// gives its category, white where it gives none, a selection on blue.
    pub fn style_of(&self, config: &FileConfig) -> (s: Style)
        requires
            config.keys_unique(),
        ensures
            tag_style(s, self@.tag, *config),
    {
        match self {
            Token::Identifier(_) => Style::Foreground(color_of(config, "identifier", (255, 255, 255))),
            Token::Keyword(_) => Style::Foreground(color_of(config, "keyword", (255, 255, 255))),
            Token::String(_) => Style::Foreground(color_of(config, "string", (255, 255, 255))),
            Token::Plain(_) => Style::Plain,
            Token::Comment(_) => Style::ItalicForeground(color_of(config, "comment", (255, 255, 255))),
            Token::FnCall(_) => Style::Foreground(color_of(config, "fncall", (255, 255, 255))),
            Token::Macro(_) => Style::Foreground(color_of(config, "macro", (255, 255, 255))),
            Token::Number(_) => Style::Foreground(color_of(config, "number", (255, 255, 255))),
            Token::Selection(_) => Style::Background(color_of(config, "selection", (0, 0, 255))),
            Token::CustomStyle(_, s) => Style::Verbatim(s.clone()),
        }
    }

    /// The escape sequence that renders this token under `config`.
    pub fn get_style(&self, config: &FileConfig) -> (s: String)
        requires
            config.keys_unique(),
        ensures
            self@.tag == Tag::Plain ==> s@ == Seq::<char>::empty(),
            self@.tag is CustomStyle ==> s@ == self@.tag->CustomStyle_0,
    {
        self.style_of(config).render()
    }
}

/// The escape sequence of escape sequences inside strings: the string
/// colour, dimmed.
pub fn string_escape_style(config: &FileConfig) -> String
    requires
        config.keys_unique(),
{
    let mut s = Token::String(0..0).get_style(config);
    let d = attribute(TextAttribute::Dim);
    s.append(d.as_str());
    s
}

} // verus!
