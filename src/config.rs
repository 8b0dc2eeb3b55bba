use vstd::prelude::*;

verus! {

/// Per-language settings: how the lexer recognises comments and keywords, the
/// colours of each category, and the editing preferences of the language.
pub struct FileConfig {
    pub tab_str: String,
    pub line_ending: String,
    pub line_comment_start: String,
    pub multi_line_comment: (String, String),
    pub keywords: Vec<String>,
    /// Colour of each category, by name ("identifier", "keyword", ...).
    pub syntax_colors: Vec<(String, (u8, u8, u8))>,
    pub syntax_highlighting_disabled: bool,
    /// Pairs of an opening character and the character that closes it.
    pub auto_close: Vec<(char, char)>,
}

impl FileConfig {
    /// No two colours and no two auto-close pairs share a key, as in the maps
    /// that settings are read from.
    pub open spec fn keys_unique(self) -> bool {
        &&& forall|i: int, j: int|
            0 <= i < j < self.syntax_colors@.len() ==> #[trigger] self.syntax_colors@[i].0@
                != #[trigger] self.syntax_colors@[j].0@
        &&& forall|i: int, j: int|
            0 <= i < j < self.auto_close@.len() ==> #[trigger] self.auto_close@[i].0
                != #[trigger] self.auto_close@[j].0
    }
}

impl FileConfig {
    /// Whether no two colours and no two auto-close pairs share a key.
    pub fn has_unique_keys(&self) -> (r: bool)
        ensures
            r == self.keys_unique(),
    {
        let n = self.syntax_colors.len();
        let mut j: usize = 0;
        while j < n
            invariant
                n == self.syntax_colors@.len(),
                j <= n,
                forall|a: int, b: int|
                    0 <= a < b < j ==> #[trigger] self.syntax_colors@[a].0@
                        != #[trigger] self.syntax_colors@[b].0@,
            decreases n - j,
        {
            let mut i: usize = 0;
            while i < j
                invariant
                    n == self.syntax_colors@.len(),
                    i <= j < n,
                    forall|a: int, b: int|
                        0 <= a < b < j ==> #[trigger] self.syntax_colors@[a].0@
                            != #[trigger] self.syntax_colors@[b].0@,
                    forall|a: int| 0 <= a < i ==> #[trigger] self.syntax_colors@[a].0@
                        != self.syntax_colors@[j as int].0@,
                decreases j - i,
            {
                if self.syntax_colors[i].0.eq(&self.syntax_colors[j].0) {
                    return false;
                }
                i += 1;
            }
            j += 1;
        }
        let m = self.auto_close.len();
        let mut j: usize = 0;
        while j < m
            invariant
                n == self.syntax_colors@.len(),
                m == self.auto_close@.len(),
                j <= m,
                forall|a: int, b: int|
                    0 <= a < b < n ==> #[trigger] self.syntax_colors@[a].0@
                        != #[trigger] self.syntax_colors@[b].0@,
                forall|a: int, b: int|
                    0 <= a < b < j ==> #[trigger] self.auto_close@[a].0
                        != #[trigger] self.auto_close@[b].0,
            decreases m - j,
        {
            let mut i: usize = 0;
            while i < j
                invariant
                    m == self.auto_close@.len(),
                    i <= j < m,
                    forall|a: int, b: int|
                        0 <= a < b < j ==> #[trigger] self.auto_close@[a].0
                            != #[trigger] self.auto_close@[b].0,
                    forall|a: int| 0 <= a < i ==> #[trigger] self.auto_close@[a].0
                        != self.auto_close@[j as int].0,
                decreases j - i,
            {
                if self.auto_close[i].0 == self.auto_close[j].0 {
                    return false;
                }
                i += 1;
            }
            j += 1;
        }
        true
    }
}

impl Default for FileConfig {
    /// Four-space tabs, "\n" line endings, C-style comments, no keywords, and
    /// colours for identifiers, keywords, comments and strings.
    fn default() -> (c: Self)
        ensures
            c.tab_str@ == "    "@,
            c.line_ending@ == "\n"@,
            c.line_comment_start@ == "//"@,
            c.multi_line_comment.0@ == "/*"@,
            c.multi_line_comment.1@ == "*/"@,
            c.keywords@.len() == 0,
            c.syntax_colors@.len() == 4,
            c.syntax_colors@[0].0@ == "identifier"@ && c.syntax_colors@[0].1 == (128u8, 128u8, 128u8),
            c.syntax_colors@[1].0@ == "keyword"@ && c.syntax_colors@[1].1 == (0u8, 148u8, 255u8),
            c.syntax_colors@[2].0@ == "comment"@ && c.syntax_colors@[2].1 == (0u8, 127u8, 14u8),
            c.syntax_colors@[3].0@ == "string"@ && c.syntax_colors@[3].1 == (255u8, 240u8, 24u8),
            !c.syntax_highlighting_disabled,
            c.auto_close@.len() == 0,
            c.keys_unique(),
    {
        let mut syntax_colors: Vec<(String, (u8, u8, u8))> = Vec::new();
        syntax_colors.push((String::from_str("identifier"), (128, 128, 128)));
        syntax_colors.push((String::from_str("keyword"), (0, 148, 255)));
        syntax_colors.push((String::from_str("comment"), (0, 127, 14)));
        syntax_colors.push((String::from_str("string"), (255, 240, 24)));
        proof {
            reveal_strlit("identifier");
            reveal_strlit("keyword");
            reveal_strlit("comment");
            reveal_strlit("string");
            assert("keyword"@[0] != "comment"@[0]);
        }
        Self {
            tab_str: String::from_str("    "),
            line_ending: String::from_str("\n"),
            line_comment_start: String::from_str("//"),
            multi_line_comment: (String::from_str("/*"), String::from_str("*/")),
            keywords: Vec::new(),
            syntax_colors,
            syntax_highlighting_disabled: false,
            auto_close: Vec::new(),
        }
    }
}

/// The colours of the text and of the screen.
#[derive(Debug, Clone, Copy, PartialEq, Eq)]
pub struct Theme {
    pub background_color: (u8, u8, u8),
    pub foreground_color: (u8, u8, u8),
}

impl Default for Theme {
    /// White text on black.
    fn default() -> (t: Self)
        ensures
            t.foreground_color == (255u8, 255u8, 255u8),
            t.background_color == (0u8, 0u8, 0u8),
    {
        Self { foreground_color: (255, 255, 255), background_color: (0, 0, 0) }
    }
}

/// The modifier keys of a key binding.
#[derive(Debug, Clone, Copy, PartialEq, Eq, Structural)]
pub enum KelpKeyModifiers {
    Alt,
    Control,
    Shift,
    AltAndControl,
    ShiftAndControl,
    AltAndShift,
    NoModifier,
}

} // verus!
