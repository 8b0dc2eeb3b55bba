use core::ops::Range;
use vstd::prelude::*;

verus! {

/// What a span of a line stands for, without its position.
pub enum Tag {
    Identifier,
    Keyword,
    Comment,
    Str,
    Plain,
    FnCall,
    Macro,
    Number,
    Selection,
    CustomStyle(Seq<char>),
}

impl Tag {
    /// Higher priorities win where spans overlap.
    pub open spec fn priority(self) -> nat {
        match self {
            Tag::Plain => 0,
            Tag::Identifier => 1,
            Tag::Number => 1,
            Tag::Keyword => 2,
            Tag::FnCall => 3,
            Tag::Macro => 3,
            Tag::Str => 5,
            Tag::Comment => 6,
            Tag::Selection => 10,
            Tag::CustomStyle(_) => 10,
        }
    }
}

/// A tagged half-open interval `[start, end)` of character indices.
pub struct Span {
    pub tag: Tag,
    pub start: int,
    pub end: int,
}

impl Span {
    pub open spec fn covers(self, i: int) -> bool {
        self.start <= i < self.end
    }
}

pub open spec fn span(tag: Tag, start: int, end: int) -> Span {
    Span { tag, start, end }
}

/// One span of a line: a category and the character range it covers.
#[derive(Debug)]
pub enum Token {
    Identifier(Range<usize>),
    Keyword(Range<usize>),
    Comment(Range<usize>),
    String(Range<usize>),
    Plain(Range<usize>),
    FnCall(Range<usize>),
    Macro(Range<usize>),
    Number(Range<usize>),
    Selection(Range<usize>),
    CustomStyle(Range<usize>, String),
}

impl View for Token {
    type V = Span;

    open spec fn view(&self) -> Span {
        match self {
            Token::Identifier(r) => span(Tag::Identifier, r.start as int, r.end as int),
            Token::Keyword(r) => span(Tag::Keyword, r.start as int, r.end as int),
            Token::Comment(r) => span(Tag::Comment, r.start as int, r.end as int),
            Token::String(r) => span(Tag::Str, r.start as int, r.end as int),
            Token::Plain(r) => span(Tag::Plain, r.start as int, r.end as int),
            Token::FnCall(r) => span(Tag::FnCall, r.start as int, r.end as int),
            Token::Macro(r) => span(Tag::Macro, r.start as int, r.end as int),
            Token::Number(r) => span(Tag::Number, r.start as int, r.end as int),
            Token::Selection(r) => span(Tag::Selection, r.start as int, r.end as int),
            Token::CustomStyle(r, s) => span(Tag::CustomStyle(s@), r.start as int, r.end as int),
        }
    }
}

/// The views of a list of tokens.
pub open spec fn spans_of(ts: Seq<Token>) -> Seq<Span> {
    ts.map_values(|t: Token| t@)
}

impl Token {
    pub open spec fn range_of(&self) -> Range<usize> {
        match self {
            Token::Identifier(r) => *r,
            Token::Keyword(r) => *r,
            Token::Comment(r) => *r,
            Token::String(r) => *r,
            Token::Plain(r) => *r,
            Token::FnCall(r) => *r,
            Token::Macro(r) => *r,
            Token::Number(r) => *r,
            Token::Selection(r) => *r,
            Token::CustomStyle(r, _) => *r,
        }
    }

    /// The same token over another range.
    pub open spec fn with_range_spec(&self, r: Range<usize>) -> Token {
        match self {
            Token::Identifier(_) => Token::Identifier(r),
            Token::Keyword(_) => Token::Keyword(r),
            Token::Comment(_) => Token::Comment(r),
            Token::String(_) => Token::String(r),
            Token::Plain(_) => Token::Plain(r),
            Token::FnCall(_) => Token::FnCall(r),
            Token::Macro(_) => Token::Macro(r),
            Token::Number(_) => Token::Number(r),
            Token::Selection(_) => Token::Selection(r),
            Token::CustomStyle(_, s) => Token::CustomStyle(r, *s),
        }
    }

    pub fn priority(&self) -> (p: usize)
        ensures
            p == self@.tag.priority(),
    {
        match self {
            Token::Identifier(_) => 1,
            Token::String(_) => 5,
            Token::Plain(_) => 0,
            Token::Comment(_) => 6,
            Token::Keyword(_) => 2,
            Token::FnCall(_) => 3,
            Token::Macro(_) => 3,
            Token::Number(_) => 1,
            Token::Selection(_) => 10,
            Token::CustomStyle(_, _) => 10,
        }
    }

    pub fn start(&self) -> (s: usize)
        ensures
            s == self@.start,
            s == self.range_of().start,
    {
        self.get_range().start
    }

    pub fn end(&self) -> (e: usize)
        ensures
            e == self@.end,
            e == self.range_of().end,
    {
        self.get_range().end
    }

    pub fn get_range(&self) -> (r: &Range<usize>)
        ensures
            *r == self.range_of(),
            r.start == self@.start,
            r.end == self@.end,
    {
        match self {
            Token::Identifier(r) => r,
            Token::String(r) => r,
            Token::Plain(r) => r,
            Token::Comment(r) => r,
            Token::Keyword(r) => r,
            Token::FnCall(r) => r,
            Token::Macro(r) => r,
            Token::Number(r) => r,
            Token::Selection(r) => r,
            Token::CustomStyle(r, _) => r,
        }
    }

    pub fn get_range_mut(&mut self) -> (r: &mut Range<usize>)
        ensures
            *r == old(self).range_of(),
            *final(self) == old(self).with_range_spec(*final(r)),
    {
        match self {
            Token::Identifier(r) => r,
            Token::String(r) => r,
            Token::Plain(r) => r,
            Token::Comment(r) => r,
            Token::Keyword(r) => r,
            Token::FnCall(r) => r,
            Token::Macro(r) => r,
            Token::Number(r) => r,
            Token::Selection(r) => r,
            Token::CustomStyle(r, _) => r,
        }
    }

    /// A copy of this token, of the same category, over `start..end`.
    pub fn with_range(&self, start: usize, end: usize) -> (t: Token)
        ensures
            t == self.with_range_spec(Range { start, end }),
            t@ == span(self@.tag, start as int, end as int),
    {
        match self {
            Token::Identifier(_) => Token::Identifier(start..end),
            Token::Keyword(_) => Token::Keyword(start..end),
            Token::Comment(_) => Token::Comment(start..end),
            Token::String(_) => Token::String(start..end),
            Token::Plain(_) => Token::Plain(start..end),
            Token::FnCall(_) => Token::FnCall(start..end),
            Token::Macro(_) => Token::Macro(start..end),
            Token::Number(_) => Token::Number(start..end),
            Token::Selection(_) => Token::Selection(start..end),
            Token::CustomStyle(_, s) => Token::CustomStyle(start..end, s.clone()),
        }
    }
}

impl Clone for Token {
    fn clone(&self) -> (t: Token)
        ensures
            t == *self,
    {
        self.with_range(self.start(), self.end())
    }
}

impl PartialEq for Token {
    fn eq(&self, other: &Token) -> (r: bool) {
        self.same_as(other)
    }
}

impl Token {
    /// Whether the two tokens have the same category, style and range.
    pub fn same_as(&self, other: &Token) -> (r: bool)
        ensures
            r == (self@ == other@),
    {
        match self {
            Token::Identifier(a) => match other {
                Token::Identifier(b) => a.start == b.start && a.end == b.end,
                _ => false,
            },
            Token::Keyword(a) => match other {
                Token::Keyword(b) => a.start == b.start && a.end == b.end,
                _ => false,
            },
            Token::Comment(a) => match other {
                Token::Comment(b) => a.start == b.start && a.end == b.end,
                _ => false,
            },
            Token::String(a) => match other {
                Token::String(b) => a.start == b.start && a.end == b.end,
                _ => false,
            },
            Token::Plain(a) => match other {
                Token::Plain(b) => a.start == b.start && a.end == b.end,
                _ => false,
            },
            Token::FnCall(a) => match other {
                Token::FnCall(b) => a.start == b.start && a.end == b.end,
                _ => false,
            },
            Token::Macro(a) => match other {
                Token::Macro(b) => a.start == b.start && a.end == b.end,
                _ => false,
            },
            Token::Number(a) => match other {
                Token::Number(b) => a.start == b.start && a.end == b.end,
                _ => false,
            },
            Token::Selection(a) => match other {
                Token::Selection(b) => a.start == b.start && a.end == b.end,
                _ => false,
            },
            Token::CustomStyle(a, x) => match other {
                Token::CustomStyle(b, y) => a.start == b.start && a.end == b.end && x.eq(y),
                _ => false,
            },
        }
    }
}

impl vstd::std_specs::cmp::PartialEqSpecImpl for Token {
    open spec fn obeys_eq_spec() -> bool {
        true
    }

    open spec fn eq_spec(&self, other: &Token) -> bool {
        self@ == other@
    }
}

} // verus!
