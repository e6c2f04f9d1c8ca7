//! Structured parse errors with position information.
use vstd::prelude::*;
use vstd::std_specs::convert::IntoSpec;
use crate::text::{decimal, push_char, push_decimal, push_text};

verus! {

/// The category of a parse failure.
///
/// Structured (instead of a free-form `String`) so callers can reliably
/// distinguish *incomplete input* from *syntax errors* and *trailing garbage*.
#[derive(Debug, Clone, PartialEq, Eq)]
pub enum ParseErrorKind {
    /// The end of the buffered input was reached while more bytes were needed.
    Incomplete,
    /// A complete value was parsed, but non-ignorable input remained afterwards.
    TrailingData,
    /// An unexpected token: `found` describes what was seen, `expected` lists
    /// what would have been accepted.
    UnexpectedToken { found: String, expected: &'static [&'static str] },
    /// The input encoding is invalid for the parser.
    InvalidEncoding(&'static str),
    /// A number literal is malformed or out of range.
    InvalidNumber,
    /// The input exceeded the configured nesting limit.
    DepthLimit,
    /// A static message for errors that fit no other kind.
    Message(&'static str),
}

/// Line/column location (both 1-based) for text inputs.
#[derive(Debug, Clone, Copy, PartialEq, Eq, Structural)]
pub struct LineCol {
    pub line: u32,
    pub col: u32,
}

/// A structured parse error with position information.
///
/// `pos` is a 0-based offset into the logical input stream.
#[derive(Debug, Clone, PartialEq, Eq)]
pub struct ParseError {
    /// The structured error category.
    pub kind: ParseErrorKind,
    /// 0-based position where the error occurred.
    pub pos: usize,
    /// Optional line/column location for text inputs.
    pub line_col: Option<LineCol>,
    /// Optional short, human-readable context.
    pub context: Option<String>,
}

/// The error that `ParseError::new(kind, pos)` builds.
pub open spec fn error_at(kind: ParseErrorKind, pos: int) -> ParseError {
    ParseError { kind, pos: pos as usize, line_col: None, context: None }
}

impl ParseError {
    /// Create a new `ParseError` at the given position.
    pub fn new(kind: ParseErrorKind, pos: usize) -> (e: Self)
        ensures
            e == error_at(kind, pos as int),
    {
        Self { kind, pos, line_col: None, context: None }
    }

    /// Attach short human-readable context to the error: the context becomes
    /// what `ctx` converts into (for a `&str` or a `String`, the same
    /// characters), replacing any earlier one; nothing else changes.
    pub fn with_context<T: Into<String>>(self, ctx: T) -> (e: Self)
        ensures
            e.kind == self.kind,
            e.pos == self.pos,
            e.line_col == self.line_col,
            e.context matches Some(c) && call_ensures(<T as Into<String>>::into, (ctx,), c),
            <T as IntoSpec<String>>::obeys_into_spec() ==> e.context == Some(
                <T as IntoSpec<String>>::into_spec(ctx),
            ),
    {
        let mut e = self;
        e.context = Some(ctx.into());
        e
    }

    /// Attach line/column information.
    pub fn with_line_col(self, lc: LineCol) -> (e: Self)
        ensures
            e.kind == self.kind,
            e.pos == self.pos,
            e.line_col == Some(lc),
            e.context == self.context,
    {
        let mut e = self;
        e.line_col = Some(lc);
        e
    }
}

/// The mathematical value of a `ParseErrorKind`: strings as character
/// sequences, the expected tokens as a sequence.
pub enum ErrorView {
    Incomplete,
    TrailingData,
    UnexpectedToken { found: Seq<char>, expected: Seq<&'static str> },
    InvalidEncoding(&'static str),
    InvalidNumber,
    DepthLimit,
    Message(&'static str),
}

impl View for ParseErrorKind {
    type V = ErrorView;

    open spec fn view(&self) -> ErrorView {
        match self {
            ParseErrorKind::Incomplete => ErrorView::Incomplete,
            ParseErrorKind::TrailingData => ErrorView::TrailingData,
            ParseErrorKind::UnexpectedToken { found, expected } => ErrorView::UnexpectedToken {
                found: found@,
                expected: expected@,
            },
            ParseErrorKind::InvalidEncoding(m) => ErrorView::InvalidEncoding(*m),
            ParseErrorKind::InvalidNumber => ErrorView::InvalidNumber,
            ParseErrorKind::DepthLimit => ErrorView::DepthLimit,
            ParseErrorKind::Message(m) => ErrorView::Message(*m),
        }
    }
}

/// What a parser makes of its input from some position on: a value and the
/// position after it, or an error and the position it reports (where the
/// read position is left).
pub enum Outcome<T> {
    Parsed(T, int),
    Failed(ErrorView, int),
}

/// `e` is a plain error (no line/column, no context) of kind `kind` at `at`.
pub open spec fn reports(e: ParseError, kind: ErrorView, at: int) -> bool {
    &&& e.kind@ == kind
    &&& e.pos == at
    &&& e.line_col is None
    &&& e.context is None
}

/// What `format!("{:?}", s)` gives for a string: the string in double
/// quotes, its special characters escaped.
pub uninterp spec fn str_debug_text(s: Seq<char>) -> Seq<char>;

/// The debug texts of `items`, separated by `, `.
pub open spec fn joined_debug_text(items: Seq<Seq<char>>) -> Seq<char>
    decreases items.len(),
{
    if items.len() == 0 {
        Seq::empty()
    } else if items.len() == 1 {
        str_debug_text(items[0])
    } else {
        joined_debug_text(items.drop_last()) + seq![',', ' '] + str_debug_text(items.last())
    }
}

/// What `format!("{:?}", items)` gives for a list of strings: each one's
/// debug text, separated by `, `, in square brackets.
pub open spec fn str_list_debug_text(items: Seq<Seq<char>>) -> Seq<char> {
    seq!['['] + joined_debug_text(items) + seq![']']
}

/// The debug text of a string.
///
/// Trusted: formats with `{:?}`; the result is named `str_debug_text`.
#[verifier::external_body]
fn format_str_debug(s: &str) -> (r: String)
    ensures
        r@ == str_debug_text(s@),
{
    format!("{:?}", s)
}

/// The debug text of a list of strings (see `str_list_debug_text`).
fn format_str_list_debug(items: &[&str]) -> (r: String)
    ensures
        r@ == str_list_debug_text(items@.map_values(|t: &str| t@)),
{
    let ghost views = items@.map_values(|t: &str| t@);
    let mut r = String::new();
    push_char(&mut r, '[');
    let mut i: usize = 0;
    while i < items.len()
        invariant
            i <= items.len(),
            views == items@.map_values(|t: &str| t@),
            r@ == seq!['['] + joined_debug_text(views.take(i as int)),
        decreases items.len() - i,
    {
        if i > 0 {
            push_char(&mut r, ',');
            push_char(&mut r, ' ');
        }
        let f = format_str_debug(items[i]);
        push_text(&mut r, f.as_str());
        proof {
            let t = views.take(i + 1);
            assert(t.drop_last() =~= views.take(i as int));
            assert(t.last() == items@[i as int]@);
            if i == 0 {
                assert(views.take(0) =~= Seq::<Seq<char>>::empty());
            }
        }
        i = i + 1;
    }
    push_char(&mut r, ']');
    assert(views.take(items.len() as int) =~= views);
    assert(r@ =~= str_list_debug_text(views));
    r
}

/// What went wrong and where.
pub open spec fn kind_text(kind: ParseErrorKind, pos: usize) -> Seq<char> {
    let at = " at pos "@ + decimal(pos as nat);
    match kind {
        ParseErrorKind::Incomplete => "incomplete input"@ + at,
        ParseErrorKind::TrailingData => "trailing data"@ + at,
        ParseErrorKind::UnexpectedToken { found, expected } => "unexpected token "@
            + str_debug_text(found@) + at + (if expected@.len() > 0 {
            ", expected one of: "@ + str_list_debug_text(expected@.map_values(|t: &str| t@))
        } else {
            Seq::empty()
        }),
        ParseErrorKind::InvalidEncoding(msg) => "invalid encoding ("@ + msg@ + ")"@ + at,
        ParseErrorKind::InvalidNumber => "invalid number"@ + at,
        ParseErrorKind::DepthLimit => "depth limit exceeded"@ + at,
        ParseErrorKind::Message(msg) => msg@ + at,
    }
}

/// The line and column, when present.
pub open spec fn line_col_text(lc: Option<LineCol>) -> Seq<char> {
    match lc {
        Some(lc) => " (line "@ + decimal(lc.line as nat) + ", col "@ + decimal(lc.col as nat)
            + ")"@,
        None => Seq::empty(),
    }
}

/// The context, when present.
pub open spec fn context_text(c: Option<String>) -> Seq<char> {
    match c {
        Some(c) => " - "@ + c@,
        None => Seq::empty(),
    }
}

/// The human-readable text of a parse error: what went wrong and where,
/// then the line and column and the context when present.
pub open spec fn error_text(e: ParseError) -> Seq<char> {
    kind_text(e.kind, e.pos) + line_col_text(e.line_col) + context_text(e.context)
}

/// Appends `" at pos "` and the position.
fn push_at(s: &mut String, pos: usize)
    ensures
        final(s)@ == old(s)@ + " at pos "@ + decimal(pos as nat),
{
    push_text(s, " at pos ");
    push_decimal(s, pos as u128);
}

/// Appends what went wrong and where (see `kind_text`).
fn push_kind_text(s: &mut String, kind: &ParseErrorKind, pos: usize)
    ensures
        final(s)@ == old(s)@ + kind_text(*kind, pos),
{
    match kind {
        ParseErrorKind::Incomplete => {
            push_text(s, "incomplete input");
            push_at(s, pos);
        },
        ParseErrorKind::TrailingData => {
            push_text(s, "trailing data");
            push_at(s, pos);
        },
        ParseErrorKind::UnexpectedToken { found, expected } => {
            push_text(s, "unexpected token ");
            let f = format_str_debug(found.as_str());
            push_text(s, f.as_str());
            push_at(s, pos);
            if expected.len() > 0 {
                push_text(s, ", expected one of: ");
                let l = format_str_list_debug(expected);
                push_text(s, l.as_str());
            }
        },
        ParseErrorKind::InvalidEncoding(msg) => {
            push_text(s, "invalid encoding (");
            push_text(s, msg);
            push_text(s, ")");
            push_at(s, pos);
        },
        ParseErrorKind::InvalidNumber => {
            push_text(s, "invalid number");
            push_at(s, pos);
        },
        ParseErrorKind::DepthLimit => {
            push_text(s, "depth limit exceeded");
            push_at(s, pos);
        },
        ParseErrorKind::Message(msg) => {
            push_text(s, msg);
            push_at(s, pos);
        },
    }
    assert(final(s)@ =~= old(s)@ + kind_text(*kind, pos));
}

impl ParseError {
    /// The human-readable text of the error (see `error_text`).
    pub fn to_string(&self) -> (s: String)
        ensures
            s@ == error_text(*self),
    {
        let mut s = String::new();
        push_kind_text(&mut s, &self.kind, self.pos);
        if let Some(lc) = self.line_col {
            push_text(&mut s, " (line ");
            push_decimal(&mut s, lc.line as u128);
            push_text(&mut s, ", col ");
            push_decimal(&mut s, lc.col as u128);
            push_text(&mut s, ")");
        }
        if let Some(c) = &self.context {
            push_text(&mut s, " - ");
            push_text(&mut s, c.as_str());
        }
        assert(s@ =~= error_text(*self));
        s
    }
}

} // verus!
