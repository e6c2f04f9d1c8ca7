//! The streaming JSON parser's state, and the small types around it.
use vstd::prelude::*;
use crate::stack_parser::{byte_hex_text, format_byte_hex};
use crate::text::{decimal, push_char, push_decimal, push_text};
use vstd::string::StringSliceAdditionalSpecFns;
use crate::bin_inner::BinInner;
use crate::parse_error::{error_at, ParseError, ParseErrorKind};
use crate::bin_inner::{extends, lemma_skip_ws_extends, lemma_skip_ws_from_bounds, skip_ws_from};
use crate::json_parse::{parse_boolean, parse_null, parse_number, parse_string};
use crate::json_parse::{
    boolean_literal, lemma_number_literal_bounds, lemma_string_literal_bounds, null_literal,
    number_literal, string_literal, NumberParts, NumberView, Scan,
};
use crate::parse_error::{reports, ErrorView, Outcome};

verus! {

/// Errors of operations on values.
#[derive(Debug, Clone, Copy, PartialEq, Eq, PartialOrd, Ord, Structural)]
pub enum ValueError {
    TypeError,
    KeyNotFoundError,
    IndexOutOfBoundError,
    IOError,
    ParseError,
    InvalidOperationError,
    DivisionByZeroError,
    IndexOutOfBoundsError,
}

/// What a resumable parser expects next in its innermost open container.
#[derive(Debug, Clone, Copy, PartialEq, Eq, Structural)]
pub enum FrameState {
    /// An object with no pending key: a key string next, or `}`.
    ObjectWaitingForKey,
    /// An object with a pending key: its value next (after `:`).
    ObjectWaitingForValue,
    /// An array: a value next, or `]`.
    Array,
}

/// The JSON serializer (a unit type; serialization is by associated
/// functions).
#[derive(Debug, Clone, Copy, Default)]
pub struct JsonSerializer;

/// The default nesting limit of `BinJsonParser`.
pub const DEFAULT_MAX_DEPTH: usize = 512;

/// Binary JSON parser with streaming support: bytes are fed in, values are
/// parsed from the buffer; UTF-8 is checked only when building strings.
#[derive(Debug)]
pub struct BinJsonParser {
    inner: BinInner,
    eof: bool,
    max_depth: usize,
    current_depth: usize,
}

/// The abstract state of a `BinJsonParser`.
pub struct ParserView {
    /// All bytes fed so far.
    pub buffer: Seq<u8>,
    /// The read position.
    pub pos: int,
    /// Whether the end of input was signalled.
    pub eof: bool,
    /// The nesting limit.
    pub max_depth: int,
    /// The current nesting level.
    pub depth: int,
}

impl View for BinJsonParser {
    type V = ParserView;

    closed spec fn view(&self) -> ParserView {
        ParserView {
            buffer: self.inner@.0,
            pos: self.inner@.1,
            eof: self.eof,
            max_depth: self.max_depth as int,
            depth: self.current_depth as int,
        }
    }
}

impl BinJsonParser {
    /// The state of a new parser: an empty buffer, no end of input, the
    /// default depth limit and depth 0.
    pub open spec fn new_state() -> ParserView {
        ParserView {
            buffer: Seq::empty(),
            pos: 0,
            eof: false,
            max_depth: DEFAULT_MAX_DEPTH as int,
            depth: 0,
        }
    }

    /// A parser in the state `new_state`.
    pub fn new() -> (p: Self)
        ensures
            p@ == Self::new_state(),
    {
        BinJsonParser {
            inner: BinInner::new(),
            eof: false,
            max_depth: DEFAULT_MAX_DEPTH,
            current_depth: 0,
        }
    }

    /// Append input; refused once the end of input was signalled.
    pub fn feed(&mut self, input: &[u8]) -> (r: Result<(), ParseError>)
        ensures
            old(self)@.eof ==> r == Err::<(), ParseError>(
                error_at(ParseErrorKind::Message("Cannot feed after end_of_input"), old(self)@.pos),
            ) && final(self)@ == old(self)@,
            !old(self)@.eof ==> r is Ok && final(self)@ == (ParserView {
                buffer: old(self)@.buffer + input@,
                ..old(self)@
            }),
    {
        if self.eof {
            return Err(
                ParseError::new(
                    ParseErrorKind::Message("Cannot feed after end_of_input"),
                    self.inner.pos(),
                ),
            );
        }
        self.inner.feed(input);
        Ok(())
    }

    /// Append text input (its UTF-8 bytes); refused once the end of input
    /// was signalled.
    pub fn feed_str(&mut self, input: &str) -> (r: Result<(), ParseError>)
        ensures
            old(self)@.eof ==> r == Err::<(), ParseError>(
                error_at(ParseErrorKind::Message("Cannot feed after end_of_input"), old(self)@.pos),
            ) && final(self)@ == old(self)@,
            !old(self)@.eof ==> r is Ok && final(self)@ == (ParserView {
                buffer: old(self)@.buffer + input.spec_bytes(),
                ..old(self)@
            }),
    {
        self.feed(input.as_bytes())
    }

    /// Signal that no more input will arrive.
    pub fn end_of_input(&mut self)
        ensures
            final(self)@ == (ParserView { eof: true, ..old(self)@ }),
    {
        self.eof = true;
    }

    /// The read position.
    pub fn pos(&self) -> (p: usize)
        ensures
            p == self@.pos,
    {
        self.inner.pos()
    }

    /// Configure the maximum nesting depth; returns the parser for chaining.
    pub fn max_depth(&mut self, depth: usize) -> (r: &mut Self)
        ensures
            r@ == (ParserView { max_depth: depth as int, ..old(self)@ }),
            *final(self) == *final(r),
    {
        self.max_depth = depth;
        self
    }

    /// Whether more input is needed to go on: the end of input was not
    /// signalled and the buffer is used up.
    pub fn needs_more(&self) -> (b: bool)
        ensures
            b == (!self@.eof && self@.pos >= self@.buffer.len()),
    {
        !self.eof && self.inner.pos() >= self.inner.buffer().len()
    }

    /// An error of the given kind at the read position.
    pub fn error(&self, kind: ParseErrorKind) -> (e: ParseError)
        ensures
            e == error_at(kind, self@.pos),
    {
        ParseError::new(kind, self.inner.pos())
    }

    /// An error with a static message at the read position.
    pub fn error_msg(&self, msg: &'static str) -> (e: ParseError)
        ensures
            e == error_at(ParseErrorKind::Message(msg), self@.pos),
    {
        ParseError::new(ParseErrorKind::Message(msg), self.inner.pos())
    }
}

impl Default for BinJsonParser {
    fn default() -> (p: Self)
        ensures
            p@ == Self::new_state(),
    {
        BinJsonParser::new()
    }
}

/// A parsed JSON document: numbers are kept as scanned (`NumberParts`), and
/// an object holds each key once, with the value given last.
#[derive(Debug, PartialEq)]
pub enum JsonValue {
    /// `null` or `none`.
    Null,
    /// `true` or `false`.
    Boolean(bool),
    /// A number literal.
    Number(NumberParts),
    /// A string.
    Str(String),
    /// An array.
    List(Vec<JsonValue>),
    /// An object: distinct keys, and the value of each key at the same
    /// index.
    Dict(Vec<String>, Vec<JsonValue>),
}

/// The mathematical value of a `JsonValue`.
pub enum JsonView {
    Null,
    Boolean(bool),
    Number(NumberView),
    Str(Seq<char>),
    List(Seq<JsonView>),
    Dict(Seq<Seq<char>>, Seq<JsonView>),
}

/// The view of a JSON value.
pub open spec fn json_view(v: JsonValue) -> JsonView
    decreases v,
{
    match v {
        JsonValue::Null => JsonView::Null,
        JsonValue::Boolean(b) => JsonView::Boolean(b),
        JsonValue::Number(n) => JsonView::Number(n@),
        JsonValue::Str(s) => JsonView::Str(s@),
        JsonValue::List(items) => JsonView::List(json_views(items@)),
        JsonValue::Dict(keys, values) => JsonView::Dict(
            keys@.map_values(|k: String| k@),
            json_views(values@),
        ),
    }
}

/// The views of a sequence of JSON values.
pub open spec fn json_views(s: Seq<JsonValue>) -> Seq<JsonView>
    decreases s,
{
    if s.len() == 0 {
        Seq::empty()
    } else {
        seq![json_view(s[0])] + json_views(s.subrange(1, s.len() as int))
    }
}

impl View for JsonValue {
    type V = JsonView;

    open spec fn view(&self) -> JsonView {
        json_view(*self)
    }
}

/// The `Debug` text of an optional byte: `None`, or `Some(` with the
/// byte's decimal numeral and `)`.
pub open spec fn byte_debug_text(b: Option<u8>) -> Seq<char> {
    match b {
        None => seq!['N', 'o', 'n', 'e'],
        Some(x) => seq!['S', 'o', 'm', 'e', '('] + decimal(x as nat) + seq![')'],
    }
}

/// The lowercase hexadecimal digit for `d` in `0..16`.
pub open spec fn lower_hex_digit(d: int) -> char {
    if d < 10 {
        (48 + d) as char
    } else {
        (87 + d) as char
    }
}

/// What `char::escape_default` writes for the byte `b` taken as a
/// character: `\t`, `\r`, `\n`, `\'`, `\"` and `\\` for those six,
/// printable ASCII (`0x20..=0x7e`) as itself, and every other character as
/// `\u{..}` with its code in lowercase hexadecimal, without leading zeros.
pub open spec fn char_escape_text(b: u8) -> Seq<char> {
    if b == 0x09 {
        seq!['\\', 't']
    } else if b == 0x0D {
        seq!['\\', 'r']
    } else if b == 0x0A {
        seq!['\\', 'n']
    } else if b == 0x27 || b == 0x22 || b == 0x5C {
        seq!['\\', b as char]
    } else if 0x20 <= b <= 0x7E {
        seq![b as char]
    } else if b < 16 {
        seq!['\\', 'u', '{', lower_hex_digit(b as int), '}']
    } else {
        seq!['\\', 'u', '{', lower_hex_digit((b / 16) as int), lower_hex_digit((b % 16) as int), '}']
    }
}

/// What the parser reports as the unexpected byte `b`: its hex code and its
/// escaped character, `0xHH ('c')`.
pub open spec fn byte_description(b: u8) -> Seq<char> {
    byte_hex_text(b) + " ('"@ + char_escape_text(b) + "')"@
}

/// The `Debug` text of an optional byte (see `byte_debug_text`).
pub(crate) fn format_byte_debug(b: Option<u8>) -> (s: String)
    ensures
        s@ == byte_debug_text(b),
{
    let mut s = String::new();
    match b {
        None => {
            push_char(&mut s, 'N');
            push_char(&mut s, 'o');
            push_char(&mut s, 'n');
            push_char(&mut s, 'e');
        },
        Some(x) => {
            push_char(&mut s, 'S');
            push_char(&mut s, 'o');
            push_char(&mut s, 'm');
            push_char(&mut s, 'e');
            push_char(&mut s, '(');
            push_decimal(&mut s, x as u128);
            push_char(&mut s, ')');
        },
    }
    assert(s@ =~= byte_debug_text(b));
    s
}

/// The lowercase hexadecimal digit for `d` in `0..16`.
fn lower_hex_char(d: u8) -> (c: char)
    requires
        d < 16,
    ensures
        c == lower_hex_digit(d as int),
{
    if d < 10 {
        (48u8 + d) as char
    } else {
        (87u8 + d) as char
    }
}

/// The escaped text of the byte `b` taken as a character (see
/// `char_escape_text`).
fn escape_default_text(b: u8) -> (s: String)
    ensures
        s@ == char_escape_text(b),
{
    let mut s = String::new();
    if b == 0x09 {
        push_char(&mut s, '\\');
        push_char(&mut s, 't');
    } else if b == 0x0D {
        push_char(&mut s, '\\');
        push_char(&mut s, 'r');
    } else if b == 0x0A {
        push_char(&mut s, '\\');
        push_char(&mut s, 'n');
    } else if b == 0x27 || b == 0x22 || b == 0x5C {
        push_char(&mut s, '\\');
        push_char(&mut s, b as char);
    } else if 0x20 <= b && b <= 0x7E {
        push_char(&mut s, b as char);
    } else {
        push_char(&mut s, '\\');
        push_char(&mut s, 'u');
        push_char(&mut s, '{');
        if b >= 16 {
            push_char(&mut s, lower_hex_char(b / 16));
        }
        push_char(&mut s, lower_hex_char(b % 16));
        push_char(&mut s, '}');
    }
    assert(s@ =~= char_escape_text(b));
    s
}

/// The description of an unexpected byte: `0xHH ('c')` (see
/// `byte_description`).
fn format_byte_description(b: u8) -> (s: String)
    ensures
        s@ == byte_description(b),
{
    let mut s = format_byte_hex(b);
    push_text(&mut s, " ('");
    let e = escape_default_text(b);
    push_text(&mut s, e.as_str());
    push_text(&mut s, "')");
    assert(s@ =~= byte_description(b));
    s
}

/// The byte at `i`, if any.
pub open spec fn byte_at(buf: Seq<u8>, i: int) -> Option<u8> {
    if 0 <= i < buf.len() {
        Some(buf[i])
    } else {
        None
    }
}

/// The position after consuming the byte at `i`, if there is one.
pub open spec fn after_byte(buf: Seq<u8>, i: int) -> int {
    if 0 <= i < buf.len() {
        i + 1
    } else {
        i
    }
}

/// More input is needed at `i`: no end of input yet and nothing left.
pub open spec fn needs_more_at(buf: Seq<u8>, eof: bool, i: int) -> bool {
    !eof && i >= buf.len()
}

/// The index of `key` in `keys` from `k` on, if any.
pub open spec fn key_index(keys: Seq<Seq<char>>, key: Seq<char>, k: int) -> Option<int>
    decreases keys.len() - k,
{
    if k < 0 || k >= keys.len() {
        None
    } else if keys[k] == key {
        Some(k)
    } else {
        key_index(keys, key, k + 1)
    }
}

/// The object after setting `key` to `v`: replaced in place when present,
/// appended otherwise.
pub open spec fn set_member(keys: Seq<Seq<char>>, vals: Seq<JsonView>, key: Seq<char>, v: JsonView) -> (
    Seq<Seq<char>>,
    Seq<JsonView>,
) {
    match key_index(keys, key, 0) {
        Some(k) => (keys, vals.update(k, v)),
        None => (keys.push(key), vals.push(v)),
    }
}

/// The tokens a value can start with.
pub open spec fn value_start_tokens() -> Seq<&'static str> {
    seq!["{", "[", "\"", "number", "true", "false", "null", "none"]
}

/// What `parse_value` makes of the input at `p`, at nesting `depth` with
/// limit `max`: whitespace is skipped, then the first byte picks an object,
/// an array, a string, a boolean, null or a number.
pub open spec fn value_at(buf: Seq<u8>, p: int, eof: bool, depth: int, max: int) -> Outcome<
    JsonView,
>
    decreases buf.len() - p, 1int,
{
    if p < 0 || p > buf.len() {
        Outcome::Failed(ErrorView::Incomplete, p)
    } else {
        let q = skip_ws_from(buf, p);
        proof {
            lemma_skip_ws_from_bounds(buf, p);
        }
        if q >= buf.len() {
            Outcome::Failed(ErrorView::Incomplete, q)
        } else {
            let b = buf[q];
            if b == 0x7B {
                object_at(buf, q, eof, depth, max)
            } else if b == 0x5B {
                array_at(buf, q, eof, depth, max)
            } else if b == 0x22 {
                match string_literal(buf, q) {
                    Scan::Done(t, next) => Outcome::Parsed(JsonView::Str(t), next),
                    Scan::Fail(kind, at) => Outcome::Failed(kind@, at),
                }
            } else if b == 0x74 || b == 0x66 {
                match boolean_literal(buf, q) {
                    Outcome::Parsed(v, next) => Outcome::Parsed(JsonView::Boolean(v), next),
                    Outcome::Failed(kind, at) => Outcome::Failed(kind, at),
                }
            } else if b == 0x6E {
                match null_literal(buf, q) {
                    Outcome::Parsed(_, next) => Outcome::Parsed(JsonView::Null, next),
                    Outcome::Failed(kind, at) => Outcome::Failed(kind, at),
                }
            } else if b == 0x2D || (0x30 <= b && b <= 0x39) {
                match number_literal(buf, q, eof) {
                    Scan::Done(n, next) => Outcome::Parsed(JsonView::Number(n), next),
                    Scan::Fail(kind, at) => Outcome::Failed(kind@, at),
                }
            } else {
                Outcome::Failed(
                    ErrorView::UnexpectedToken {
                        found: byte_description(b),
                        expected: value_start_tokens(),
                    },
                    q,
                )
            }
        }
    }
}

/// What `parse_object` makes of an object whose `{` is at `q`.
pub open spec fn object_at(buf: Seq<u8>, q: int, eof: bool, depth: int, max: int) -> Outcome<
    JsonView,
>
    decreases buf.len() - q, 0int,
{
    if q < 0 || q >= buf.len() {
        Outcome::Failed(ErrorView::Incomplete, q)
    } else if depth + 1 > max {
        Outcome::Failed(ErrorView::DepthLimit, q)
    } else {
        let i = skip_ws_from(buf, q + 1);
        proof {
            lemma_skip_ws_from_bounds(buf, q + 1);
        }
        if needs_more_at(buf, eof, i) {
            Outcome::Failed(ErrorView::Incomplete, i)
        } else if byte_at(buf, i) == Some(0x7Du8) {
            Outcome::Parsed(JsonView::Dict(Seq::empty(), Seq::empty()), i + 1)
        } else {
            members_at(buf, i, eof, depth + 1, max, Seq::empty(), Seq::empty())
        }
    }
}

/// The members of an object from `i` on (a key is expected), with `keys`
/// and `vals` read so far, at nesting `depth`.
pub open spec fn members_at(
    buf: Seq<u8>,
    i: int,
    eof: bool,
    depth: int,
    max: int,
    keys: Seq<Seq<char>>,
    vals: Seq<JsonView>,
) -> Outcome<JsonView>
    decreases buf.len() - i, 2int,
{
    if i < 0 || i > buf.len() {
        Outcome::Failed(ErrorView::Incomplete, i)
    } else {
        let i1 = skip_ws_from(buf, i);
        proof {
            lemma_skip_ws_from_bounds(buf, i);
        }
        if needs_more_at(buf, eof, i1) {
            Outcome::Failed(ErrorView::Incomplete, i1)
        } else if byte_at(buf, i1) != Some(0x22u8) {
            Outcome::Failed(
                ErrorView::UnexpectedToken {
                    found: byte_debug_text(byte_at(buf, i1)),
                    expected: seq!["\""],
                },
                i1,
            )
        } else {
            proof {
                lemma_string_literal_bounds(buf, i1);
            }
            match string_literal(buf, i1) {
                Scan::Fail(kind, at) => Outcome::Failed(kind@, at),
                Scan::Done(key, i2) => {
                    let i3 = skip_ws_from(buf, i2);
                    proof {
                        lemma_skip_ws_from_bounds(buf, i2);
                    }
                    if needs_more_at(buf, eof, i3) {
                        Outcome::Failed(ErrorView::Incomplete, i3)
                    } else if byte_at(buf, i3) != Some(0x3Au8) {
                        let n = after_byte(buf, i3);
                        Outcome::Failed(
                            ErrorView::UnexpectedToken {
                                found: byte_debug_text(byte_at(buf, n)),
                                expected: seq![":"],
                            },
                            n,
                        )
                    } else {
                        let i4 = skip_ws_from(buf, i3 + 1);
                        proof {
                            lemma_skip_ws_from_bounds(buf, i3 + 1);
                        }
                        match value_at(buf, i4, eof, depth, max) {
                            Outcome::Failed(kind, at) => Outcome::Failed(kind, at),
                            Outcome::Parsed(v, i5) => {
                                if !(i4 <= i5 <= buf.len()) {
                                    Outcome::Failed(ErrorView::Incomplete, i5)
                                } else {
                                    let (keys2, vals2) = set_member(keys, vals, key, v);
                                    let i6 = skip_ws_from(buf, i5);
                                    proof {
                                        lemma_skip_ws_from_bounds(buf, i5);
                                    }
                                    if needs_more_at(buf, eof, i6) {
                                        Outcome::Failed(ErrorView::Incomplete, i6)
                                    } else if byte_at(buf, i6) == Some(0x2Cu8) {
                                        members_at(buf, i6 + 1, eof, depth, max, keys2, vals2)
                                    } else if byte_at(buf, i6) == Some(0x7Du8) {
                                        Outcome::Parsed(JsonView::Dict(keys2, vals2), i6 + 1)
                                    } else {
                                        let n = after_byte(buf, i6);
                                        Outcome::Failed(
                                            ErrorView::UnexpectedToken {
                                                found: byte_debug_text(byte_at(buf, n)),
                                                expected: seq![",", "}"],
                                            },
                                            n,
                                        )
                                    }
                                }
                            },
                        }
                    }
                },
            }
        }
    }
}

/// After an array element, at `i3` (past whitespace), not at a `,`: the
/// closing `]`, or an error.
pub open spec fn elements_at_tail(
    buf: Seq<u8>,
    i3: int,
    eof: bool,
    depth: int,
    max: int,
    items: Seq<JsonView>,
) -> Outcome<JsonView> {
    if needs_more_at(buf, eof, i3) {
        Outcome::Failed(ErrorView::Incomplete, i3)
    } else if byte_at(buf, i3) == Some(0x5Du8) {
        Outcome::Parsed(JsonView::List(items), i3 + 1)
    } else {
        let n = after_byte(buf, i3);
        Outcome::Failed(
            ErrorView::UnexpectedToken {
                found: byte_debug_text(byte_at(buf, n)),
                expected: seq![",", "]"],
            },
            n,
        )
    }
}

/// What `parse_array` makes of an array whose `[` is at `q`.
pub open spec fn array_at(buf: Seq<u8>, q: int, eof: bool, depth: int, max: int) -> Outcome<
    JsonView,
>
    decreases buf.len() - q, 0int,
{
    if q < 0 || q >= buf.len() {
        Outcome::Failed(ErrorView::Incomplete, q)
    } else if depth + 1 > max {
        Outcome::Failed(ErrorView::DepthLimit, q)
    } else {
        let i = skip_ws_from(buf, q + 1);
        proof {
            lemma_skip_ws_from_bounds(buf, q + 1);
        }
        if needs_more_at(buf, eof, i) {
            Outcome::Failed(ErrorView::Incomplete, i)
        } else if byte_at(buf, i) == Some(0x5Du8) {
            Outcome::Parsed(JsonView::List(Seq::empty()), i + 1)
        } else {
            elements_at(buf, i, eof, depth + 1, max, Seq::empty())
        }
    }
}

/// The elements of an array from `i` on (a value is expected), with `items`
/// read so far, at nesting `depth`.
pub open spec fn elements_at(
    buf: Seq<u8>,
    i: int,
    eof: bool,
    depth: int,
    max: int,
    items: Seq<JsonView>,
) -> Outcome<JsonView>
    decreases buf.len() - i, 2int,
{
    if i < 0 || i > buf.len() {
        Outcome::Failed(ErrorView::Incomplete, i)
    } else {
        let i1 = skip_ws_from(buf, i);
        proof {
            lemma_skip_ws_from_bounds(buf, i);
        }
        match value_at(buf, i1, eof, depth, max) {
            Outcome::Failed(kind, at) => Outcome::Failed(kind, at),
            Outcome::Parsed(v, i2) => {
                if !(i1 <= i2 <= buf.len()) {
                    Outcome::Failed(ErrorView::Incomplete, i2)
                } else {
                    let items2 = items.push(v);
                    let i3 = skip_ws_from(buf, i2);
                    proof {
                        lemma_skip_ws_from_bounds(buf, i2);
                    }
                    if needs_more_at(buf, eof, i3) {
                        Outcome::Failed(ErrorView::Incomplete, i3)
                    } else if byte_at(buf, i3) == Some(0x2Cu8) {
                        elements_at(buf, i3 + 1, eof, depth, max, items2)
                    } else {
                        elements_at_tail(buf, i3, eof, depth, max, items2)
                    }
                }
            },
        }
    }
}

/// The views of a sequence of JSON values, element by element.
pub proof fn lemma_json_views(s: Seq<JsonValue>)
    ensures
        json_views(s).len() == s.len(),
        forall|i: int| 0 <= i < s.len() ==> #[trigger] json_views(s)[i] == json_view(s[i]),
    decreases s.len(),
{
    if s.len() > 0 {
        let rest = s.subrange(1, s.len() as int);
        lemma_json_views(rest);
        assert forall|i: int| 0 <= i < s.len() implies #[trigger] json_views(s)[i] == json_view(
            s[i],
        ) by {
            if i > 0 {
                assert(rest[i - 1] == s[i]);
            }
        }
    }
}

/// The views of the keys of an object.
pub open spec fn key_views(keys: Seq<String>) -> Seq<Seq<char>> {
    keys.map_values(|k: String| k@)
}

/// Set `key` to `value` in an object held as parallel keys and values.
pub(crate) fn set_member_exec(keys: &mut Vec<String>, values: &mut Vec<JsonValue>, key: String, value: JsonValue)
    requires
        old(keys)@.len() == old(values)@.len(),
    ensures
        final(keys)@.len() == final(values)@.len(),
        (key_views(final(keys)@), json_views(final(values)@)) == set_member(
            key_views(old(keys)@),
            json_views(old(values)@),
            key@,
            value@,
        ),
{
    let ghost kv = key_views(keys@);
    proof {
        lemma_json_views(values@);
    }
    let mut k: usize = 0;
    while k < keys.len()
        invariant
            0 <= k <= keys@.len(),
            keys@ == old(keys)@,
            values@ == old(values)@,
            keys@.len() == values@.len(),
            kv == key_views(keys@),
            key_index(kv, key@, k as int) == key_index(kv, key@, 0),
        decreases keys@.len() - k,
    {
        if keys[k] == key {
            let ghost before = values@;
            values.set(k, value);
            proof {
                lemma_json_views(before);
                lemma_json_views(values@);
                assert(json_views(values@) =~= json_views(before).update(k as int, value@));
            }
            return;
        }
        k = k + 1;
    }
    let ghost before_vals = values@;
    keys.push(key);
    values.push(value);
    proof {
        lemma_json_views(before_vals);
        lemma_json_views(values@);
        assert(json_views(values@) =~= json_views(before_vals).push(value@));
        assert(key_views(keys@) =~= kv.push(key@));
    }
}

/// The tokens expected before an object key.
fn quote_tokens() -> (t: &'static [&'static str])
    ensures
        t@ == seq!["\""],
{
    &["\""]
}

/// The tokens expected after an object key.
fn colon_tokens() -> (t: &'static [&'static str])
    ensures
        t@ == seq![":"],
{
    &[":"]
}

/// The tokens expected after an object member.
fn member_end_tokens() -> (t: &'static [&'static str])
    ensures
        t@ == seq![",", "}"],
{
    &[",", "}"]
}

/// The tokens expected after an array element.
fn element_end_tokens() -> (t: &'static [&'static str])
    ensures
        t@ == seq![",", "]"],
{
    &[",", "]"]
}

/// The tokens a value can start with.
fn value_tokens() -> (t: &'static [&'static str])
    ensures
        t@ == value_start_tokens(),
{
    &["{", "[", "\"", "number", "true", "false", "null", "none"]
}

/// The parser state stays put apart from the read position.
pub open spec fn same_but_pos(a: ParserView, b: ParserView) -> bool {
    &&& a.buffer == b.buffer
    &&& a.eof == b.eof
    &&& a.max_depth == b.max_depth
    &&& a.depth == b.depth
}

impl BinJsonParser {
    /// Parse a value at the read position (see `value_at`).
    fn parse_value(&mut self) -> (r: Result<JsonValue, ParseError>)
        requires
            old(self)@.depth <= old(self)@.pos,
        ensures
            same_but_pos(old(self)@, final(self)@),
            old(self)@.pos <= final(self)@.pos <= old(self)@.buffer.len(),
            match value_at(
                old(self)@.buffer,
                old(self)@.pos,
                old(self)@.eof,
                old(self)@.depth,
                old(self)@.max_depth,
            ) {
                Outcome::Parsed(v, next) => r matches Ok(x) && x@ == v && final(self)@.pos == next,
                Outcome::Failed(kind, at) => r matches Err(e) && reports(e, kind, at)
                    && final(self)@.pos == at,
            },
        decreases old(self)@.buffer.len() - old(self)@.pos, 1int,
    {
        let ghost p = self.inner@.1;
        let ghost buf = self.inner@.0;
        let _ = self.inner.pos();
        proof {
            lemma_skip_ws_from_bounds(buf, p);
        }
        self.inner.skip_whitespace();
        if self.needs_more() {
            return Err(self.error(ParseErrorKind::Incomplete));
        }
        let b = match self.inner.peek_byte() {
            Some(b) => b,
            None => {
                return Err(self.error(ParseErrorKind::Incomplete));
            },
        };
        if b == 0x7Bu8 {
            self.parse_object()
        } else if b == 0x5Bu8 {
            self.parse_array()
        } else if b == 0x22u8 {
            proof {
                lemma_string_literal_bounds(buf, self.inner@.1);
            }
            match parse_string(&mut self.inner) {
                Ok(s) => Ok(JsonValue::Str(s)),
                Err(e) => Err(e),
            }
        } else if b == 0x74u8 || b == 0x66u8 {
            match parse_boolean(&mut self.inner) {
                Ok(v) => Ok(JsonValue::Boolean(v)),
                Err(e) => Err(e),
            }
        } else if b == 0x6Eu8 {
            match parse_null(&mut self.inner) {
                Ok(()) => Ok(JsonValue::Null),
                Err(e) => Err(e),
            }
        } else if b == 0x2Du8 || (0x30u8 <= b && b <= 0x39u8) {
            proof {
                lemma_number_literal_bounds(buf, self.inner@.1, self.eof);
            }
            match parse_number(&mut self.inner, self.eof) {
                Ok(n) => Ok(JsonValue::Number(n)),
                Err(e) => Err(e),
            }
        } else {
            Err(
                self.error(
                    ParseErrorKind::UnexpectedToken {
                        found: format_byte_description(b),
                        expected: value_tokens(),
                    },
                ),
            )
        }
    }

    /// Parse an object whose `{` is at the read position (see `object_at`).
    fn parse_object(&mut self) -> (r: Result<JsonValue, ParseError>)
        requires
            old(self)@.depth <= old(self)@.pos < old(self)@.buffer.len(),
            old(self)@.buffer[old(self)@.pos] == 0x7B,
        ensures
            same_but_pos(old(self)@, final(self)@),
            old(self)@.pos <= final(self)@.pos <= old(self)@.buffer.len(),
            match object_at(
                old(self)@.buffer,
                old(self)@.pos,
                old(self)@.eof,
                old(self)@.depth,
                old(self)@.max_depth,
            ) {
                Outcome::Parsed(v, next) => r matches Ok(x) && x@ == v && final(self)@.pos == next,
                Outcome::Failed(kind, at) => r matches Err(e) && reports(e, kind, at)
                    && final(self)@.pos == at,
            },
        decreases old(self)@.buffer.len() - old(self)@.pos, 0int,
    {
        let ghost buf = self.inner@.0;
        let ghost q = self.inner@.1;
        let _ = self.inner.pos();
        self.current_depth = self.current_depth + 1;
        if self.current_depth > self.max_depth {
            self.current_depth = self.current_depth - 1;
            return Err(self.error(ParseErrorKind::DepthLimit));
        }
        let mut keys: Vec<String> = Vec::new();
        let mut values: Vec<JsonValue> = Vec::new();
        if self.inner.next_byte() != Some(0x7Bu8) {
            self.current_depth = self.current_depth - 1;
            return Err(self.error_msg("Expected '{'"));
        }
        proof {
            lemma_skip_ws_from_bounds(buf, q + 1);
        }
        self.inner.skip_whitespace();
        if self.needs_more() {
            self.current_depth = self.current_depth - 1;
            return Err(self.error(ParseErrorKind::Incomplete));
        }
        proof {
            assert(key_views(keys@) =~= Seq::<Seq<char>>::empty());
            assert(json_views(values@) =~= Seq::<JsonView>::empty());
        }
        if self.inner.peek_byte() == Some(0x7Du8) {
            self.inner.next_byte();
            self.current_depth = self.current_depth - 1;
            return Ok(JsonValue::Dict(keys, values));
        }
        let ghost start = self.inner@.1;
        let ghost d = self.current_depth as int;
        loop
            invariant
                self.inner@.0 == buf,
                buf == old(self)@.buffer,
                self.eof == old(self)@.eof,
                self.max_depth == old(self)@.max_depth,
                self.current_depth == d,
                d == old(self)@.depth + 1,
                d <= old(self)@.max_depth,
                q == old(self)@.pos,
                q + 1 <= start <= self.inner@.1 <= buf.len(),
                buf.len() <= usize::MAX,
                d <= q + 1,
                keys@.len() == values@.len(),
                members_at(buf, self.inner@.1, self.eof, d, self.max_depth as int, key_views(keys@), json_views(values@))
                    == object_at(buf, q, self.eof, d - 1, self.max_depth as int),
            decreases buf.len() - self.inner@.1,
        {
            let ghost i = self.inner@.1;
            proof {
                lemma_skip_ws_from_bounds(buf, i);
            }
            self.inner.skip_whitespace();
            if self.needs_more() {
                self.current_depth = self.current_depth - 1;
                return Err(self.error(ParseErrorKind::Incomplete));
            }
            if self.inner.peek_byte() != Some(0x22u8) {
                self.current_depth = self.current_depth - 1;
                let found = format_byte_debug(self.inner.peek_byte());
                return Err(
                    self.error(ParseErrorKind::UnexpectedToken { found, expected: quote_tokens() }),
                );
            }
            proof {
                lemma_string_literal_bounds(buf, self.inner@.1);
            }
            let key = match parse_string(&mut self.inner) {
                Ok(k) => k,
                Err(e) => {
                    self.current_depth = self.current_depth - 1;
                    return Err(e);
                },
            };
            let ghost i2 = self.inner@.1;
            proof {
                lemma_skip_ws_from_bounds(buf, i2);
            }
            self.inner.skip_whitespace();
            if self.needs_more() {
                self.current_depth = self.current_depth - 1;
                return Err(self.error(ParseErrorKind::Incomplete));
            }
            if self.inner.next_byte() != Some(0x3Au8) {
                self.current_depth = self.current_depth - 1;
                let found = format_byte_debug(self.inner.peek_byte());
                return Err(
                    self.error(ParseErrorKind::UnexpectedToken { found, expected: colon_tokens() }),
                );
            }
            let ghost i3 = self.inner@.1;
            proof {
                lemma_skip_ws_from_bounds(buf, i3);
            }
            self.inner.skip_whitespace();
            let value = match self.parse_value() {
                Ok(v) => v,
                Err(e) => {
                    self.current_depth = self.current_depth - 1;
                    return Err(e);
                },
            };
            let ghost i5 = self.inner@.1;
            set_member_exec(&mut keys, &mut values, key, value);
            proof {
                lemma_skip_ws_from_bounds(buf, i5);
            }
            self.inner.skip_whitespace();
            if self.needs_more() {
                self.current_depth = self.current_depth - 1;
                return Err(self.error(ParseErrorKind::Incomplete));
            }
            match self.inner.next_byte() {
                Some(c) => {
                    if c == 0x7Du8 {
                        self.current_depth = self.current_depth - 1;
                        return Ok(JsonValue::Dict(keys, values));
                    } else if c != 0x2Cu8 {
                        self.current_depth = self.current_depth - 1;
                        let found = format_byte_debug(self.inner.peek_byte());
                        return Err(
                            self.error(
                                ParseErrorKind::UnexpectedToken {
                                    found,
                                    expected: member_end_tokens(),
                                },
                            ),
                        );
                    }
                },
                None => {
                    self.current_depth = self.current_depth - 1;
                    let found = format_byte_debug(self.inner.peek_byte());
                    return Err(
                        self.error(
                            ParseErrorKind::UnexpectedToken { found, expected: member_end_tokens() },
                        ),
                    );
                },
            }
        }
    }
    /// Parse an array whose `[` is at the read position (see `array_at`).
    fn parse_array(&mut self) -> (r: Result<JsonValue, ParseError>)
        requires
            old(self)@.depth <= old(self)@.pos < old(self)@.buffer.len(),
            old(self)@.buffer[old(self)@.pos] == 0x5B,
        ensures
            same_but_pos(old(self)@, final(self)@),
            old(self)@.pos <= final(self)@.pos <= old(self)@.buffer.len(),
            match array_at(
                old(self)@.buffer,
                old(self)@.pos,
                old(self)@.eof,
                old(self)@.depth,
                old(self)@.max_depth,
            ) {
                Outcome::Parsed(v, next) => r matches Ok(x) && x@ == v && final(self)@.pos == next,
                Outcome::Failed(kind, at) => r matches Err(e) && reports(e, kind, at)
                    && final(self)@.pos == at,
            },
        decreases old(self)@.buffer.len() - old(self)@.pos, 0int,
    {
        let ghost buf = self.inner@.0;
        let ghost q = self.inner@.1;
        let _ = self.inner.pos();
        self.current_depth = self.current_depth + 1;
        if self.current_depth > self.max_depth {
            self.current_depth = self.current_depth - 1;
            return Err(self.error(ParseErrorKind::DepthLimit));
        }
        let mut items: Vec<JsonValue> = Vec::new();
        if self.inner.next_byte() != Some(0x5Bu8) {
            self.current_depth = self.current_depth - 1;
            return Err(self.error_msg("Expected '['"));
        }
        proof {
            lemma_skip_ws_from_bounds(buf, q + 1);
        }
        self.inner.skip_whitespace();
        if self.needs_more() {
            self.current_depth = self.current_depth - 1;
            return Err(self.error(ParseErrorKind::Incomplete));
        }
        proof {
            assert(json_views(items@) =~= Seq::<JsonView>::empty());
        }
        if self.inner.peek_byte() == Some(0x5Du8) {
            self.inner.next_byte();
            self.current_depth = self.current_depth - 1;
            return Ok(JsonValue::List(items));
        }
        let ghost start = self.inner@.1;
        let ghost d = self.current_depth as int;
        loop
            invariant
                self.inner@.0 == buf,
                buf == old(self)@.buffer,
                self.eof == old(self)@.eof,
                self.max_depth == old(self)@.max_depth,
                self.current_depth == d,
                d == old(self)@.depth + 1,
                d <= old(self)@.max_depth,
                q == old(self)@.pos,
                q + 1 <= start <= self.inner@.1 <= buf.len(),
                buf.len() <= usize::MAX,
                d <= q + 1,
                elements_at(buf, self.inner@.1, self.eof, d, self.max_depth as int, json_views(items@))
                    == array_at(buf, q, self.eof, d - 1, self.max_depth as int),
            decreases buf.len() - self.inner@.1,
        {
            let ghost i = self.inner@.1;
            proof {
                lemma_skip_ws_from_bounds(buf, i);
            }
            self.inner.skip_whitespace();
            let value = match self.parse_value() {
                Ok(v) => v,
                Err(e) => {
                    self.current_depth = self.current_depth - 1;
                    return Err(e);
                },
            };
            let ghost i2 = self.inner@.1;
            let ghost before = items@;
            let ghost i1 = skip_ws_from(buf, i);
            assert(value_at(buf, i1, self.eof, d, self.max_depth as int) == Outcome::<JsonView>::Parsed(
                value@,
                i2,
            ));
            items.push(value);
            proof {
                lemma_json_views(before);
                lemma_json_views(items@);
                assert(json_views(items@) =~= json_views(before).push(items@.last()@));
                lemma_skip_ws_from_bounds(buf, i2);
            }
            self.inner.skip_whitespace();
            let ghost i3 = self.inner@.1;
            proof {
                let max = self.max_depth as int;
                let rest = if needs_more_at(buf, self.eof, i3) {
                    Outcome::Failed(ErrorView::Incomplete, i3)
                } else if byte_at(buf, i3) == Some(0x2Cu8) {
                    elements_at(buf, i3 + 1, self.eof, d, max, json_views(items@))
                } else {
                    elements_at_tail(buf, i3, self.eof, d, max, json_views(items@))
                };
                assert(elements_at(buf, i, self.eof, d, max, json_views(before)) == rest);
            }
            if self.needs_more() {
                self.current_depth = self.current_depth - 1;
                return Err(self.error(ParseErrorKind::Incomplete));
            }
            match self.inner.next_byte() {
                Some(c) => {
                    if c == 0x5Du8 {
                        self.current_depth = self.current_depth - 1;
                        return Ok(JsonValue::List(items));
                    } else if c != 0x2Cu8 {
                        self.current_depth = self.current_depth - 1;
                        let found = format_byte_debug(self.inner.peek_byte());
                        return Err(
                            self.error(
                                ParseErrorKind::UnexpectedToken {
                                    found,
                                    expected: element_end_tokens(),
                                },
                            ),
                        );
                    }
                },
                None => {
                    self.current_depth = self.current_depth - 1;
                    let found = format_byte_debug(self.inner.peek_byte());
                    return Err(
                        self.error(
                            ParseErrorKind::UnexpectedToken {
                                found,
                                expected: element_end_tokens(),
                            },
                        ),
                    );
                },
            }
        }
    }
}

/// What `parse_full` makes of the input at `p`: one value, then only
/// whitespace up to the end of the buffer.
pub open spec fn full_at(buf: Seq<u8>, p: int, eof: bool, max: int) -> Outcome<JsonView> {
    match value_at(buf, p, eof, 0, max) {
        Outcome::Failed(kind, at) => Outcome::Failed(kind, at),
        Outcome::Parsed(v, e) => {
            let e2 = skip_ws_from(buf, e);
            if e2 != buf.len() {
                Outcome::Failed(ErrorView::TrailingData, e2)
            } else {
                Outcome::Parsed(v, e2)
            }
        },
    }
}

/// The result of a streaming parse step.
#[derive(Debug, PartialEq)]
pub enum Next<T> {
    /// A complete value.
    Value(T),
    /// The buffer ends before a value is complete; feed more input.
    NeedMore,
    /// The input has ended and no value is left.
    Eof,
}

/// The mathematical value of a streaming parse step.
pub enum NextView {
    Value(JsonView),
    NeedMore,
    Eof,
}

/// What `parse_next` makes of the input at `p`: whitespace is skipped; at the
/// end of the buffer, `Eof` or `NeedMore`; else a value, where running out of
/// input is `NeedMore` until the end of input is signalled, with the read
/// position back at the start of the value, which is parsed again from there
/// once more input arrives.
pub open spec fn next_at(buf: Seq<u8>, p: int, eof: bool, max: int) -> Outcome<NextView> {
    let q = skip_ws_from(buf, p);
    if q >= buf.len() {
        if eof {
            Outcome::Parsed(NextView::Eof, q)
        } else {
            Outcome::Parsed(NextView::NeedMore, q)
        }
    } else {
        match value_at(buf, q, eof, 0, max) {
            Outcome::Parsed(v, e) => Outcome::Parsed(NextView::Value(v), e),
            Outcome::Failed(kind, at) => if kind is Incomplete && !eof {
                Outcome::Parsed(NextView::NeedMore, q)
            } else {
                Outcome::Failed(kind, at)
            },
        }
    }
}

/// A value that ran out of input is parsed again from its start: when
/// `parse_next` answers `NeedMore`, the read position is where the value
/// begins, and once more input is fed (and the end of input perhaps
/// signalled) `parse_next` gives exactly what it gives with all the input fed
/// before the first call.
pub proof fn law_need_more_then_resume(buf: Seq<u8>, more: Seq<u8>, p: int, eof: bool, max: int)
    requires
        0 <= p <= buf.len(),
        next_at(buf, p, false, max) matches Outcome::Parsed(NextView::NeedMore, _),
    ensures
        next_at(buf, p, false, max) == Outcome::<NextView>::Parsed(
            NextView::NeedMore,
            skip_ws_from(buf, p),
        ),
        next_at(buf + more, skip_ws_from(buf, p), eof, max) == next_at(buf + more, p, eof, max),
{
    let ab = buf + more;
    assert(extends(ab, buf)) by {
        assert forall|i: int| 0 <= i < buf.len() implies ab[i] == buf[i] by {}
    }
    lemma_skip_ws_from_bounds(buf, p);
    lemma_skip_ws_extends(buf, ab, p);
}


impl BinJsonParser {
    /// Parse exactly one value and reject anything but whitespace after it
    /// (see `full_at`).
    pub fn parse_full(&mut self) -> (r: Result<JsonValue, ParseError>)
        requires
            old(self)@.depth == 0,
        ensures
            same_but_pos(old(self)@, final(self)@),
            match full_at(old(self)@.buffer, old(self)@.pos, old(self)@.eof, old(self)@.max_depth) {
                Outcome::Parsed(v, next) => r matches Ok(x) && x@ == v && final(self)@.pos == next,
                Outcome::Failed(kind, at) => r matches Err(e) && reports(e, kind, at)
                    && final(self)@.pos == at,
            },
    {
        let _ = self.inner.pos();
        let value = match self.parse_value() {
            Ok(v) => v,
            Err(e) => {
                return Err(e);
            },
        };
        let ghost e = self.inner@.1;
        proof {
            lemma_skip_ws_from_bounds(self.inner@.0, e);
        }
        self.inner.skip_whitespace();
        if self.inner.pos() != self.inner.buffer().len() {
            return Err(self.error(ParseErrorKind::TrailingData));
        }
        Ok(value)
    }

    /// Parse the next value of a stream (see `next_at`).
    pub fn parse_next(&mut self) -> (r: Result<Next<JsonValue>, ParseError>)
        requires
            old(self)@.depth == 0,
        ensures
            same_but_pos(old(self)@, final(self)@),
            match next_at(old(self)@.buffer, old(self)@.pos, old(self)@.eof, old(self)@.max_depth) {
                Outcome::Parsed(NextView::Value(v), next) => r matches Ok(Next::Value(x)) && x@ == v
                    && final(self)@.pos == next,
                Outcome::Parsed(NextView::NeedMore, next) => r matches Ok(Next::NeedMore)
                    && final(self)@.pos == next,
                Outcome::Parsed(NextView::Eof, next) => r matches Ok(Next::Eof) && final(self)@.pos
                    == next,
                Outcome::Failed(kind, at) => r matches Err(e) && reports(e, kind, at)
                    && final(self)@.pos == at,
            },
    {
        let ghost p = self.inner@.1;
        let _ = self.inner.pos();
        proof {
            lemma_skip_ws_from_bounds(self.inner@.0, p);
        }
        self.inner.skip_whitespace();
        if self.inner.pos() >= self.inner.buffer().len() {
            if self.eof {
                return Ok(Next::Eof);
            } else {
                return Ok(Next::NeedMore);
            }
        }
        let start = self.inner.pos();
        match self.parse_value() {
            Ok(value) => Ok(Next::Value(value)),
            Err(e) => {
                let incomplete = match e.kind {
                    ParseErrorKind::Incomplete => true,
                    _ => false,
                };
                if incomplete {
                    if self.eof {
                        Err(e)
                    } else {
                        // Progress is discarded: the value is parsed again
                        // from its start once more input arrives.
                        self.inner.set_pos(start);
                        Ok(Next::NeedMore)
                    }
                } else {
                    Err(e)
                }
            },
        }
    }

    /// Parse one complete value from `input`: feed it, signal the end of
    /// input, and parse exactly one value.
    pub fn parse_one(input: &[u8]) -> (r: Result<JsonValue, ParseError>)
        ensures
            match full_at(input@, 0, true, DEFAULT_MAX_DEPTH as int) {
                Outcome::Parsed(v, _) => r matches Ok(x) && x@ == v,
                Outcome::Failed(kind, at) => r matches Err(e) && reports(e, kind, at),
            },
    {
        let mut parser = BinJsonParser::new();
        match parser.feed(input) {
            Ok(()) => {},
            Err(e) => {
                return Err(e);
            },
        }
        parser.end_of_input();
        assert(Seq::<u8>::empty() + input@ =~= input@);
        parser.parse_full()
    }
}

/// Binary JSON parser over byte input.
#[derive(Debug)]
pub struct BsonParser(BinJsonParser);

/// JSON parser over text input.
#[derive(Debug)]
pub struct JsonParser(BinJsonParser);

impl View for BsonParser {
    type V = ParserView;

    closed spec fn view(&self) -> ParserView {
        self.0@
    }
}

impl View for JsonParser {
    type V = ParserView;

    closed spec fn view(&self) -> ParserView {
        self.0@
    }
}

impl BsonParser {
    /// A parser with an empty buffer (see `BinJsonParser::new`).
    pub fn new() -> (p: Self)
        ensures
            p@ == BinJsonParser::new_state(),
    {
        BsonParser(BinJsonParser::new())
    }

    /// Parse one complete value from bytes (see `BinJsonParser::parse_one`).
    pub fn parse_one(input: &[u8]) -> (r: Result<JsonValue, ParseError>)
        ensures
            match full_at(input@, 0, true, DEFAULT_MAX_DEPTH as int) {
                Outcome::Parsed(v, _) => r matches Ok(x) && x@ == v,
                Outcome::Failed(kind, at) => r matches Err(e) && reports(e, kind, at),
            },
    {
        BinJsonParser::parse_one(input)
    }

    /// Append bytes; refused after the end of input.
    pub fn feed(&mut self, input: &[u8]) -> (r: Result<(), ParseError>)
        ensures
            old(self)@.eof ==> r is Err && final(self)@ == old(self)@,
            !old(self)@.eof ==> r is Ok && final(self)@ == (ParserView {
                buffer: old(self)@.buffer + input@,
                ..old(self)@
            }),
    {
        self.0.feed(input)
    }

    /// Signal the end of input.
    pub fn end_of_input(&mut self)
        ensures
            final(self)@ == (ParserView { eof: true, ..old(self)@ }),
    {
        self.0.end_of_input()
    }

    /// Parse exactly one value (see `BinJsonParser::parse_full`).
    pub fn parse_full(&mut self) -> (r: Result<JsonValue, ParseError>)
        requires
            old(self)@.depth == 0,
        ensures
            same_but_pos(old(self)@, final(self)@),
            match full_at(old(self)@.buffer, old(self)@.pos, old(self)@.eof, old(self)@.max_depth) {
                Outcome::Parsed(v, next) => r matches Ok(x) && x@ == v && final(self)@.pos == next,
                Outcome::Failed(kind, at) => r matches Err(e) && reports(e, kind, at)
                    && final(self)@.pos == at,
            },
    {
        self.0.parse_full()
    }

    /// Parse the next value of a stream (see `BinJsonParser::parse_next`).
    pub fn parse_next(&mut self) -> (r: Result<Next<JsonValue>, ParseError>)
        requires
            old(self)@.depth == 0,
        ensures
            same_but_pos(old(self)@, final(self)@),
            match next_at(old(self)@.buffer, old(self)@.pos, old(self)@.eof, old(self)@.max_depth) {
                Outcome::Parsed(NextView::Value(v), next) => r matches Ok(Next::Value(x)) && x@ == v
                    && final(self)@.pos == next,
                Outcome::Parsed(NextView::NeedMore, next) => r matches Ok(Next::NeedMore)
                    && final(self)@.pos == next,
                Outcome::Parsed(NextView::Eof, next) => r matches Ok(Next::Eof) && final(self)@.pos
                    == next,
                Outcome::Failed(kind, at) => r matches Err(e) && reports(e, kind, at)
                    && final(self)@.pos == at,
            },
    {
        self.0.parse_next()
    }

    /// The read position.
    pub fn pos(&self) -> (p: usize)
        ensures
            p == self@.pos,
    {
        self.0.pos()
    }

    /// Configure the maximum nesting depth.
    pub fn max_depth(&mut self, depth: usize) -> (r: &mut Self)
        ensures
            r@ == (ParserView { max_depth: depth as int, ..old(self)@ }),
            *final(self) == *final(r),
    {
        self.0.max_depth = depth;
        self
    }
}

impl JsonParser {
    /// A parser with an empty buffer (see `BinJsonParser::new`).
    pub fn new() -> (p: Self)
        ensures
            p@ == BinJsonParser::new_state(),
    {
        JsonParser(BinJsonParser::new())
    }

    /// Parse one complete value from text (its UTF-8 bytes).
    pub fn parse_one(input: &str) -> (r: Result<JsonValue, ParseError>)
        ensures
            match full_at(input.spec_bytes(), 0, true, DEFAULT_MAX_DEPTH as int) {
                Outcome::Parsed(v, _) => r matches Ok(x) && x@ == v,
                Outcome::Failed(kind, at) => r matches Err(e) && reports(e, kind, at),
            },
    {
        BinJsonParser::parse_one(input.as_bytes())
    }

    /// Append text (its UTF-8 bytes); refused after the end of input.
    pub fn feed(&mut self, input: &str) -> (r: Result<(), ParseError>)
        ensures
            old(self)@.eof ==> r is Err && final(self)@ == old(self)@,
            !old(self)@.eof ==> r is Ok && final(self)@ == (ParserView {
                buffer: old(self)@.buffer + input.spec_bytes(),
                ..old(self)@
            }),
    {
        self.0.feed_str(input)
    }

    /// Signal the end of input.
    pub fn end_of_input(&mut self)
        ensures
            final(self)@ == (ParserView { eof: true, ..old(self)@ }),
    {
        self.0.end_of_input()
    }

    /// Parse exactly one value (see `BinJsonParser::parse_full`).
    pub fn parse_full(&mut self) -> (r: Result<JsonValue, ParseError>)
        requires
            old(self)@.depth == 0,
        ensures
            same_but_pos(old(self)@, final(self)@),
            match full_at(old(self)@.buffer, old(self)@.pos, old(self)@.eof, old(self)@.max_depth) {
                Outcome::Parsed(v, next) => r matches Ok(x) && x@ == v && final(self)@.pos == next,
                Outcome::Failed(kind, at) => r matches Err(e) && reports(e, kind, at)
                    && final(self)@.pos == at,
            },
    {
        self.0.parse_full()
    }

    /// Parse the next value of a stream (see `BinJsonParser::parse_next`).
    pub fn parse_next(&mut self) -> (r: Result<Next<JsonValue>, ParseError>)
        requires
            old(self)@.depth == 0,
        ensures
            same_but_pos(old(self)@, final(self)@),
            match next_at(old(self)@.buffer, old(self)@.pos, old(self)@.eof, old(self)@.max_depth) {
                Outcome::Parsed(NextView::Value(v), next) => r matches Ok(Next::Value(x)) && x@ == v
                    && final(self)@.pos == next,
                Outcome::Parsed(NextView::NeedMore, next) => r matches Ok(Next::NeedMore)
                    && final(self)@.pos == next,
                Outcome::Parsed(NextView::Eof, next) => r matches Ok(Next::Eof) && final(self)@.pos
                    == next,
                Outcome::Failed(kind, at) => r matches Err(e) && reports(e, kind, at)
                    && final(self)@.pos == at,
            },
    {
        self.0.parse_next()
    }

    /// The read position.
    pub fn pos(&self) -> (p: usize)
        ensures
            p == self@.pos,
    {
        self.0.pos()
    }

    /// Configure the maximum nesting depth.
    pub fn max_depth(&mut self, depth: usize) -> (r: &mut Self)
        ensures
            r@ == (ParserView { max_depth: depth as int, ..old(self)@ }),
            *final(self) == *final(r),
    {
        self.0.max_depth = depth;
        self
    }
}

impl Default for BsonParser {
    fn default() -> (p: Self)
        ensures
            p@ == BinJsonParser::new_state(),
    {
        Self::new()
    }
}

impl Default for JsonParser {
    fn default() -> (p: Self)
        ensures
            p@ == BinJsonParser::new_state(),
    {
        Self::new()
    }
}

} // verus!
