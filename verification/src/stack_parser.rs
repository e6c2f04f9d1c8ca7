//! A resumable JSON parser: open containers live on an explicit stack, so a
//! parse interrupted by the end of the buffer continues where it stopped
//! once more input arrives.
use vstd::prelude::*;
use crate::text::push_char;
use crate::bin_inner::{extends, lemma_skip_ws_extends, lemma_skip_ws_from_bounds, skip_ws_from, BinInner};
use crate::json_parse::{
    boolean_literal, lemma_boolean_literal_extends, lemma_null_literal_extends,
    lemma_number_literal_bounds, lemma_number_literal_extends, lemma_string_literal_extends, lemma_string_literal_bounds, null_literal,
    number_literal, parse_boolean, parse_null, parse_number, parse_string, string_literal, Scan,
};
use crate::json_parser::{
    byte_at, byte_debug_text, format_byte_debug, json_views, key_views,
    lemma_json_views, needs_more_at, set_member, set_member_exec, FrameState, JsonValue, JsonView,
    Next, NextView, DEFAULT_MAX_DEPTH,
};
use crate::parse_error::{error_at, reports, ErrorView, Outcome, ParseError, ParseErrorKind};

verus! {

/// A container being parsed.
#[derive(Debug)]
pub enum StackFrame {
    /// An object: the members so far (distinct keys, values at the same
    /// index) and the key waiting for its value, if any.
    Object { keys: Vec<String>, values: Vec<JsonValue>, current_key: Option<String> },
    /// An array: the items so far.
    Array { items: Vec<JsonValue> },
}

/// The mathematical value of a stack frame.
pub enum FrameView {
    Object { keys: Seq<Seq<char>>, values: Seq<JsonView>, key: Option<Seq<char>> },
    Array { items: Seq<JsonView> },
}

impl View for StackFrame {
    type V = FrameView;

    open spec fn view(&self) -> FrameView {
        match self {
            StackFrame::Object { keys, values, current_key } => FrameView::Object {
                keys: key_views(keys@),
                values: json_views(values@),
                key: match current_key {
                    Some(k) => Some(k@),
                    None => None,
                },
            },
            StackFrame::Array { items } => FrameView::Array { items: json_views(items@) },
        }
    }
}

/// A frame is well formed: an object has as many values as keys.
pub open spec fn frame_ok(f: FrameView) -> bool {
    match f {
        FrameView::Object { keys, values, .. } => keys.len() == values.len(),
        FrameView::Array { .. } => true,
    }
}

/// Every frame of a stack is well formed.
pub open spec fn stack_ok(stack: Seq<FrameView>) -> bool {
    forall|i: int| 0 <= i < stack.len() ==> frame_ok(#[trigger] stack[i])
}

/// Replacing the innermost frame of a well-formed stack by a well-formed
/// frame, or pushing one, keeps the stack well formed.
pub proof fn lemma_stack_ok_edit(stack: Seq<FrameView>, f: FrameView)
    requires
        stack_ok(stack),
        frame_ok(f),
    ensures
        stack_ok(stack.push(f)),
        stack.len() > 0 ==> stack_ok(stack.drop_last().push(f)),
        stack.len() > 0 ==> stack_ok(stack.drop_last()),
        stack.len() > 0 ==> frame_ok(stack.last()),
{
    assert forall|i: int| 0 <= i < stack.push(f).len() implies frame_ok(#[trigger] stack.push(f)[i]) by {
        if i < stack.len() {
            assert(stack.push(f)[i] == stack[i]);
        }
    }
    if stack.len() > 0 {
        let d = stack.drop_last();
        assert forall|i: int| 0 <= i < d.push(f).len() implies frame_ok(#[trigger] d.push(f)[i]) by {
            if i < d.len() {
                assert(d.push(f)[i] == stack[i]);
            }
        }
        assert forall|i: int| 0 <= i < d.len() implies frame_ok(#[trigger] d[i]) by {
            assert(d[i] == stack[i]);
        }
        assert(frame_ok(stack[stack.len() - 1]));
    }
}

/// The frames of a stack, bottom first.
pub open spec fn frame_views(frames: Seq<StackFrame>) -> Seq<FrameView> {
    frames.map_values(|f: StackFrame| f@)
}

/// What the parser expects next in the innermost frame, if any.
pub open spec fn frame_state_of(stack: Seq<FrameView>) -> Option<FrameState> {
    if stack.len() == 0 {
        None
    } else {
        match stack.last() {
            FrameView::Object { key: None, .. } => Some(FrameState::ObjectWaitingForKey),
            FrameView::Object { key: Some(_), .. } => Some(FrameState::ObjectWaitingForValue),
            FrameView::Array { .. } => Some(FrameState::Array),
        }
    }
}

/// An empty object frame.
pub open spec fn empty_object() -> FrameView {
    FrameView::Object { keys: Seq::empty(), values: Seq::empty(), key: None }
}

/// An empty array frame.
pub open spec fn empty_array() -> FrameView {
    FrameView::Array { items: Seq::empty() }
}

/// The stack after adding `v` to the innermost container, or the error.
pub open spec fn stack_push(stack: Seq<FrameView>, v: JsonView) -> Result<
    Seq<FrameView>,
    ParseErrorKind,
> {
    if stack.len() == 0 {
        Err(ParseErrorKind::Message("Cannot push - no container on stack"))
    } else {
        let top = stack.last();
        let below = stack.drop_last();
        match top {
            FrameView::Object { keys, values, key } => match key {
                None => Err(ParseErrorKind::Message("Object value without key")),
                Some(k) => {
                    let (keys2, values2) = set_member(keys, values, k, v);
                    Ok(below.push(FrameView::Object { keys: keys2, values: values2, key: None }))
                },
            },
            FrameView::Array { items } => Ok(below.push(FrameView::Array { items: items.push(v) })),
        }
    }
}

/// The value a finished frame stands for.
pub open spec fn frame_value(f: FrameView) -> JsonView {
    match f {
        FrameView::Object { keys, values, .. } => JsonView::Dict(keys, values),
        FrameView::Array { items } => JsonView::List(items),
    }
}

/// What `push_to_parent` does: the finished innermost frame is removed; at
/// the top level its value is the result, else it is added to its parent.
/// The stack after the step, and the result or error.
pub open spec fn stack_close(stack: Seq<FrameView>) -> (
    Seq<FrameView>,
    Result<Option<JsonView>, ParseErrorKind>,
) {
    if stack.len() == 0 {
        (stack, Err(ParseErrorKind::Message("Cannot push_to_parent - stack is empty")))
    } else {
        let v = frame_value(stack.last());
        let rest = stack.drop_last();
        if rest.len() == 0 {
            (rest, Ok(Some(v)))
        } else {
            match stack_push(rest, v) {
                Ok(s) => (s, Ok(None)),
                Err(e) => (rest, Err(e)),
            }
        }
    }
}

/// The stack after giving the innermost object the pending key `key`, or the
/// error when the innermost container is not an object.
pub open spec fn stack_set_key(stack: Seq<FrameView>, key: Seq<char>) -> Result<
    Seq<FrameView>,
    ParseErrorKind,
> {
    if stack.len() > 0 && stack.last() is Object {
        Ok(stack.drop_last().push(
            FrameView::Object { keys: stack.last()->keys, values: stack.last()->values, key: Some(key) },
        ))
    } else {
        Err(ParseErrorKind::Message("Cannot push key - not in object"))
    }
}

impl StackFrame {
    /// A new empty object frame.
    pub fn new_object() -> (f: Self)
        ensures
            f@ == empty_object(),
    {
        let f = StackFrame::Object { keys: Vec::new(), values: Vec::new(), current_key: None };
        assert(f@ == empty_object()) by {
            assert(key_views(Seq::<String>::empty()) =~= Seq::<Seq<char>>::empty());
            assert(json_views(Seq::<JsonValue>::empty()) =~= Seq::<JsonView>::empty());
        }
        f
    }

    /// A new empty array frame.
    pub fn new_array() -> (f: Self)
        ensures
            f@ == empty_array(),
    {
        let f = StackFrame::Array { items: Vec::new() };
        assert(f@ == empty_array()) by {
            assert(json_views(Seq::<JsonValue>::empty()) =~= Seq::<JsonView>::empty());
        }
        f
    }
}

/// The stack of containers being parsed, innermost last.
pub struct ValueStack {
    stack: Vec<StackFrame>,
}

impl View for ValueStack {
    type V = Seq<FrameView>;

    closed spec fn view(&self) -> Seq<FrameView> {
        frame_views(self.stack@)
    }
}

impl ValueStack {
    /// Every frame is well formed.
    pub open spec fn wf(&self) -> bool {
        stack_ok(self@)
    }

    /// An empty stack.
    pub fn new() -> (s: Self)
        ensures
            s@ == Seq::<FrameView>::empty(),
            s.wf(),
    {
        let s = ValueStack { stack: Vec::new() };
        assert(s@ =~= Seq::<FrameView>::empty());
        s
    }

    /// Whether no container is open.
    pub fn is_empty(&self) -> (b: bool)
        ensures
            b == (self@.len() == 0),
    {
        self.stack.len() == 0
    }

    /// How many containers are open.
    pub fn len(&self) -> (n: usize)
        ensures
            n == self@.len(),
    {
        self.stack.len()
    }

    /// What the parser expects next in the innermost container.
    pub fn current_frame_state(&self) -> (s: Option<FrameState>)
        ensures
            s == frame_state_of(self@),
    {
        let n = self.stack.len();
        if n == 0 {
            return None;
        }
        match &self.stack[n - 1] {
            StackFrame::Object { current_key, .. } => match current_key {
                None => Some(FrameState::ObjectWaitingForKey),
                Some(_) => Some(FrameState::ObjectWaitingForValue),
            },
            StackFrame::Array { .. } => Some(FrameState::Array),
        }
    }

    /// Open an object.
    pub fn push_new_object(&mut self)
        requires
            old(self).wf(),
        ensures
            final(self)@ == old(self)@.push(empty_object()),
            final(self).wf(),
    {
        let f = StackFrame::new_object();
        self.stack.push(f);
        assert(self@ =~= old(self)@.push(empty_object()));
        proof {
            lemma_stack_ok_edit(old(self)@, empty_object());
        }
    }

    /// Open an array.
    pub fn push_new_array(&mut self)
        requires
            old(self).wf(),
        ensures
            final(self)@ == old(self)@.push(empty_array()),
            final(self).wf(),
    {
        let f = StackFrame::new_array();
        self.stack.push(f);
        assert(self@ =~= old(self)@.push(empty_array()));
        proof {
            lemma_stack_ok_edit(old(self)@, empty_array());
        }
    }
    /// Give the innermost object its pending key.
    pub fn push_new_key(&mut self, key: String) -> (r: Result<(), ParseErrorKind>)
        requires
            old(self).wf(),
        ensures
            final(self).wf(),
            match stack_set_key(old(self)@, key@) {
                Ok(s) => r is Ok && final(self)@ == s,
                Err(e) => r == Err::<(), ParseErrorKind>(e) && final(self)@ == old(self)@,
            },
    {
        let ghost before = self.stack@;
        match self.stack.pop() {
            None => Err(ParseErrorKind::Message("Cannot push key - not in object")),
            Some(frame) => match frame {
                StackFrame::Object { keys, values, current_key: _ } => {
                    self.stack.push(StackFrame::Object { keys, values, current_key: Some(key) });
                    proof {
                        assert(self.stack@.drop_last() =~= before.drop_last());
                        assert(self@ =~= old(self)@.drop_last().push(self.stack@.last()@));
                        lemma_stack_ok_edit(old(self)@, empty_array());
                        assert(frame_views(before)[before.len() - 1] == before.last()@);
                        lemma_stack_ok_edit(old(self)@, self.stack@.last()@);
                    }
                    Ok(())
                },
                StackFrame::Array { items } => {
                    self.stack.push(StackFrame::Array { items });
                    proof {
                        assert(self.stack@ =~= before);
                    }
                    Err(ParseErrorKind::Message("Cannot push key - not in object"))
                },
            },
        }
    }

    /// Add a value to the innermost container: under the pending key of an
    /// object, or at the end of an array.
    pub fn push(&mut self, value: JsonValue) -> (r: Result<(), ParseErrorKind>)
        requires
            old(self).wf(),
        ensures
            final(self).wf(),
            match stack_push(old(self)@, value@) {
                Ok(s) => r is Ok && final(self)@ == s,
                Err(e) => r == Err::<(), ParseErrorKind>(e) && final(self)@ == old(self)@,
            },
    {
        let ghost before = self.stack@;
        match self.stack.pop() {
            None => Err(ParseErrorKind::Message("Cannot push - no container on stack")),
            Some(frame) => match frame {
                StackFrame::Object { mut keys, mut values, current_key } => match current_key {
                    None => {
                        self.stack.push(StackFrame::Object { keys, values, current_key: None });
                        proof {
                            assert(self.stack@ =~= before);
                        }
                        Err(ParseErrorKind::Message("Object value without key"))
                    },
                    Some(k) => {
                        proof {
                            lemma_stack_ok_edit(old(self)@, empty_array());
                            assert(frame_views(before)[before.len() - 1] == before.last()@);
                            lemma_json_views(values@);
                        }
                        set_member_exec(&mut keys, &mut values, k, value);
                        self.stack.push(StackFrame::Object { keys, values, current_key: None });
                        proof {
                            lemma_json_views(values@);
                            assert(self.stack@.drop_last() =~= before.drop_last());
                            assert(self@ =~= old(self)@.drop_last().push(self.stack@.last()@));
                            lemma_stack_ok_edit(old(self)@, self.stack@.last()@);
                        }
                        Ok(())
                    },
                },
                StackFrame::Array { mut items } => {
                    let ghost old_items = items@;
                    items.push(value);
                    proof {
                        lemma_json_views(old_items);
                        lemma_json_views(items@);
                        assert(json_views(items@) =~= json_views(old_items).push(value@));
                    }
                    self.stack.push(StackFrame::Array { items });
                    proof {
                        assert(self.stack@.drop_last() =~= before.drop_last());
                        assert(self@ =~= old(self)@.drop_last().push(self.stack@.last()@));
                        lemma_stack_ok_edit(old(self)@, self.stack@.last()@);
                    }
                    Ok(())
                },
            },
        }
    }

    /// Close the innermost container (see `stack_close`).
    pub fn push_to_parent(&mut self) -> (r: Result<Option<JsonValue>, ParseErrorKind>)
        requires
            old(self).wf(),
        ensures
            final(self).wf(),
            final(self)@ == stack_close(old(self)@).0,
            match stack_close(old(self)@).1 {
                Ok(Some(v)) => r matches Ok(Some(x)) && x@ == v,
                Ok(None) => r matches Ok(None),
                Err(e) => r == Err::<Option<JsonValue>, ParseErrorKind>(e),
            },
    {
        let ghost before = self.stack@;
        let frame = match self.stack.pop() {
            Some(f) => f,
            None => {
                return Err(ParseErrorKind::Message("Cannot push_to_parent - stack is empty"));
            },
        };
        proof {
            assert(self.stack@ =~= before.drop_last());
            assert(self@ =~= old(self)@.drop_last());
            lemma_stack_ok_edit(old(self)@, empty_array());
        }
        let value = match frame {
            StackFrame::Object { keys, values, .. } => JsonValue::Dict(keys, values),
            StackFrame::Array { items } => JsonValue::List(items),
        };
        assert(value@ == frame_value(old(self)@.last()));
        if self.stack.len() == 0 {
            return Ok(Some(value));
        }
        match self.push(value) {
            Ok(()) => Ok(None),
            Err(e) => Err(e),
        }
    }
}

/// The uppercase hexadecimal digit of `d` in `0..16`.
pub open spec fn upper_hex_digit(d: int) -> char {
    if d < 10 {
        (48 + d) as char
    } else {
        (55 + d) as char
    }
}

/// The hex text of a byte: `0x` and two uppercase hex digits.
pub open spec fn byte_hex_text(b: u8) -> Seq<char> {
    seq!['0', 'x', upper_hex_digit((b / 16) as int), upper_hex_digit((b % 16) as int)]
}

/// The uppercase hexadecimal digit of `d`.
fn upper_hex_char(d: u8) -> (c: char)
    requires
        d < 16,
    ensures
        c == upper_hex_digit(d as int),
{
    if d < 10 {
        (48u8 + d) as char
    } else {
        (55u8 + d) as char
    }
}

/// The hex text of a byte, `0xHH` (see `byte_hex_text`).
pub(crate) fn format_byte_hex(b: u8) -> (s: String)
    ensures
        s@ == byte_hex_text(b),
{
    let mut s = String::new();
    push_char(&mut s, '0');
    push_char(&mut s, 'x');
    push_char(&mut s, upper_hex_char(b / 16));
    push_char(&mut s, upper_hex_char(b % 16));
    assert(s@ =~= byte_hex_text(b));
    s
}

/// What `parse_primitive` makes of the input at `p`: a string, boolean,
/// null or number after whitespace.
pub open spec fn primitive_at(buf: Seq<u8>, p: int, eof: bool) -> Outcome<JsonView> {
    let q = skip_ws_from(buf, p);
    if needs_more_at(buf, eof, q) {
        Outcome::Failed(ErrorView::Incomplete, q)
    } else {
        match byte_at(buf, q) {
            None => Outcome::Failed(ErrorView::Incomplete, q),
            Some(b) => {
                if b == 0x22 {
                    match string_literal(buf, q) {
                        Scan::Done(t, next) => Outcome::Parsed(JsonView::Str(t), next),
                        Scan::Fail(kind, at) => Outcome::Failed(kind@, at),
                    }
                } else if b == 0x74 || b == 0x66 {
                    match boolean_literal(buf, q) {
                        Outcome::Parsed(v, next) => Outcome::Parsed(JsonView::Boolean(v), next),
                        Outcome::Failed(kind, at) => Outcome::Failed(kind, at),
                    }
                } else if b == 0x6E {
                    match null_literal(buf, q) {
                        Outcome::Parsed(_, next) => Outcome::Parsed(JsonView::Null, next),
                        Outcome::Failed(kind, at) => Outcome::Failed(kind, at),
                    }
                } else if b == 0x2D || (0x30 <= b && b <= 0x39) {
                    match number_literal(buf, q, eof) {
                        Scan::Done(n, next) => Outcome::Parsed(JsonView::Number(n), next),
                        Scan::Fail(kind, at) => Outcome::Failed(kind@, at),
                    }
                } else {
                    Outcome::Failed(
                        ErrorView::UnexpectedToken {
                            found: byte_hex_text(b),
                            expected: seq!["string", "number", "boolean", "null"],
                        },
                        q,
                    )
                }
            },
        }
    }
}

/// A primitive that parses ends after its start, inside the buffer.
pub proof fn lemma_primitive_bounds(buf: Seq<u8>, p: int, eof: bool)
    requires
        0 <= p <= buf.len(),
    ensures
        primitive_at(buf, p, eof) matches Outcome::Parsed(_, e) ==> p < e <= buf.len(),
{
    lemma_skip_ws_from_bounds(buf, p);
    let q = skip_ws_from(buf, p);
    lemma_string_literal_bounds(buf, q);
    lemma_number_literal_bounds(buf, q, eof);
}

/// Where the parse loop stops: its outcome, and the stack it leaves.
pub struct LoopResult {
    pub outcome: Outcome<JsonView>,
    pub stack: Seq<FrameView>,
}

/// What `parse_loop` makes of the input from `p` on with the open containers
/// `stack`: one step per token (a separator, a key, a primitive, an opening
/// or a closing bracket) until a top-level value is complete, or an error.
/// The stack left behind lets a later call resume after `Incomplete`.
pub open spec fn loop_from(buf: Seq<u8>, p: int, eof: bool, stack: Seq<FrameView>, max: int) -> LoopResult
    decreases buf.len() - p,
{
    if p < 0 || p > buf.len() {
        LoopResult { outcome: Outcome::Failed(ErrorView::Incomplete, p), stack }
    } else {
        let q = skip_ws_from(buf, p);
        proof {
            lemma_skip_ws_from_bounds(buf, p);
            lemma_primitive_bounds(buf, q, eof);
            lemma_string_literal_bounds(buf, q);
        }
        let b = byte_at(buf, q);
        let state = frame_state_of(stack);
        let closing = (state == Some(FrameState::Array) && b == Some(0x5Du8)) || (state == Some(
            FrameState::ObjectWaitingForKey,
        ) && b == Some(0x7Du8));
        let separator = (state == Some(FrameState::Array) && b == Some(0x2Cu8)) || (state == Some(
            FrameState::ObjectWaitingForKey,
        ) && b == Some(0x2Cu8)) || (state == Some(FrameState::ObjectWaitingForValue) && b == Some(
            0x3Au8,
        ));
        let opening = state != Some(FrameState::ObjectWaitingForKey) && (b == Some(0x7Bu8) || b
            == Some(0x5Bu8));
        if needs_more_at(buf, eof, q) {
            LoopResult { outcome: Outcome::Failed(ErrorView::Incomplete, q), stack }
        } else if closing {
            let (s2, res) = stack_close(stack);
            match res {
                Err(k) => LoopResult { outcome: Outcome::Failed(k@, q + 1), stack: s2 },
                Ok(Some(v)) => LoopResult { outcome: Outcome::Parsed(v, q + 1), stack: s2 },
                Ok(None) => loop_from(buf, q + 1, eof, s2, max),
            }
        } else if separator {
            loop_from(buf, q + 1, eof, stack, max)
        } else if opening {
            if stack.len() >= max {
                LoopResult { outcome: Outcome::Failed(ErrorView::DepthLimit, q), stack }
            } else {
                let frame = if b == Some(0x7Bu8) {
                    empty_object()
                } else {
                    empty_array()
                };
                loop_from(buf, q + 1, eof, stack.push(frame), max)
            }
        } else if state == Some(FrameState::ObjectWaitingForKey) {
            if b == Some(0x22u8) {
                match string_literal(buf, q) {
                    Scan::Fail(kind, at) => LoopResult { outcome: Outcome::Failed(kind@, at), stack },
                    Scan::Done(key, e) => match stack_set_key(stack, key) {
                        Err(k) => LoopResult { outcome: Outcome::Failed(k@, e), stack },
                        Ok(s2) => loop_from(buf, e, eof, s2, max),
                    },
                }
            } else {
                LoopResult {
                    outcome: Outcome::Failed(
                        ErrorView::UnexpectedToken {
                            found: byte_debug_text(b),
                            expected: seq!["\"", "}"],
                        },
                        q,
                    ),
                    stack,
                }
            }
        } else if state is None {
            LoopResult { outcome: primitive_at(buf, q, eof), stack }
        } else {
            match primitive_at(buf, q, eof) {
                Outcome::Failed(kind, at) => LoopResult { outcome: Outcome::Failed(kind, at), stack },
                Outcome::Parsed(v, e) => match stack_push(stack, v) {
                    Err(k) => LoopResult { outcome: Outcome::Failed(k@, e), stack },
                    Ok(s2) => loop_from(buf, e, eof, s2, max),
                },
            }
        }
    }
}

/// Resumable stack-based JSON parser: when the buffer runs out mid-value, the
/// open containers stay on its stack and parsing resumes from the exact
/// position once more input is fed.
pub struct StackParser {
    inner: BinInner,
    eof: bool,
    stack: ValueStack,
    max_depth: usize,
}

/// The abstract state of a `StackParser`.
pub struct StackParserView {
    /// All bytes fed so far.
    pub buffer: Seq<u8>,
    /// The read position.
    pub pos: int,
    /// Whether the end of input was signalled.
    pub eof: bool,
    /// The open containers, innermost last.
    pub stack: Seq<FrameView>,
    /// The nesting limit.
    pub max_depth: int,
}

impl View for StackParser {
    type V = StackParserView;

    closed spec fn view(&self) -> StackParserView {
        StackParserView {
            buffer: self.inner@.0,
            pos: self.inner@.1,
            eof: self.eof,
            stack: self.stack@,
            max_depth: self.max_depth as int,
        }
    }
}

/// What `parse_full` of a stack parser makes of the input: one value, then
/// only whitespace up to the end of the buffer.
pub open spec fn stack_full(v: StackParserView) -> LoopResult {
    let r = loop_from(v.buffer, v.pos, v.eof, v.stack, v.max_depth);
    match r.outcome {
        Outcome::Failed(_, _) => r,
        Outcome::Parsed(x, e) => {
            let e2 = skip_ws_from(v.buffer, e);
            if e2 != v.buffer.len() {
                LoopResult { outcome: Outcome::Failed(ErrorView::TrailingData, e2), stack: r.stack }
            } else {
                LoopResult { outcome: Outcome::Parsed(x, e2), stack: r.stack }
            }
        },
    }
}

/// What `parse_next` of a stack parser makes of the input: at the end of the
/// buffer `Eof` or `NeedMore`; else the parse loop, where running out of
/// input is `NeedMore` until the end of input is signalled.
pub open spec fn stack_next(v: StackParserView) -> (Outcome<NextView>, Seq<FrameView>) {
    let q = skip_ws_from(v.buffer, v.pos);
    if q >= v.buffer.len() {
        (
            if v.eof {
                Outcome::Parsed(NextView::Eof, q)
            } else {
                Outcome::Parsed(NextView::NeedMore, q)
            },
            v.stack,
        )
    } else {
        let r = loop_from(v.buffer, q, v.eof, v.stack, v.max_depth);
        (
            match r.outcome {
                Outcome::Parsed(x, e) => Outcome::Parsed(NextView::Value(x), e),
                Outcome::Failed(kind, at) => if kind is Incomplete && !v.eof {
                    Outcome::Parsed(NextView::NeedMore, at)
                } else {
                    Outcome::Failed(kind, at)
                },
            },
            r.stack,
        )
    }
}

impl StackParser {
    /// The state invariant: every open container is well formed.
    pub closed spec fn wf(&self) -> bool {
        self.stack.wf()
    }

    /// The state of a new parser.
    pub open spec fn new_state() -> StackParserView {
        StackParserView {
            buffer: Seq::empty(),
            pos: 0,
            eof: false,
            stack: Seq::empty(),
            max_depth: DEFAULT_MAX_DEPTH as int,
        }
    }

    /// A parser with an empty buffer, no open container and the default
    /// depth limit.
    pub fn new() -> (p: Self)
        ensures
            p@ == Self::new_state(),
            p.wf(),
    {
        StackParser {
            inner: BinInner::new(),
            eof: false,
            stack: ValueStack::new(),
            max_depth: DEFAULT_MAX_DEPTH,
        }
    }

    /// Append input; refused once the end of input was signalled.
    pub fn feed(&mut self, input: &[u8]) -> (r: Result<(), ParseError>)
        requires
            old(self).wf(),
        ensures
            final(self).wf(),
            old(self)@.eof ==> r == Err::<(), ParseError>(
                error_at(ParseErrorKind::Message("Cannot feed after end_of_input"), old(self)@.pos),
            ) && final(self)@ == old(self)@,
            !old(self)@.eof ==> r is Ok && final(self)@ == (StackParserView {
                buffer: old(self)@.buffer + input@,
                ..old(self)@
            }),
    {
        if self.eof {
            return Err(
                ParseError::new(
                    ParseErrorKind::Message("Cannot feed after end_of_input"),
                    self.inner.pos(),
                ),
            );
        }
        self.inner.feed(input);
        Ok(())
    }

    /// Signal that no more input will arrive.
    pub fn end_of_input(&mut self)
        requires
            old(self).wf(),
        ensures
            final(self).wf(),
            final(self)@ == (StackParserView { eof: true, ..old(self)@ }),
    {
        self.eof = true;
    }

    /// Free the bytes already read: the buffer keeps only the bytes from the
    /// read position on, and the read position becomes 0; the open
    /// containers and the end-of-input flag stay.
    pub fn compact(&mut self)
        requires
            old(self).wf(),
        ensures
            final(self).wf(),
            final(self)@ == (StackParserView {
                buffer: old(self)@.buffer.subrange(old(self)@.pos, old(self)@.buffer.len() as int),
                pos: 0,
                ..old(self)@
            }),
    {
        self.inner.compact();
    }

    /// The read position.
    pub fn pos(&self) -> (p: usize)
        ensures
            p == self@.pos,
    {
        self.inner.pos()
    }

    /// Whether more input is needed to go on.
    fn needs_more(&self) -> (b: bool)
        ensures
            b == needs_more_at(self@.buffer, self@.eof, self@.pos),
    {
        !self.eof && self.inner.pos() >= self.inner.buffer().len()
    }

    /// An error of the given kind at the read position.
    fn error(&self, kind: ParseErrorKind) -> (e: ParseError)
        ensures
            e == error_at(kind, self@.pos),
    {
        ParseError::new(kind, self.inner.pos())
    }

    /// Parse a string, boolean, null or number (see `primitive_at`).
    fn parse_primitive(&mut self) -> (r: Result<JsonValue, ParseError>)
        requires
            old(self).wf(),
        ensures
            final(self).wf(),
            final(self)@ == (StackParserView { pos: final(self)@.pos, ..old(self)@ }),
            match primitive_at(old(self)@.buffer, old(self)@.pos, old(self)@.eof) {
                Outcome::Parsed(v, next) => r matches Ok(x) && x@ == v && final(self)@.pos == next,
                Outcome::Failed(kind, at) => r matches Err(e) && reports(e, kind, at)
                    && final(self)@.pos == at,
            },
    {
        let _ = self.inner.pos();
        proof {
            lemma_skip_ws_from_bounds(self.inner@.0, self.inner@.1);
        }
        self.inner.skip_whitespace();
        if self.needs_more() {
            return Err(self.error(ParseErrorKind::Incomplete));
        }
        let b = match self.inner.peek_byte() {
            Some(b) => b,
            None => {
                return Err(self.error(ParseErrorKind::Incomplete));
            },
        };
        proof {
            lemma_string_literal_bounds(self.inner@.0, self.inner@.1);
        }
        if b == 0x22u8 {
            match parse_string(&mut self.inner) {
                Ok(s) => Ok(JsonValue::Str(s)),
                Err(e) => Err(e),
            }
        } else if b == 0x74u8 || b == 0x66u8 {
            match parse_boolean(&mut self.inner) {
                Ok(v) => Ok(JsonValue::Boolean(v)),
                Err(e) => Err(e),
            }
        } else if b == 0x6Eu8 {
            match parse_null(&mut self.inner) {
                Ok(()) => Ok(JsonValue::Null),
                Err(e) => Err(e),
            }
        } else if b == 0x2Du8 || (0x30u8 <= b && b <= 0x39u8) {
            match parse_number(&mut self.inner, self.eof) {
                Ok(n) => Ok(JsonValue::Number(n)),
                Err(e) => Err(e),
            }
        } else {
            Err(
                self.error(
                    ParseErrorKind::UnexpectedToken {
                        found: format_byte_hex(b),
                        expected: primitive_tokens(),
                    },
                ),
            )
        }
    }
}

/// The tokens a primitive can start with.
fn primitive_tokens() -> (t: &'static [&'static str])
    ensures
        t@ == seq!["string", "number", "boolean", "null"],
{
    &["string", "number", "boolean", "null"]
}

/// The tokens expected in an object waiting for a key.
fn key_or_close_tokens() -> (t: &'static [&'static str])
    ensures
        t@ == seq!["\"", "}"],
{
    &["\"", "}"]
}

/// The parser state stays put apart from the read position and the stack.
pub open spec fn same_input(a: StackParserView, b: StackParserView) -> bool {
    &&& a.buffer == b.buffer
    &&& a.eof == b.eof
    &&& a.max_depth == b.max_depth
}

impl StackParser {
    /// Open an object at the read position (its `{`), unless the nesting
    /// limit is reached.
    fn parse_object(&mut self) -> (r: Result<(), ParseError>)
        requires
            old(self).wf(),
            old(self)@.pos < old(self)@.buffer.len(),
        ensures
            final(self).wf(),
            same_input(old(self)@, final(self)@),
            old(self)@.stack.len() >= old(self)@.max_depth ==> (r matches Err(e) && reports(
                e,
                ErrorView::DepthLimit,
                old(self)@.pos,
            )) && final(self)@ == old(self)@,
            old(self)@.stack.len() < old(self)@.max_depth ==> r is Ok && final(self)@.pos == old(
                self,
            )@.pos + 1 && final(self)@.stack == old(self)@.stack.push(empty_object()),
    {
        let _ = self.inner.pos();
        if self.stack.len() >= self.max_depth {
            return Err(self.error(ParseErrorKind::DepthLimit));
        }
        self.inner.next_byte();
        self.stack.push_new_object();
        Ok(())
    }

    /// Open an array at the read position (its `[`), unless the nesting
    /// limit is reached.
    fn parse_array(&mut self) -> (r: Result<(), ParseError>)
        requires
            old(self).wf(),
            old(self)@.pos < old(self)@.buffer.len(),
        ensures
            final(self).wf(),
            same_input(old(self)@, final(self)@),
            old(self)@.stack.len() >= old(self)@.max_depth ==> (r matches Err(e) && reports(
                e,
                ErrorView::DepthLimit,
                old(self)@.pos,
            )) && final(self)@ == old(self)@,
            old(self)@.stack.len() < old(self)@.max_depth ==> r is Ok && final(self)@.pos == old(
                self,
            )@.pos + 1 && final(self)@.stack == old(self)@.stack.push(empty_array()),
    {
        let _ = self.inner.pos();
        if self.stack.len() >= self.max_depth {
            return Err(self.error(ParseErrorKind::DepthLimit));
        }
        self.inner.next_byte();
        self.stack.push_new_array();
        Ok(())
    }

    /// Consume the closing bracket at the read position and close the
    /// innermost container (see `stack_close`).
    fn close_container(&mut self) -> (r: Result<Option<JsonValue>, ParseErrorKind>)
        requires
            old(self).wf(),
            old(self)@.pos < old(self)@.buffer.len(),
        ensures
            final(self).wf(),
            same_input(old(self)@, final(self)@),
            final(self)@.pos == old(self)@.pos + 1,
            final(self)@.stack == stack_close(old(self)@.stack).0,
            match stack_close(old(self)@.stack).1 {
                Ok(Some(v)) => r matches Ok(Some(x)) && x@ == v,
                Ok(None) => r matches Ok(None),
                Err(e) => r == Err::<Option<JsonValue>, ParseErrorKind>(e),
            },
    {
        self.inner.next_byte();
        self.stack.push_to_parent()
    }

    /// The parse loop (see `loop_from`).
    fn parse_loop(&mut self) -> (r: Result<JsonValue, ParseError>)
        requires
            old(self).wf(),
        ensures
            final(self).wf(),
            same_input(old(self)@, final(self)@),
            ({
                let res = loop_from(
                    old(self)@.buffer,
                    old(self)@.pos,
                    old(self)@.eof,
                    old(self)@.stack,
                    old(self)@.max_depth,
                );
                &&& final(self)@.stack == res.stack
                &&& match res.outcome {
                    Outcome::Parsed(v, next) => r matches Ok(x) && x@ == v && final(self)@.pos
                        == next,
                    Outcome::Failed(kind, at) => r matches Err(e) && reports(e, kind, at)
                        && final(self)@.pos == at,
                }
            }),
    {
        let ghost buf = self.inner@.0;
        let ghost goal = loop_from(buf, self.inner@.1, self.eof, self.stack@, self.max_depth as int);
        let _ = self.inner.pos();
        loop
            invariant
                self.wf(),
                self.inner@.0 == buf,
                buf == old(self)@.buffer,
                self.eof == old(self)@.eof,
                self.max_depth == old(self)@.max_depth,
                0 <= self.inner@.1 <= buf.len(),
                buf.len() <= usize::MAX,
                goal == loop_from(
                    old(self)@.buffer,
                    old(self)@.pos,
                    old(self)@.eof,
                    old(self)@.stack,
                    old(self)@.max_depth,
                ),
                loop_from(buf, self.inner@.1, self.eof, self.stack@, self.max_depth as int) == goal,
            decreases buf.len() - self.inner@.1,
        {
            proof {
                lemma_skip_ws_from_bounds(buf, self.inner@.1);
            }
            self.inner.skip_whitespace();
            proof {
                lemma_primitive_bounds(buf, self.inner@.1, self.eof);
                lemma_string_literal_bounds(buf, self.inner@.1);
            }
            if self.needs_more() {
                return Err(self.error(ParseErrorKind::Incomplete));
            }
            let b = self.inner.peek_byte();
            match self.stack.current_frame_state() {
                Some(FrameState::Array) => {
                    if b == Some(0x5Du8) {
                        match self.close_container() {
                            Ok(Some(v)) => {
                                return Ok(v);
                            },
                            Ok(None) => {},
                            Err(e) => {
                                return Err(ParseError::new(e, self.inner.pos()));
                            },
                        }
                    } else if b == Some(0x2Cu8) {
                        self.inner.next_byte();
                    } else if b == Some(0x7Bu8) {
                        match self.parse_object() {
                            Ok(()) => {},
                            Err(e) => {
                                return Err(e);
                            },
                        }
                    } else if b == Some(0x5Bu8) {
                        match self.parse_array() {
                            Ok(()) => {},
                            Err(e) => {
                                return Err(e);
                            },
                        }
                    } else {
                        let v = match self.parse_primitive() {
                            Ok(v) => v,
                            Err(e) => {
                                return Err(e);
                            },
                        };
                        match self.stack.push(v) {
                            Ok(()) => {},
                            Err(e) => {
                                return Err(ParseError::new(e, self.inner.pos()));
                            },
                        }
                    }
                },
                Some(FrameState::ObjectWaitingForKey) => {
                    if b == Some(0x2Cu8) {
                        self.inner.next_byte();
                    } else if b == Some(0x22u8) {
                        let key = match parse_string(&mut self.inner) {
                            Ok(k) => k,
                            Err(e) => {
                                return Err(e);
                            },
                        };
                        match self.stack.push_new_key(key) {
                            Ok(()) => {},
                            Err(e) => {
                                return Err(ParseError::new(e, self.inner.pos()));
                            },
                        }
                    } else if b == Some(0x7Du8) {
                        match self.close_container() {
                            Ok(Some(v)) => {
                                return Ok(v);
                            },
                            Ok(None) => {},
                            Err(e) => {
                                return Err(ParseError::new(e, self.inner.pos()));
                            },
                        }
                    } else {
                        let found = format_byte_debug(b);
                        return Err(
                            self.error(
                                ParseErrorKind::UnexpectedToken {
                                    found,
                                    expected: key_or_close_tokens(),
                                },
                            ),
                        );
                    }
                },
                Some(FrameState::ObjectWaitingForValue) => {
                    if b == Some(0x3Au8) {
                        self.inner.next_byte();
                    } else if b == Some(0x7Bu8) {
                        match self.parse_object() {
                            Ok(()) => {},
                            Err(e) => {
                                return Err(e);
                            },
                        }
                    } else if b == Some(0x5Bu8) {
                        match self.parse_array() {
                            Ok(()) => {},
                            Err(e) => {
                                return Err(e);
                            },
                        }
                    } else {
                        let v = match self.parse_primitive() {
                            Ok(v) => v,
                            Err(e) => {
                                return Err(e);
                            },
                        };
                        match self.stack.push(v) {
                            Ok(()) => {},
                            Err(e) => {
                                return Err(ParseError::new(e, self.inner.pos()));
                            },
                        }
                    }
                },
                None => {
                    if b == Some(0x7Bu8) {
                        match self.parse_object() {
                            Ok(()) => {},
                            Err(e) => {
                                return Err(e);
                            },
                        }
                    } else if b == Some(0x5Bu8) {
                        match self.parse_array() {
                            Ok(()) => {},
                            Err(e) => {
                                return Err(e);
                            },
                        }
                    } else {
                        return self.parse_primitive();
                    }
                },
            }
        }
    }
}

impl StackParser {
    /// Parse exactly one value and reject anything but whitespace after it
    /// (see `stack_full`).
    pub fn parse_full(&mut self) -> (r: Result<JsonValue, ParseError>)
        requires
            old(self).wf(),
        ensures
            final(self).wf(),
            same_input(old(self)@, final(self)@),
            ({
                let res = stack_full(old(self)@);
                &&& final(self)@.stack == res.stack
                &&& match res.outcome {
                    Outcome::Parsed(v, next) => r matches Ok(x) && x@ == v && final(self)@.pos
                        == next,
                    Outcome::Failed(kind, at) => r matches Err(e) && reports(e, kind, at)
                        && final(self)@.pos == at,
                }
            }),
    {
        let value = match self.parse_loop() {
            Ok(v) => v,
            Err(e) => {
                return Err(e);
            },
        };
        let _ = self.inner.pos();
        proof {
            lemma_skip_ws_from_bounds(self.inner@.0, self.inner@.1);
        }
        self.inner.skip_whitespace();
        if self.inner.pos() != self.inner.buffer().len() {
            return Err(self.error(ParseErrorKind::TrailingData));
        }
        Ok(value)
    }

    /// Parse the next value of a stream, resuming an interrupted one (see
    /// `stack_next`).
    pub fn parse_next(&mut self) -> (r: Result<Next<JsonValue>, ParseError>)
        requires
            old(self).wf(),
        ensures
            final(self).wf(),
            same_input(old(self)@, final(self)@),
            final(self)@.stack == stack_next(old(self)@).1,
            match stack_next(old(self)@).0 {
                Outcome::Parsed(NextView::Value(v), next) => r matches Ok(Next::Value(x)) && x@ == v
                    && final(self)@.pos == next,
                Outcome::Parsed(NextView::NeedMore, next) => r matches Ok(Next::NeedMore)
                    && final(self)@.pos == next,
                Outcome::Parsed(NextView::Eof, next) => r matches Ok(Next::Eof) && final(self)@.pos
                    == next,
                Outcome::Failed(kind, at) => r matches Err(e) && reports(e, kind, at)
                    && final(self)@.pos == at,
            },
    {
        let _ = self.inner.pos();
        proof {
            lemma_skip_ws_from_bounds(self.inner@.0, self.inner@.1);
        }
        self.inner.skip_whitespace();
        if self.inner.pos() >= self.inner.buffer().len() {
            if self.eof {
                return Ok(Next::Eof);
            } else {
                return Ok(Next::NeedMore);
            }
        }
        match self.parse_loop() {
            Ok(value) => Ok(Next::Value(value)),
            Err(e) => {
                let incomplete = match e.kind {
                    ParseErrorKind::Incomplete => true,
                    _ => false,
                };
                if incomplete {
                    if self.eof {
                        Err(e)
                    } else {
                        Ok(Next::NeedMore)
                    }
                } else {
                    Err(e)
                }
            },
        }
    }
}

impl Default for StackParser {
    fn default() -> (p: Self)
        ensures
            p@ == Self::new_state(),
            p.wf(),
    {
        Self::new()
    }
}


/// The parse loop skips whitespace before its first token.
pub proof fn lemma_loop_from_ws(buf: Seq<u8>, p: int, eof: bool, stack: Seq<FrameView>, max: int)
    requires
        0 <= p <= buf.len(),
    ensures
        loop_from(buf, p, eof, stack, max) == loop_from(buf, skip_ws_from(buf, p), eof, stack, max),
{
    lemma_skip_ws_from_bounds(buf, p);
}

/// A primitive read before the end of input is signalled: running out of
/// input is reported where the primitive starts; one that parses parses the
/// same way once more input follows.
pub proof fn lemma_primitive_extends(buf: Seq<u8>, longer: Seq<u8>, q: int, eof: bool)
    requires
        extends(longer, buf),
        0 <= q <= buf.len(),
    ensures
        primitive_at(buf, q, false) matches Outcome::Failed(kind, at) ==> (kind is Incomplete ==> at
            == skip_ws_from(buf, q)),
        primitive_at(buf, q, false) is Parsed ==> primitive_at(longer, q, eof) == primitive_at(
            buf,
            q,
            false,
        ),
{
    lemma_skip_ws_from_bounds(buf, q);
    lemma_skip_ws_extends(buf, longer, q);
    let r = skip_ws_from(buf, q);
    if r < buf.len() {
        assert(longer[r] == buf[r]);
        lemma_string_literal_extends(buf, longer, r);
        lemma_boolean_literal_extends(buf, longer, r);
        lemma_null_literal_extends(buf, longer, r);
        lemma_number_literal_extends(buf, longer, r, eof);
    }
}

/// The parse loop run before the end of input is signalled, when it runs out
/// of input: the loop on a longer buffer from the same place and stack goes
/// on exactly as the loop from where it stopped, with the stack it left.
pub proof fn lemma_loop_extends(
    buf: Seq<u8>,
    longer: Seq<u8>,
    p: int,
    eof: bool,
    stack: Seq<FrameView>,
    max: int,
)
    requires
        extends(longer, buf),
        0 <= p <= buf.len(),
    ensures
        loop_from(buf, p, false, stack, max).outcome matches Outcome::Failed(kind, at) ==> (
        kind is Incomplete ==> (p <= at <= buf.len() && loop_from(
            longer,
            p,
            eof,
            stack,
            max,
        ) == loop_from(longer, at, eof, loop_from(buf, p, false, stack, max).stack, max))),
    decreases buf.len() - p,
{
    lemma_skip_ws_from_bounds(buf, p);
    lemma_skip_ws_extends(buf, longer, p);
    let q = skip_ws_from(buf, p);
    lemma_skip_ws_from_bounds(longer, p);
    lemma_skip_ws_from_bounds(longer, q);
    lemma_loop_from_ws(longer, p, eof, stack, max);
    lemma_loop_from_ws(longer, q, eof, stack, max);
    assert(loop_from(longer, p, eof, stack, max) == loop_from(longer, q, eof, stack, max));
    if q < buf.len() {
        assert(longer[q] == buf[q]);
        lemma_skip_ws_extends(buf, longer, q);
        assert(skip_ws_from(longer, q) == q);
        lemma_primitive_bounds(buf, q, false);
        lemma_string_literal_bounds(buf, q);
        lemma_primitive_extends(buf, longer, q, eof);
        lemma_string_literal_extends(buf, longer, q);
        let b = byte_at(buf, q);
        let state = frame_state_of(stack);
        let closing = (state == Some(FrameState::Array) && b == Some(0x5Du8)) || (state == Some(
            FrameState::ObjectWaitingForKey,
        ) && b == Some(0x7Du8));
        let separator = (state == Some(FrameState::Array) && b == Some(0x2Cu8)) || (state == Some(
            FrameState::ObjectWaitingForKey,
        ) && b == Some(0x2Cu8)) || (state == Some(FrameState::ObjectWaitingForValue) && b == Some(
            0x3Au8,
        ));
        let opening = state != Some(FrameState::ObjectWaitingForKey) && (b == Some(0x7Bu8) || b
            == Some(0x5Bu8));
        if closing {
            let (s2, res) = stack_close(stack);
            if res is Ok && res->Ok_0 is None {
                lemma_loop_extends(buf, longer, q + 1, eof, s2, max);
            }
        } else if separator {
            lemma_loop_extends(buf, longer, q + 1, eof, stack, max);
        } else if opening {
            if stack.len() < max {
                let frame = if b == Some(0x7Bu8) {
                    empty_object()
                } else {
                    empty_array()
                };
                lemma_loop_extends(buf, longer, q + 1, eof, stack.push(frame), max);
            }
        } else if state == Some(FrameState::ObjectWaitingForKey) {
            if b == Some(0x22u8) {
                if let Scan::Done(key, e) = string_literal(buf, q) {
                    if let Ok(s2) = stack_set_key(stack, key) {
                        lemma_loop_extends(buf, longer, e, eof, s2, max);
                    }
                }
            }
        } else if state is Some {
            if let Outcome::Parsed(v, e) = primitive_at(buf, q, false) {
                if let Ok(s2) = stack_push(stack, v) {
                    lemma_loop_extends(buf, longer, e, eof, s2, max);
                }
            }
        }
    }
}

/// Where a parse step left the read position.
pub open spec fn outcome_pos<T>(o: Outcome<T>) -> int {
    match o {
        Outcome::Parsed(_, at) => at,
        Outcome::Failed(_, at) => at,
    }
}

/// The state of a parser that answered `NeedMore` in state `v`, after `more`
/// was fed and the end of input was signalled or not (`eof`).
pub open spec fn resumed_state(v: StackParserView, more: Seq<u8>, eof: bool) -> StackParserView {
    StackParserView {
        buffer: v.buffer + more,
        pos: outcome_pos(stack_next(v).0),
        eof,
        stack: stack_next(v).1,
        max_depth: v.max_depth,
    }
}

/// The state `v` as it would have been had `more` been fed before the parse.
pub open spec fn whole_input_state(v: StackParserView, more: Seq<u8>, eof: bool) -> StackParserView {
    StackParserView { buffer: v.buffer + more, pos: v.pos, eof, stack: v.stack, max_depth: v.max_depth }
}

/// Resuming gives what parsing all the input at once gives: when
/// `parse_next` answers `NeedMore`, feeding the rest of the input (and
/// perhaps signalling its end) and calling `parse_next` again yields exactly
/// the result, position and stack that `parse_next` yields with all the
/// input fed before the first call.
///
/// One input is left out, on which resuming differs: the end of input was
/// signalled with only whitespace after the resume position while a value
/// had been begun (the resumed parser reports the end of the stream, the
/// whole input an incomplete value).
pub proof fn law_resume_matches_whole_input(v: StackParserView, more: Seq<u8>, eof: bool)
    requires
        0 <= v.pos <= v.buffer.len(),
        !v.eof,
        stack_next(v).0 matches Outcome::Parsed(NextView::NeedMore, _),
        !(eof && skip_ws_from(v.buffer, v.pos) < v.buffer.len() && skip_ws_from(
            v.buffer + more,
            outcome_pos(stack_next(v).0),
        ) >= v.buffer.len() + more.len()),
    ensures
        stack_next(resumed_state(v, more, eof)) == stack_next(whole_input_state(v, more, eof)),
{
    let a = v.buffer;
    let ab = a + more;
    assert(extends(ab, a)) by {
        assert forall|i: int| 0 <= i < a.len() implies ab[i] == a[i] by {}
    }
    lemma_skip_ws_from_bounds(a, v.pos);
    lemma_skip_ws_extends(a, ab, v.pos);
    let q = skip_ws_from(a, v.pos);
    let at = outcome_pos(stack_next(v).0);
    if q < a.len() {
        lemma_loop_extends(a, ab, q, eof, v.stack, v.max_depth);
        let s1 = loop_from(a, q, false, v.stack, v.max_depth).stack;
        assert(loop_from(ab, q, eof, v.stack, v.max_depth) == loop_from(ab, at, eof, s1, v.max_depth));
        lemma_skip_ws_from_bounds(ab, at);
        lemma_loop_from_ws(ab, at, eof, s1, v.max_depth);
    }
}

} // verus!
