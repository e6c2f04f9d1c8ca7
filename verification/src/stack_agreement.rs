//! The resumable stack parser and the recursive parser read every JSON text
//! the same way.
use vstd::prelude::*;
use crate::bin_inner::{extends, lemma_skip_ws_extends, lemma_skip_ws_from_bounds, skip_ws_from};
use crate::json_parse::{lemma_string_literal_bounds, string_literal, Scan};
use crate::json_parser::{
    array_at, byte_at, elements_at, full_at, members_at, next_at, object_at, set_member, value_at,
    FrameState, JsonView, NextView,
};
use crate::parse_error::Outcome;
use crate::stack_parser::{
    empty_array, empty_object, frame_state_of, frame_value, law_resume_matches_whole_input,
    lemma_loop_extends, lemma_loop_from_ws, loop_from, outcome_pos, primitive_at, resumed_state,
    stack_close, stack_full, stack_next, stack_push, whole_input_state, FrameView, LoopResult,
    StackParserView,
};

verus! {

/// How the parse loop goes on after a value `v` that ends at `e`, with the
/// open containers `stack`: at the top level the value is the result; inside
/// a container it is added there and the loop goes on.
pub open spec fn continue_after(
    buf: Seq<u8>,
    e: int,
    eof: bool,
    stack: Seq<FrameView>,
    v: JsonView,
    max: int,
) -> LoopResult {
    if stack.len() == 0 {
        LoopResult { outcome: Outcome::Parsed(v, e), stack }
    } else {
        match stack_push(stack, v) {
            Ok(s2) => loop_from(buf, e, eof, s2, max),
            Err(k) => LoopResult { outcome: Outcome::Failed(k@, e), stack },
        }
    }
}

/// Closing the innermost container `f` at `j` goes on as `continue_after`
/// of its value, past the bracket.
proof fn lemma_close_continues(
    buf: Seq<u8>,
    j: int,
    eof: bool,
    max: int,
    base: Seq<FrameView>,
    f: FrameView,
)
    ensures
        ({
            let (s2, res) = stack_close(base.push(f));
            match res {
                Err(k) => LoopResult { outcome: Outcome::Failed(k@, j + 1), stack: s2 },
                Ok(Some(v)) => LoopResult { outcome: Outcome::Parsed(v, j + 1), stack: s2 },
                Ok(None) => loop_from(buf, j + 1, eof, s2, max),
            }
        }) == continue_after(buf, j + 1, eof, base, frame_value(f), max),
{
    assert(base.push(f).drop_last() =~= base);
}

/// A value that the recursive parser reads at `p` (at the nesting of
/// `stack`), the parse loop reads too, then goes on as `continue_after`.
proof fn lemma_loop_value(buf: Seq<u8>, p: int, eof: bool, max: int, stack: Seq<FrameView>)
    requires
        0 <= p <= buf.len(),
        frame_state_of(stack) != Some(FrameState::ObjectWaitingForKey),
    ensures
        value_at(buf, p, eof, stack.len() as int, max) matches Outcome::Parsed(v, e) ==> loop_from(
            buf,
            p,
            eof,
            stack,
            max,
        ) == continue_after(buf, e, eof, stack, v, max),
    decreases buf.len() - p, 1int,
{
    lemma_skip_ws_from_bounds(buf, p);
    let q = skip_ws_from(buf, p);
    if let Outcome::Parsed(v, e) = value_at(buf, p, eof, stack.len() as int, max) {
        let b = buf[q];
        if b == 0x7B {
            lemma_loop_object(buf, q, eof, max, stack);
        } else if b == 0x5B {
            lemma_loop_array(buf, q, eof, max, stack);
        } else {
            assert(primitive_at(buf, q, eof) == Outcome::Parsed(v, e));
        }
    }
}

/// An object that the recursive parser reads with its `{` at `q`: past the
/// brace, with an empty object open, the loop reads it and goes on.
proof fn lemma_loop_object(buf: Seq<u8>, q: int, eof: bool, max: int, stack: Seq<FrameView>)
    requires
        0 <= q < buf.len(),
    ensures
        object_at(buf, q, eof, stack.len() as int, max) matches Outcome::Parsed(v, e) ==> (stack.len()
            < max && loop_from(buf, q + 1, eof, stack.push(empty_object()), max) == continue_after(
            buf,
            e,
            eof,
            stack,
            v,
            max,
        )),
    decreases buf.len() - q, 0int,
{
    if let Outcome::Parsed(v, e) = object_at(buf, q, eof, stack.len() as int, max) {
        let s1 = stack.push(empty_object());
        lemma_skip_ws_from_bounds(buf, q + 1);
        let i = skip_ws_from(buf, q + 1);
        lemma_loop_from_ws(buf, q + 1, eof, s1, max);
        if byte_at(buf, i) == Some(0x7Du8) {
            lemma_close_continues(buf, i, eof, max, stack, empty_object());
        } else {
            lemma_loop_members(buf, i, eof, max, stack, Seq::empty(), Seq::empty());
        }
    }
}

/// The members of an object from `i` on that the recursive parser reads:
/// with the object (no key pending) open on top of `base`, the loop reads
/// them and the closing brace, and goes on.
proof fn lemma_loop_members(
    buf: Seq<u8>,
    i: int,
    eof: bool,
    max: int,
    base: Seq<FrameView>,
    keys: Seq<Seq<char>>,
    vals: Seq<JsonView>,
)
    requires
        0 <= i <= buf.len(),
    ensures
        members_at(buf, i, eof, base.len() + 1int, max, keys, vals) matches Outcome::Parsed(v, e)
            ==> loop_from(
            buf,
            i,
            eof,
            base.push(FrameView::Object { keys, values: vals, key: None }),
            max,
        ) == continue_after(buf, e, eof, base, v, max),
    decreases buf.len() - i, 2int,
{
    if let Outcome::Parsed(v, e) = members_at(buf, i, eof, base.len() + 1int, max, keys, vals) {
        let d = base.len() + 1int;
        let sk = base.push(FrameView::Object { keys, values: vals, key: None });
        lemma_skip_ws_from_bounds(buf, i);
        let i1 = skip_ws_from(buf, i);
        lemma_string_literal_bounds(buf, i1);
        let key = string_literal(buf, i1)->Done_0;
        let i2 = string_literal(buf, i1)->Done_1;
        lemma_skip_ws_from_bounds(buf, i2);
        let i3 = skip_ws_from(buf, i2);
        lemma_skip_ws_from_bounds(buf, i3 + 1);
        let i4 = skip_ws_from(buf, i3 + 1);
        let v1 = value_at(buf, i4, eof, d, max)->Parsed_0;
        let i5 = value_at(buf, i4, eof, d, max)->Parsed_1;
        let (keys2, vals2) = set_member(keys, vals, key, v1);
        lemma_skip_ws_from_bounds(buf, i5);
        let i6 = skip_ws_from(buf, i5);
        let sv = base.push(FrameView::Object { keys, values: vals, key: Some(key) });
        let sk1 = base.push(FrameView::Object { keys: keys2, values: vals2, key: None });
        assert(sk.drop_last() =~= base);
        assert(sv.drop_last() =~= base);
        assert(sk.drop_last().push(FrameView::Object { keys, values: vals, key: Some(key) }) =~= sv);
        assert(loop_from(buf, i, eof, sk, max) == loop_from(buf, i2, eof, sv, max));
        assert(loop_from(buf, i2, eof, sv, max) == loop_from(buf, i3 + 1, eof, sv, max));
        lemma_loop_from_ws(buf, i3 + 1, eof, sv, max);
        lemma_loop_value(buf, i4, eof, max, sv);
        assert(sv.drop_last().push(FrameView::Object { keys: keys2, values: vals2, key: None }) =~= sk1);
        assert(stack_push(sv, v1) == Ok::<Seq<FrameView>, crate::parse_error::ParseErrorKind>(sk1));
        lemma_loop_from_ws(buf, i5, eof, sk1, max);
        if byte_at(buf, i6) == Some(0x2Cu8) {
            assert(loop_from(buf, i6, eof, sk1, max) == loop_from(buf, i6 + 1, eof, sk1, max));
            lemma_loop_members(buf, i6 + 1, eof, max, base, keys2, vals2);
        } else {
            lemma_close_continues(buf, i6, eof, max, base, FrameView::Object { keys: keys2, values: vals2, key: None });
        }
    }
}

/// An array that the recursive parser reads with its `[` at `q`: past the
/// bracket, with an empty array open, the loop reads it and goes on.
proof fn lemma_loop_array(buf: Seq<u8>, q: int, eof: bool, max: int, stack: Seq<FrameView>)
    requires
        0 <= q < buf.len(),
    ensures
        array_at(buf, q, eof, stack.len() as int, max) matches Outcome::Parsed(v, e) ==> (stack.len()
            < max && loop_from(buf, q + 1, eof, stack.push(empty_array()), max) == continue_after(
            buf,
            e,
            eof,
            stack,
            v,
            max,
        )),
    decreases buf.len() - q, 0int,
{
    if let Outcome::Parsed(v, e) = array_at(buf, q, eof, stack.len() as int, max) {
        let s1 = stack.push(empty_array());
        lemma_skip_ws_from_bounds(buf, q + 1);
        let i = skip_ws_from(buf, q + 1);
        lemma_loop_from_ws(buf, q + 1, eof, s1, max);
        if byte_at(buf, i) == Some(0x5Du8) {
            lemma_close_continues(buf, i, eof, max, stack, empty_array());
        } else {
            lemma_loop_elements(buf, i, eof, max, stack, Seq::empty());
        }
    }
}

/// The elements of an array from `i` on that the recursive parser reads:
/// with the array open on top of `base`, the loop reads them and the closing
/// bracket, and goes on.
proof fn lemma_loop_elements(
    buf: Seq<u8>,
    i: int,
    eof: bool,
    max: int,
    base: Seq<FrameView>,
    items: Seq<JsonView>,
)
    requires
        0 <= i <= buf.len(),
    ensures
        elements_at(buf, i, eof, base.len() + 1int, max, items) matches Outcome::Parsed(v, e)
            ==> loop_from(buf, i, eof, base.push(FrameView::Array { items }), max)
            == continue_after(buf, e, eof, base, v, max),
    decreases buf.len() - i, 2int,
{
    if let Outcome::Parsed(v, e) = elements_at(buf, i, eof, base.len() + 1int, max, items) {
        let d = base.len() + 1int;
        let sa = base.push(FrameView::Array { items });
        lemma_skip_ws_from_bounds(buf, i);
        let i1 = skip_ws_from(buf, i);
        let v1 = value_at(buf, i1, eof, d, max)->Parsed_0;
        let i2 = value_at(buf, i1, eof, d, max)->Parsed_1;
        let sa1 = base.push(FrameView::Array { items: items.push(v1) });
        lemma_loop_from_ws(buf, i, eof, sa, max);
        lemma_loop_value(buf, i1, eof, max, sa);
        assert(sa.drop_last().push(FrameView::Array { items: items.push(v1) }) =~= sa1);
        assert(stack_push(sa, v1) == Ok::<Seq<FrameView>, crate::parse_error::ParseErrorKind>(sa1));
        lemma_skip_ws_from_bounds(buf, i2);
        let i3 = skip_ws_from(buf, i2);
        lemma_loop_from_ws(buf, i2, eof, sa1, max);
        if byte_at(buf, i3) == Some(0x2Cu8) {
            assert(loop_from(buf, i3, eof, sa1, max) == loop_from(buf, i3 + 1, eof, sa1, max));
            lemma_loop_elements(buf, i3 + 1, eof, max, base, items.push(v1));
        } else {
            lemma_close_continues(buf, i3, eof, max, base, FrameView::Array { items: items.push(v1) });
        }
    }
}

/// Law: the stack parser agrees with the recursive parser on every JSON
/// text. Wherever the recursive parser reads a value from `p` (whatever the
/// input, the end-of-input flag and the depth limit), the parse loop with no
/// open container reads the same value, ends at the same place and leaves no
/// container open; so `parse_full` and `parse_next` of a `StackParser` give
/// what those of the recursive parser give whenever these read a value.
pub proof fn law_stack_parser_agrees(buf: Seq<u8>, p: int, eof: bool, max: int)
    requires
        0 <= p <= buf.len(),
    ensures
        value_at(buf, p, eof, 0, max) matches Outcome::Parsed(v, e) ==> loop_from(
            buf,
            p,
            eof,
            Seq::empty(),
            max,
        ) == (LoopResult { outcome: Outcome::Parsed(v, e), stack: Seq::empty() }),
        full_at(buf, p, eof, max) matches Outcome::Parsed(v, e) ==> stack_full(
            StackParserView { buffer: buf, pos: p, eof, stack: Seq::empty(), max_depth: max },
        ) == (LoopResult { outcome: Outcome::Parsed(v, e), stack: Seq::empty() }),
        next_at(buf, p, eof, max) matches Outcome::Parsed(NextView::Value(v), e) ==> stack_next(
            StackParserView { buffer: buf, pos: p, eof, stack: Seq::empty(), max_depth: max },
        ) == (Outcome::Parsed(NextView::Value(v), e), Seq::<FrameView>::empty()),
{
    lemma_loop_value(buf, p, eof, max, Seq::empty());
    lemma_skip_ws_from_bounds(buf, p);
    let q = skip_ws_from(buf, p);
    lemma_loop_value(buf, q, eof, max, Seq::empty());
}

/// Law: pausing a parse at any byte boundary does not change its result.
/// For a JSON text `t1 + t2` that the recursive parser reads as `v` (with
/// only whitespace after it), a new stack parser fed `t1` that answers
/// `NeedMore`, then fed `t2` with the end of input signalled, gives `v` on
/// the next call and leaves no container open.
pub proof fn law_paused_parse_gives_the_value(t1: Seq<u8>, t2: Seq<u8>, max: int)
    requires
        full_at(t1 + t2, 0, true, max) is Parsed,
        stack_next(
            StackParserView { buffer: t1, pos: 0, eof: false, stack: Seq::empty(), max_depth: max },
        ).0 matches Outcome::Parsed(NextView::NeedMore, _),
    ensures
        ({
            let s1 = StackParserView {
                buffer: t1,
                pos: 0,
                eof: false,
                stack: Seq::empty(),
                max_depth: max,
            };
            let r = stack_next(resumed_state(s1, t2, true));
            &&& r.0 matches Outcome::Parsed(NextView::Value(v), _) && v == full_at(
                t1 + t2,
                0,
                true,
                max,
            )->Parsed_0
            &&& r.1 == Seq::<FrameView>::empty()
        }),
{
    let s1 = StackParserView { buffer: t1, pos: 0, eof: false, stack: Seq::empty(), max_depth: max };
    let t = t1 + t2;
    assert(extends(t, t1)) by {
        assert forall|i: int| 0 <= i < t1.len() implies t[i] == t1[i] by {}
    }
    lemma_skip_ws_from_bounds(t1, 0);
    lemma_skip_ws_from_bounds(t, 0);
    lemma_skip_ws_extends(t1, t, 0);
    let q = skip_ws_from(t, 0);
    law_stack_parser_agrees(t, 0, true, max);
    law_stack_parser_agrees(t, q, true, max);
    lemma_loop_from_ws(t, 0, true, Seq::empty(), max);
    let v = full_at(t, 0, true, max)->Parsed_0;
    assert(loop_from(t, q, true, Seq::empty(), max).outcome is Parsed);
    let q1 = skip_ws_from(t1, 0);
    let at = outcome_pos(stack_next(s1).0);
    if q1 < t1.len() {
        lemma_loop_extends(t1, t, q1, true, Seq::empty(), max);
        let st = loop_from(t1, q1, false, Seq::empty(), max).stack;
        assert(loop_from(t, q1, true, Seq::empty(), max) == loop_from(t, at, true, st, max));
        lemma_skip_ws_from_bounds(t, at);
        lemma_loop_from_ws(t, at, true, st, max);
        if skip_ws_from(t, at) >= t.len() {
            assert(loop_from(t, skip_ws_from(t, at), true, st, max).outcome is Failed);
            assert(false);
        }
    }
    law_resume_matches_whole_input(s1, t2, true);
    assert(whole_input_state(s1, t2, true) == (StackParserView {
        buffer: t,
        pos: 0,
        eof: true,
        stack: Seq::empty(),
        max_depth: max,
    }));
}

} // verus!
