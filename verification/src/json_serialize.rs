//! Compact JSON serialization of parsed documents.
use vstd::prelude::*;
use crate::json_parse::{
    digit_run_end, false_bytes, is_digit_byte, is_number_delimiter, null_bytes, number_literal,
    saturating_decimal, saturating_digit_step, true_bytes, NumberParts, NumberView, Scan,
};
use crate::bin_inner::is_json_whitespace;
use crate::json_parse::law_parse_string_inverts_serialize_string;
use crate::json_parser::{
    elements_at, full_at, json_views, key_index, key_views, lemma_json_views, members_at, value_at,
    JsonSerializer, JsonValue, JsonView, DEFAULT_MAX_DEPTH,
};
use crate::parse_error::Outcome;
use crate::json_parser::NextView;
use crate::stack_parser::{
    law_resume_matches_whole_input, lemma_loop_extends, outcome_pos, resumed_state, stack_next,
    FrameView, StackParserView,
};
use crate::bin_inner::{extends, lemma_skip_ws_from_bounds, skip_ws_from};
use crate::json_text::{json_string, serialize_string, SerializeError, SerializeErrorKind};
use crate::writer::BinWriter;
use crate::stack_agreement::law_stack_parser_agrees;

verus! {

/// The deepest nesting the serializer accepts: a container is refused at
/// this depth (the top-level value is at depth 0).
pub const MAX_SERIALIZE_DEPTH: usize = 512;

/// The decimal digits (ASCII) of a natural number, without leading zeros.
pub open spec fn decimal_bytes(n: nat) -> Seq<u8>
    decreases n,
{
    if n < 10 {
        seq![(0x30 + n) as u8]
    } else {
        decimal_bytes(n / 10).push((0x30 + n % 10) as u8)
    }
}

/// The text of an exponent: its digits, after `-` when negative.
pub open spec fn exponent_text(e: i32) -> Seq<u8> {
    if e < 0 {
        seq![0x2Du8] + decimal_bytes((-e) as nat)
    } else {
        decimal_bytes(e as nat)
    }
}

/// The text of a number: `-` when negative, the integer digits, `.` and the
/// fraction digits when there are any, `e` and the exponent when there is one.
pub open spec fn number_text(n: NumberView) -> Seq<u8> {
    (if n.negative {
        seq![0x2Du8]
    } else {
        Seq::empty()
    }) + n.int_digits + (if n.frac_digits.len() > 0 {
        seq![0x2Eu8] + n.frac_digits
    } else {
        Seq::empty()
    }) + match n.exponent {
        Some(e) => seq![0x65u8] + exponent_text(e),
        None => Seq::empty(),
    }
}

/// Every object holds as many values as keys, all the way down.
pub open spec fn shape_ok(v: JsonView) -> bool
    decreases v, 0int,
{
    match v {
        JsonView::List(items) => all_shape_ok(items, 0),
        JsonView::Dict(keys, vals) => keys.len() == vals.len() && all_shape_ok(vals, 0),
        _ => true,
    }
}

/// `shape_ok` holds of the values from index `i` on.
pub open spec fn all_shape_ok(s: Seq<JsonView>, i: int) -> bool
    decreases s, s.len() - i,
{
    if i < 0 || i >= s.len() {
        true
    } else {
        shape_ok(s[i]) && all_shape_ok(s, i + 1)
    }
}

/// What the serializer writes for `v` at nesting `depth`, and whether it
/// succeeds: a container at depth `MAX_SERIALIZE_DEPTH` or deeper stops the
/// output with a depth error, leaving what was written before it.
pub open spec fn serialized(v: JsonView, depth: int) -> (Seq<u8>, bool)
    decreases v, 0int,
{
    match v {
        JsonView::Null => (null_bytes(), true),
        JsonView::Boolean(b) => (
            if b {
                true_bytes()
            } else {
                false_bytes()
            },
            true,
        ),
        JsonView::Number(n) => (number_text(n), true),
        JsonView::Str(s) => (json_string(s), true),
        JsonView::List(items) => if depth >= MAX_SERIALIZE_DEPTH {
            (Seq::empty(), false)
        } else {
            let (t, ok) = serialized_items(items, 0, depth + 1);
            (
                seq![0x5Bu8] + t + (if ok {
                    seq![0x5Du8]
                } else {
                    Seq::empty()
                }),
                ok,
            )
        },
        JsonView::Dict(keys, vals) => if depth >= MAX_SERIALIZE_DEPTH {
            (Seq::empty(), false)
        } else {
            let (t, ok) = serialized_members(keys, vals, 0, depth + 1);
            (
                seq![0x7Bu8] + t + (if ok {
                    seq![0x7Du8]
                } else {
                    Seq::empty()
                }),
                ok,
            )
        },
    }
}

/// What the serializer writes for the array items from index `i` on, each
/// after a `,` but the first.
pub open spec fn serialized_items(items: Seq<JsonView>, i: int, depth: int) -> (Seq<u8>, bool)
    decreases items, items.len() - i,
{
    if i < 0 || i >= items.len() {
        (Seq::empty(), true)
    } else {
        let sep: Seq<u8> = if i > 0 {
            seq![0x2Cu8]
        } else {
            Seq::empty()
        };
        let (t, ok) = serialized(items[i], depth);
        if !ok {
            (sep + t, false)
        } else {
            let (r, ok2) = serialized_items(items, i + 1, depth);
            (sep + t + r, ok2)
        }
    }
}

/// What the serializer writes for the object members from index `i` on:
/// each key, `:` and its value, after a `,` but the first.
pub open spec fn serialized_members(
    keys: Seq<Seq<char>>,
    vals: Seq<JsonView>,
    i: int,
    depth: int,
) -> (Seq<u8>, bool)
    decreases vals, vals.len() - i,
{
    if i < 0 || i >= vals.len() || i >= keys.len() {
        (Seq::empty(), true)
    } else {
        let head: Seq<u8> = (if i > 0 {
            seq![0x2Cu8]
        } else {
            Seq::empty()
        }) + json_string(keys[i]) + seq![0x3Au8];
        let (t, ok) = serialized(vals[i], depth);
        if !ok {
            (head + t, false)
        } else {
            let (r, ok2) = serialized_members(keys, vals, i + 1, depth);
            (head + t + r, ok2)
        }
    }
}

/// Writes the decimal digits of `n`.
fn write_decimal(writer: &mut BinWriter, n: u32)
    ensures
        final(writer)@ == old(writer)@ + decimal_bytes(n as nat),
    decreases n,
{
    if n >= 10 {
        write_decimal(writer, n / 10);
    }
    let d = (n % 10) as u8;
    writer.write_byte(0x30u8 + d);
    assert(final(writer)@ =~= old(writer)@ + decimal_bytes(n as nat));
}

/// Writes the text of a number (see `number_text`).
fn write_number(writer: &mut BinWriter, n: &NumberParts)
    ensures
        final(writer)@ == old(writer)@ + number_text(n@),
{
    if n.negative {
        writer.write_byte(0x2Du8);
    }
    writer.write_bytes(n.int_digits.as_slice());
    if n.frac_digits.len() > 0 {
        writer.write_byte(0x2Eu8);
        writer.write_bytes(n.frac_digits.as_slice());
    }
    match n.exponent {
        Some(e) => {
            writer.write_byte(0x65u8);
            if e < 0 {
                writer.write_byte(0x2Du8);
                let m: u32 = if e == i32::MIN {
                    0x8000_0000u32
                } else {
                    (0 - e) as u32
                };
                write_decimal(writer, m);
            } else {
                write_decimal(writer, e as u32);
            }
        },
        None => {},
    }
    assert(final(writer)@ =~= old(writer)@ + number_text(n@));
}

impl JsonSerializer {
    /// Serializes `value` at nesting `depth` (see `serialized`): on success
    /// the compact JSON text is appended; a container nested too deep stops
    /// with a depth error, the text before it left written.
    pub fn serialize_value(writer: &mut BinWriter, value: &JsonValue, depth: usize) -> (r: Result<(), SerializeError>)
        requires
            shape_ok(value@),
        ensures
            final(writer)@ == old(writer)@ + serialized(value@, depth as int).0,
            r is Ok <==> serialized(value@, depth as int).1,
            r matches Err(e) ==> e.kind == SerializeErrorKind::DepthLimit && e.context is None,
        decreases MAX_SERIALIZE_DEPTH - depth, 0int,
    {
        match value {
            JsonValue::Null => {
                writer.write_byte(0x6Eu8);
                writer.write_byte(0x75u8);
                writer.write_byte(0x6Cu8);
                writer.write_byte(0x6Cu8);
                assert(final(writer)@ =~= old(writer)@ + null_bytes());
                Ok(())
            },
            JsonValue::Boolean(b) => {
                if *b {
                    writer.write_byte(0x74u8);
                    writer.write_byte(0x72u8);
                    writer.write_byte(0x75u8);
                    writer.write_byte(0x65u8);
                    assert(final(writer)@ =~= old(writer)@ + true_bytes());
                } else {
                    writer.write_byte(0x66u8);
                    writer.write_byte(0x61u8);
                    writer.write_byte(0x6Cu8);
                    writer.write_byte(0x73u8);
                    writer.write_byte(0x65u8);
                    assert(final(writer)@ =~= old(writer)@ + false_bytes());
                }
                Ok(())
            },
            JsonValue::Number(n) => {
                write_number(writer, n);
                Ok(())
            },
            JsonValue::Str(s) => serialize_string(writer, s.as_str()),
            JsonValue::List(items) => {
                if depth >= MAX_SERIALIZE_DEPTH {
                    return Err(SerializeError::depth_limit());
                }
                writer.write_byte(0x5Bu8);
                match Self::serialize_items(writer, items, 0, depth + 1) {
                    Ok(()) => {
                        writer.write_byte(0x5Du8);
                        assert(final(writer)@ =~= old(writer)@ + serialized(value@, depth as int).0);
                        Ok(())
                    },
                    Err(e) => {
                        assert(final(writer)@ =~= old(writer)@ + serialized(value@, depth as int).0);
                        Err(e)
                    },
                }
            },
            JsonValue::Dict(keys, values) => {
                proof {
                    lemma_json_views(values@);
                    assert(keys@.map_values(|k: String| k@) =~= key_views(keys@));
                }
                if depth >= MAX_SERIALIZE_DEPTH {
                    return Err(SerializeError::depth_limit());
                }
                writer.write_byte(0x7Bu8);
                match Self::serialize_members(writer, keys, values, 0, depth + 1) {
                    Ok(()) => {
                        writer.write_byte(0x7Du8);
                        assert(final(writer)@ =~= old(writer)@ + serialized(value@, depth as int).0);
                        Ok(())
                    },
                    Err(e) => {
                        assert(final(writer)@ =~= old(writer)@ + serialized(value@, depth as int).0);
                        Err(e)
                    },
                }
            },
        }
    }
}

impl JsonSerializer {
    /// Serializes `value` into `writer` as compact JSON (see `serialized`,
    /// from depth 0).
    pub fn serialize_buf(value: &JsonValue, writer: &mut BinWriter) -> (r: Result<(), SerializeError>)
        requires
            shape_ok(value@),
        ensures
            final(writer)@ == old(writer)@ + serialized(value@, 0).0,
            r is Ok <==> serialized(value@, 0).1,
            r matches Err(e) ==> e.kind == SerializeErrorKind::DepthLimit && e.context is None,
    {
        Self::serialize_value(writer, value, 0)
    }
}

impl JsonSerializer {
    /// Serializes the array items from index `i` on (see `serialized_items`).
    fn serialize_items(writer: &mut BinWriter, items: &Vec<JsonValue>, i: usize, depth: usize) -> (r: Result<(), SerializeError>)
        requires
            all_shape_ok(json_views(items@), i as int),
            depth <= MAX_SERIALIZE_DEPTH,
        ensures
            final(writer)@ == old(writer)@ + serialized_items(json_views(items@), i as int, depth as int).0,
            r is Ok <==> serialized_items(json_views(items@), i as int, depth as int).1,
            r matches Err(e) ==> e.kind == SerializeErrorKind::DepthLimit && e.context is None,
        decreases MAX_SERIALIZE_DEPTH - depth, items@.len() - i,
    {
        proof {
            lemma_json_views(items@);
        }
        if i >= items.len() {
            assert(final(writer)@ =~= old(writer)@ + serialized_items(json_views(items@), i as int, depth as int).0);
            return Ok(());
        }
        if i > 0 {
            writer.write_byte(0x2Cu8);
        }
        match Self::serialize_value(writer, &items[i], depth) {
            Ok(()) => {},
            Err(e) => {
                assert(final(writer)@ =~= old(writer)@ + serialized_items(json_views(items@), i as int, depth as int).0);
                return Err(e);
            },
        }
        let r = Self::serialize_items(writer, items, i + 1, depth);
        assert(final(writer)@ =~= old(writer)@ + serialized_items(json_views(items@), i as int, depth as int).0);
        r
    }

    /// Serializes the object members from index `i` on (see
    /// `serialized_members`).
    fn serialize_members(
        writer: &mut BinWriter,
        keys: &Vec<String>,
        values: &Vec<JsonValue>,
        i: usize,
        depth: usize,
    ) -> (r: Result<(), SerializeError>)
        requires
            keys@.len() == values@.len(),
            all_shape_ok(json_views(values@), i as int),
            depth <= MAX_SERIALIZE_DEPTH,
        ensures
            final(writer)@ == old(writer)@ + serialized_members(key_views(keys@), json_views(values@), i as int, depth as int).0,
            r is Ok <==> serialized_members(key_views(keys@), json_views(values@), i as int, depth as int).1,
            r matches Err(e) ==> e.kind == SerializeErrorKind::DepthLimit && e.context is None,
        decreases MAX_SERIALIZE_DEPTH - depth, values@.len() - i,
    {
        proof {
            lemma_json_views(values@);
        }
        if i >= keys.len() {
            assert(final(writer)@ =~= old(writer)@ + serialized_members(key_views(keys@), json_views(values@), i as int, depth as int).0);
            return Ok(());
        }
        if i > 0 {
            writer.write_byte(0x2Cu8);
        }
        let _ = serialize_string(writer, keys[i].as_str());
        writer.write_byte(0x3Au8);
        match Self::serialize_value(writer, &values[i], depth) {
            Ok(()) => {},
            Err(e) => {
                assert(final(writer)@ =~= old(writer)@ + serialized_members(key_views(keys@), json_views(values@), i as int, depth as int).0);
                return Err(e);
            },
        }
        let r = Self::serialize_members(writer, keys, values, i + 1, depth);
        assert(final(writer)@ =~= old(writer)@ + serialized_members(key_views(keys@), json_views(values@), i as int, depth as int).0);
        r
    }
}

/// Every byte is an ASCII digit.
pub open spec fn all_digits(s: Seq<u8>) -> bool {
    forall|i: int| 0 <= i < s.len() ==> is_digit_byte(#[trigger] s[i])
}

/// A number whose text reads back as itself: at least one integer digit,
/// digits only, and an exponent other than `i32::MIN` (whose magnitude the
/// reader saturates).
pub open spec fn number_round_trips(n: NumberView) -> bool {
    &&& n.int_digits.len() > 0
    &&& all_digits(n.int_digits)
    &&& all_digits(n.frac_digits)
    &&& (n.exponent matches Some(e) ==> e != i32::MIN)
}

/// The keys of an object are distinct.
pub open spec fn distinct_keys(keys: Seq<Seq<char>>) -> bool {
    forall|i: int, j: int| 0 <= i < j < keys.len() ==> keys[i] != keys[j]
}

/// A value whose serialized text reads back as itself: its numbers read
/// back, and its objects have distinct keys, each with a value.
pub open spec fn round_trips(v: JsonView) -> bool
    decreases v, 0int,
{
    match v {
        JsonView::Number(n) => number_round_trips(n),
        JsonView::List(items) => all_round_trip(items, 0),
        JsonView::Dict(keys, vals) => keys.len() == vals.len() && distinct_keys(keys)
            && all_round_trip(vals, 0),
        _ => true,
    }
}

/// `round_trips` holds of the values from index `i` on.
pub open spec fn all_round_trip(s: Seq<JsonView>, i: int) -> bool
    decreases s, s.len() - i,
{
    if i < 0 || i >= s.len() {
        true
    } else {
        round_trips(s[i]) && all_round_trip(s, i + 1)
    }
}

/// `t` stands in `buf` at `p`.
pub open spec fn occurs(buf: Seq<u8>, p: int, t: Seq<u8>) -> bool {
    0 <= p && p + t.len() <= buf.len() && buf.subrange(p, p + t.len()) == t
}

/// What stands at `p` also stands, piece by piece, at the pieces' places.
proof fn lemma_occurs_split(buf: Seq<u8>, p: int, a: Seq<u8>, b: Seq<u8>)
    requires
        occurs(buf, p, a + b),
    ensures
        occurs(buf, p, a),
        occurs(buf, p + a.len(), b),
{
    let whole = buf.subrange(p, p + (a + b).len());
    assert(whole == a + b);
    assert(buf.subrange(p, p + a.len()) =~= whole.subrange(0, a.len() as int));
    assert(whole.subrange(0, a.len() as int) =~= a);
    assert(buf.subrange(p + a.len(), p + a.len() + b.len()) =~= whole.subrange(
        a.len() as int,
        (a + b).len() as int,
    ));
    assert(whole.subrange(a.len() as int, (a + b).len() as int) =~= b);
}

/// The bytes of what stands at `p`.
proof fn lemma_occurs_index(buf: Seq<u8>, p: int, t: Seq<u8>, i: int)
    requires
        occurs(buf, p, t),
        0 <= i < t.len(),
    ensures
        buf[p + i] == t[i],
{
    assert(buf.subrange(p, p + t.len())[i] == buf[p + i]);
}

/// Decimal digits are digits, at least one of them.
proof fn lemma_decimal_bytes_digits(n: nat)
    ensures
        decimal_bytes(n).len() > 0,
        all_digits(decimal_bytes(n)),
    decreases n,
{
    if n >= 10 {
        lemma_decimal_bytes_digits(n / 10);
    }
}

/// Reading the digits of `n` back gives `n`, up to `i32::MAX`.
proof fn lemma_decimal_bytes_value(n: nat)
    requires
        n <= i32::MAX,
    ensures
        saturating_decimal(decimal_bytes(n)) == n,
    decreases n,
{
    let d = decimal_bytes(n);
    if n >= 10 {
        lemma_decimal_bytes_value(n / 10);
        let s = decimal_bytes(n / 10);
        assert(d.drop_last() =~= s);
        assert(d.last() == (0x30 + n % 10) as u8);
        assert(d.last() - 0x30 == n % 10);
        assert((n / 10) * 10 + n % 10 == n);
        assert(saturating_decimal(d) == saturating_digit_step((n / 10) as int, (n % 10) as int));
    } else {
        assert(d.drop_last() =~= Seq::<u8>::empty());
        assert(saturating_decimal(Seq::<u8>::empty()) == 0);
        assert(d.last() - 0x30 == n);
        assert(saturating_decimal(d) == saturating_digit_step(0, n as int));
    }
}

/// A run of digits that stands at `i` and is followed by a non-digit (or
/// the end) is exactly the digit run from `i`.
proof fn lemma_digit_run_at(buf: Seq<u8>, i: int, d: Seq<u8>)
    requires
        occurs(buf, i, d),
        all_digits(d),
        i + d.len() == buf.len() || !is_digit_byte(buf[i + d.len()]),
    ensures
        digit_run_end(buf, i) == i + d.len(),
    decreases d.len(),
{
    if d.len() > 0 {
        lemma_occurs_index(buf, i, d, 0);
        assert(occurs(buf, i + 1, d.drop_first())) by {
            assert(buf.subrange(i + 1, i + 1 + d.drop_first().len()) =~= d.drop_first()) by {
                assert forall|k: int| 0 <= k < d.drop_first().len() implies buf.subrange(
                    i + 1,
                    i + 1 + d.drop_first().len(),
                )[k] == d.drop_first()[k] by {
                    lemma_occurs_index(buf, i, d, k + 1);
                }
            }
        }
        lemma_digit_run_at(buf, i + 1, d.drop_first());
    }
}

/// The text of a number that reads back, standing at `p` and followed by a
/// delimiter or the end of input, reads back as the number.
proof fn lemma_number_round_trip(buf: Seq<u8>, p: int, n: NumberView)
    requires
        number_round_trips(n),
        occurs(buf, p, number_text(n)),
        p + number_text(n).len() == buf.len() || is_number_delimiter(
            buf[p + number_text(n).len()],
        ),
    ensures
        number_literal(buf, p, true) == Scan::Done(n, p + number_text(n).len()),
{
    let sign: Seq<u8> = if n.negative {
        seq![0x2Du8]
    } else {
        Seq::empty()
    };
    let frac: Seq<u8> = if n.frac_digits.len() > 0 {
        seq![0x2Eu8] + n.frac_digits
    } else {
        Seq::empty()
    };
    let exp: Seq<u8> = match n.exponent {
        Some(e) => seq![0x65u8] + exponent_text(e),
        None => Seq::empty(),
    };
    let t = number_text(n);
    assert(t =~= sign + n.int_digits + frac + exp);
    let end = p + t.len();
    lemma_occurs_split(buf, p, sign + n.int_digits + frac, exp);
    lemma_occurs_split(buf, p, sign + n.int_digits, frac);
    lemma_occurs_split(buf, p, sign, n.int_digits);
    let i = p + sign.len();
    let j = i + n.int_digits.len();
    let k = j + frac.len();
    lemma_occurs_index(buf, i, n.int_digits, 0);
    lemma_occurs_index(buf, p, t, 0);
    // The byte after each part tells where the part ends.
    if k < end {
        lemma_occurs_index(buf, k, exp, 0);
    }
    if j < k {
        lemma_occurs_index(buf, j, frac, 0);
    }
    lemma_digit_run_at(buf, i, n.int_digits);
    if n.frac_digits.len() > 0 {
        lemma_occurs_split(buf, j, seq![0x2Eu8], n.frac_digits);
        lemma_digit_run_at(buf, j + 1, n.frac_digits);
        assert(buf.subrange(j + 1, k) =~= n.frac_digits);
    }
    assert(buf.subrange(i, j) =~= n.int_digits);
    match n.exponent {
        Some(e) => {
            let mag: nat = if e < 0 { (-e) as nat } else { e as nat };
            let digits = decimal_bytes(mag);
            lemma_decimal_bytes_digits(mag);
            lemma_decimal_bytes_value(mag);
            let es = k + 1;
            lemma_occurs_split(buf, k, seq![0x65u8], exponent_text(e));
            if e < 0 {
                lemma_occurs_split(buf, es, seq![0x2Du8], digits);
                lemma_occurs_index(buf, es, exponent_text(e), 0);
                lemma_digit_run_at(buf, es + 1, digits);
                assert(buf.subrange(es + 1, end) =~= digits);
            } else {
                lemma_occurs_index(buf, es, digits, 0);
                lemma_digit_run_at(buf, es, digits);
                assert(buf.subrange(es, end) =~= digits);
            }
        },
        None => {},
    }
    let signed = buf[p] == 0x2B || buf[p] == 0x2D;
    assert(signed == n.negative);
    assert(i == (if signed { p + 1 } else { p }));
    assert(digit_run_end(buf, i) == j);
    assert(j > i);
    assert((j < buf.len() && buf[j] == 0x2E) == (n.frac_digits.len() > 0));
    if n.frac_digits.len() == 0 {
        assert(n.frac_digits =~= Seq::<u8>::empty());
    }
    assert((k < buf.len() && (buf[k] == 0x65 || buf[k] == 0x45)) == (n.exponent is Some));
    let es = k + 1;
    match n.exponent {
        Some(e) => {
            let exp_signed = es < buf.len() && (buf[es] == 0x2B || buf[es] == 0x2D);
            assert(exp_signed == (e < 0));
            let ed = if exp_signed { es + 1 } else { es };
            assert(digit_run_end(buf, ed) == end);
            assert(end > ed);
            let v = saturating_decimal(buf.subrange(ed, end));
            assert(v == (if e < 0 { -e } else { e as int }));
            assert((if exp_signed && buf[es] == 0x2D { -v } else { v }) as i32 == e);
        },
        None => {
            assert(k == end);
        },
    }
}

/// The text of a value that serializes and reads back starts with a byte
/// that is no whitespace and no closing bracket or separator.
proof fn lemma_first_byte(v: JsonView, depth: int)
    requires
        round_trips(v),
        serialized(v, depth).1,
    ensures
        serialized(v, depth).0.len() > 0,
        !is_json_whitespace(serialized(v, depth).0[0]),
        serialized(v, depth).0[0] != 0x5D,
        serialized(v, depth).0[0] != 0x7D,
        serialized(v, depth).0[0] != 0x2C,
        serialized(v, depth).0[0] != 0x3A,
{
    match v {
        JsonView::Number(n) => {
            let t = number_text(n);
            if !n.negative {
                assert(t[0] == n.int_digits[0]);
                assert(is_digit_byte(n.int_digits[0]));
            }
        },
        JsonView::Str(s) => {
            assert(json_string(s)[0] == 0x22);
        },
        _ => {},
    }
}

/// When `key` is absent from `j` on, no index is found from `j`.
proof fn lemma_key_index_absent(keys: Seq<Seq<char>>, key: Seq<char>, j: int)
    requires
        0 <= j,
        forall|i: int| j <= i < keys.len() ==> keys[i] != key,
    ensures
        key_index(keys, key, j) is None,
    decreases keys.len() - j,
{
    if j < keys.len() {
        lemma_key_index_absent(keys, key, j + 1);
    }
}

/// The text of a value that serializes and reads back, standing at `p` and
/// followed by a delimiter or the end, reads back as the value.
proof fn lemma_value_round_trip(buf: Seq<u8>, p: int, v: JsonView, depth: int)
    requires
        round_trips(v),
        serialized(v, depth).1,
        0 <= depth,
        occurs(buf, p, serialized(v, depth).0),
        p + serialized(v, depth).0.len() == buf.len() || is_number_delimiter(
            buf[p + serialized(v, depth).0.len()],
        ),
    ensures
        value_at(buf, p, true, depth, DEFAULT_MAX_DEPTH as int) == Outcome::Parsed(
            v,
            p + serialized(v, depth).0.len(),
        ),
    decreases v, 0int,
{
    let t = serialized(v, depth).0;
    lemma_first_byte(v, depth);
    lemma_occurs_index(buf, p, t, 0);
    match v {
        JsonView::Null => {
            assert(buf.subrange(p, p + 4) == null_bytes());
        },
        JsonView::Boolean(b) => {
            if b {
                assert(buf.subrange(p, p + 4) == true_bytes());
            } else {
                assert(buf.subrange(p, p + 5) == false_bytes());
                assert(buf.subrange(p, p + 4) != true_bytes()) by {
                    assert(buf.subrange(p, p + 4)[0] == 0x66);
                }
            }
        },
        JsonView::Number(n) => {
            lemma_number_round_trip(buf, p, n);
        },
        JsonView::Str(s) => {
            law_parse_string_inverts_serialize_string(s, buf, p);
        },
        JsonView::List(items) => {
            lemma_list_round_trip(buf, p, items, depth);
        },
        JsonView::Dict(keys, vals) => {
            lemma_dict_round_trip(buf, p, keys, vals, depth);
        },
    }
}

/// An array's text read back (see `lemma_value_round_trip`).
proof fn lemma_list_round_trip(buf: Seq<u8>, p: int, items: Seq<JsonView>, depth: int)
    requires
        round_trips(JsonView::List(items)),
        serialized(JsonView::List(items), depth).1,
        0 <= depth,
        occurs(buf, p, serialized(JsonView::List(items), depth).0),
    ensures
        value_at(buf, p, true, depth, DEFAULT_MAX_DEPTH as int) == Outcome::Parsed(
            JsonView::List(items),
            p + serialized(JsonView::List(items), depth).0.len(),
        ),
    decreases items, items.len() + 1,
{
    let t = serialized(JsonView::List(items), depth).0;
    let inner = serialized_items(items, 0, depth + 1).0;
    assert(t == seq![0x5Bu8] + inner + seq![0x5Du8]);
    assert(t =~= seq![0x5Bu8] + (inner + seq![0x5Du8]));
    lemma_occurs_split(buf, p, seq![0x5Bu8], inner + seq![0x5Du8]);
    lemma_occurs_index(buf, p, t, 0);
    if items.len() == 0 {
        assert(inner.len() == 0);
        lemma_occurs_index(buf, p, t, 1);
        assert(items =~= Seq::<JsonView>::empty());
    } else {
        let tk = serialized(items[0], depth + 1).0;
        let rest = serialized_items(items, 1, depth + 1).0;
        assert(inner == tk + rest);
        assert(inner + seq![0x5Du8] =~= tk + rest + seq![0x5Du8]);
        assert(inner + seq![0x5Du8] =~= tk + (rest + seq![0x5Du8]));
        lemma_first_byte(items[0], depth + 1);
        lemma_occurs_split(buf, p + 1, tk, rest + seq![0x5Du8]);
        lemma_occurs_index(buf, p + 1, tk, 0);
        lemma_items_round_trip(buf, p + 1, items, 0, depth + 1);
        assert(items.take(0) =~= Seq::<JsonView>::empty());
    }
}

/// An object's text read back (see `lemma_value_round_trip`).
proof fn lemma_dict_round_trip(
    buf: Seq<u8>,
    p: int,
    keys: Seq<Seq<char>>,
    vals: Seq<JsonView>,
    depth: int,
)
    requires
        round_trips(JsonView::Dict(keys, vals)),
        serialized(JsonView::Dict(keys, vals), depth).1,
        0 <= depth,
        occurs(buf, p, serialized(JsonView::Dict(keys, vals), depth).0),
    ensures
        value_at(buf, p, true, depth, DEFAULT_MAX_DEPTH as int) == Outcome::Parsed(
            JsonView::Dict(keys, vals),
            p + serialized(JsonView::Dict(keys, vals), depth).0.len(),
        ),
    decreases vals, vals.len() + 1,
{
    let t = serialized(JsonView::Dict(keys, vals), depth).0;
    let inner = serialized_members(keys, vals, 0, depth + 1).0;
    assert(t == seq![0x7Bu8] + inner + seq![0x7Du8]);
    assert(t =~= seq![0x7Bu8] + (inner + seq![0x7Du8]));
    lemma_occurs_split(buf, p, seq![0x7Bu8], inner + seq![0x7Du8]);
    lemma_occurs_index(buf, p, t, 0);
    if vals.len() == 0 {
        assert(inner.len() == 0);
        lemma_occurs_index(buf, p, t, 1);
        assert(vals =~= Seq::<JsonView>::empty());
        assert(keys =~= Seq::<Seq<char>>::empty());
    } else {
        let ks = json_string(keys[0]);
        let tk = serialized(vals[0], depth + 1).0;
        let rest = serialized_members(keys, vals, 1, depth + 1).0;
        assert(inner =~= ks + seq![0x3Au8] + tk + rest);
        assert(inner + seq![0x7Du8] =~= ks + seq![0x3Au8] + tk + rest + seq![0x7Du8]);
        lemma_occurs_index(buf, p + 1, inner + seq![0x7Du8], 0);
        assert(ks[0] == 0x22);
        lemma_members_round_trip(buf, p + 1, keys, vals, 0, depth + 1);
        assert(keys.take(0) =~= Seq::<Seq<char>>::empty());
        assert(vals.take(0) =~= Seq::<JsonView>::empty());
    }
}

/// The array items from `k` on, standing at `p` (after the separator of
/// item `k`) and followed by `]`, read back as the rest of the array.
proof fn lemma_items_round_trip(buf: Seq<u8>, p: int, items: Seq<JsonView>, k: int, depth: int)
    requires
        0 <= k < items.len(),
        0 <= depth,
        all_round_trip(items, k),
        serialized_items(items, k, depth).1,
        occurs(
            buf,
            p,
            serialized(items[k], depth).0 + serialized_items(items, k + 1, depth).0 + seq![0x5Du8],
        ),
    ensures
        elements_at(buf, p, true, depth, DEFAULT_MAX_DEPTH as int, items.take(k)) == Outcome::Parsed(
            JsonView::List(items),
            p + serialized(items[k], depth).0.len() + serialized_items(items, k + 1, depth).0.len()
                + 1,
        ),
    decreases items, items.len() - k,
{
    let tk = serialized(items[k], depth).0;
    let rest = serialized_items(items, k + 1, depth).0;
    let e = p + tk.len();
    assert(tk + rest + seq![0x5Du8] =~= tk + (rest + seq![0x5Du8]));
    lemma_occurs_split(buf, p, tk, rest + seq![0x5Du8]);
    lemma_occurs_split(buf, e, rest, seq![0x5Du8]);
    lemma_first_byte(items[k], depth);
    lemma_occurs_index(buf, p, tk, 0);
    assert(items.take(k).push(items[k]) =~= items.take(k + 1));
    if k + 1 < items.len() {
        let tk1 = serialized(items[k + 1], depth).0;
        let rest1 = serialized_items(items, k + 2, depth).0;
        assert(rest == seq![0x2Cu8] + tk1 + rest1);
        lemma_occurs_index(buf, e, rest + seq![0x5Du8], 0);
        lemma_value_round_trip(buf, p, items[k], depth);
        assert(occurs(buf, e + 1, tk1 + rest1 + seq![0x5Du8])) by {
            assert(rest + seq![0x5Du8] =~= seq![0x2Cu8] + (tk1 + rest1 + seq![0x5Du8]));
            lemma_occurs_split(buf, e, seq![0x2Cu8], tk1 + rest1 + seq![0x5Du8]);
        }
        lemma_items_round_trip(buf, e + 1, items, k + 1, depth);
    } else {
        assert(rest.len() == 0);
        lemma_occurs_index(buf, e, rest + seq![0x5Du8], 0);
        lemma_value_round_trip(buf, p, items[k], depth);
        assert(items.take(k + 1) =~= items);
    }
}

/// The object members from `k` on, standing at `p` (after the separator of
/// member `k`) and followed by `}`, read back as the rest of the object.
proof fn lemma_members_round_trip(
    buf: Seq<u8>,
    p: int,
    keys: Seq<Seq<char>>,
    vals: Seq<JsonView>,
    k: int,
    depth: int,
)
    requires
        keys.len() == vals.len(),
        0 <= k < vals.len(),
        0 <= depth,
        distinct_keys(keys),
        all_round_trip(vals, k),
        serialized_members(keys, vals, k, depth).1,
        occurs(
            buf,
            p,
            json_string(keys[k]) + seq![0x3Au8] + serialized(vals[k], depth).0 + serialized_members(
                keys,
                vals,
                k + 1,
                depth,
            ).0 + seq![0x7Du8],
        ),
    ensures
        members_at(buf, p, true, depth, DEFAULT_MAX_DEPTH as int, keys.take(k), vals.take(k))
            == Outcome::Parsed(
            JsonView::Dict(keys, vals),
            p + json_string(keys[k]).len() + 1 + serialized(vals[k], depth).0.len()
                + serialized_members(keys, vals, k + 1, depth).0.len() + 1,
        ),
    decreases vals, vals.len() - k,
{
    let ks = json_string(keys[k]);
    let tk = serialized(vals[k], depth).0;
    let rest = serialized_members(keys, vals, k + 1, depth).0;
    let i2 = p + ks.len();
    let i4 = i2 + 1;
    let e = i4 + tk.len();
    assert(ks + seq![0x3Au8] + tk + rest + seq![0x7Du8] =~= ks + (seq![0x3Au8] + (tk + (rest
        + seq![0x7Du8]))));
    lemma_occurs_split(buf, p, ks, seq![0x3Au8] + (tk + (rest + seq![0x7Du8])));
    lemma_occurs_split(buf, i2, seq![0x3Au8], tk + (rest + seq![0x7Du8]));
    lemma_occurs_split(buf, i4, tk, rest + seq![0x7Du8]);
    lemma_occurs_split(buf, e, rest, seq![0x7Du8]);
    lemma_occurs_index(buf, p, ks, 0);
    assert(ks[0] == 0x22);
    assert(occurs(buf, p, ks));
    lemma_occurs_index(buf, i2, seq![0x3Au8], 0);
    law_parse_string_inverts_serialize_string(keys[k], buf, p);
    lemma_first_byte(vals[k], depth);
    lemma_occurs_index(buf, i4, tk, 0);
    lemma_key_index_absent(keys.take(k), keys[k], 0);
    assert(keys.take(k).push(keys[k]) =~= keys.take(k + 1));
    assert(vals.take(k).push(vals[k]) =~= vals.take(k + 1));
    if k + 1 < vals.len() {
        let ks1 = json_string(keys[k + 1]);
        let tk1 = serialized(vals[k + 1], depth).0;
        let rest1 = serialized_members(keys, vals, k + 2, depth).0;
        assert(rest == seq![0x2Cu8] + (ks1 + seq![0x3Au8]) + tk1 + rest1);
        lemma_occurs_index(buf, e, rest + seq![0x7Du8], 0);
        lemma_value_round_trip(buf, i4, vals[k], depth);
        assert(occurs(buf, e + 1, ks1 + seq![0x3Au8] + tk1 + rest1 + seq![0x7Du8])) by {
            assert(rest + seq![0x7Du8] =~= seq![0x2Cu8] + (ks1 + seq![0x3Au8] + tk1 + rest1
                + seq![0x7Du8]));
            lemma_occurs_split(buf, e, seq![0x2Cu8], ks1 + seq![0x3Au8] + tk1 + rest1 + seq![0x7Du8]);
        }
        lemma_members_round_trip(buf, e + 1, keys, vals, k + 1, depth);
    } else {
        assert(rest.len() == 0);
        lemma_occurs_index(buf, e, rest + seq![0x7Du8], 0);
        lemma_value_round_trip(buf, i4, vals[k], depth);
        assert(keys.take(k + 1) =~= keys);
        assert(vals.take(k + 1) =~= vals);
    }
}

/// Serializing a value and parsing the text back gives the value: for every
/// value whose numbers have integer digits, only digits and an exponent other
/// than `i32::MIN`, whose objects have distinct keys, and that the
/// serializer accepts (no container nested `MAX_SERIALIZE_DEPTH` deep),
/// `parse_one` of the serialized text is that value.
pub proof fn law_parse_inverts_serialize(v: JsonView)
    requires
        round_trips(v),
        serialized(v, 0).1,
    ensures
        full_at(serialized(v, 0).0, 0, true, DEFAULT_MAX_DEPTH as int) == Outcome::Parsed(
            v,
            serialized(v, 0).0.len() as int,
        ),
{
    let t = serialized(v, 0).0;
    assert(t.subrange(0, t.len() as int) =~= t);
    lemma_value_round_trip(t, 0, v, 0);
}

/// The stack parser agrees with the recursive parser on every text the
/// serializer writes: for a value that serializes and reads back, a new
/// stack parser fed the whole text, with the end of input signalled, gives
/// the value, as `parse_one` does, and leaves no container open.
pub proof fn law_stack_parser_agrees_on_serialized(v: JsonView)
    requires
        round_trips(v),
        serialized(v, 0).1,
    ensures
        ({
            let t = serialized(v, 0).0;
            &&& stack_next(
                StackParserView {
                    buffer: t,
                    pos: 0,
                    eof: true,
                    stack: Seq::empty(),
                    max_depth: DEFAULT_MAX_DEPTH as int,
                },
            ) == (Outcome::Parsed(NextView::Value(v), t.len() as int), Seq::<FrameView>::empty())
            &&& full_at(t, 0, true, DEFAULT_MAX_DEPTH as int) == Outcome::Parsed(v, t.len() as int)
        }),
{
    let t = serialized(v, 0).0;
    law_parse_inverts_serialize(v);
    law_stack_parser_agrees(t, 0, true, DEFAULT_MAX_DEPTH as int);
    lemma_skip_ws_from_bounds(t, 0);
    let e = value_at(t, 0, true, 0, DEFAULT_MAX_DEPTH as int)->Parsed_1;
    lemma_last_byte(v, 0);
    if e < t.len() {
        lemma_skip_ws_stops_before_end(t, e);
    }
}

/// The text of a value that serializes and reads back ends with a byte that
/// is no whitespace.
proof fn lemma_last_byte(v: JsonView, depth: int)
    requires
        round_trips(v),
        serialized(v, depth).1,
    ensures
        serialized(v, depth).0.len() > 0,
        !is_json_whitespace(serialized(v, depth).0.last()),
{
    lemma_first_byte(v, depth);
    match v {
        JsonView::Number(n) => {
            let t = number_text(n);
            match n.exponent {
                Some(e) => {
                    let mag: nat = if e < 0 { (-e) as nat } else { e as nat };
                    lemma_decimal_bytes_digits(mag);
                    assert(t.last() == decimal_bytes(mag).last());
                },
                None => {
                    if n.frac_digits.len() > 0 {
                        assert(t.last() == n.frac_digits.last());
                    } else {
                        assert(t.last() == n.int_digits.last());
                    }
                },
            }
        },
        _ => {},
    }
}

/// Whitespace skipped from inside a buffer that ends with a byte other than
/// whitespace stops inside it.
proof fn lemma_skip_ws_stops_before_end(buf: Seq<u8>, i: int)
    requires
        0 <= i < buf.len(),
        !is_json_whitespace(buf.last()),
    ensures
        skip_ws_from(buf, i) < buf.len(),
    decreases buf.len() - i,
{
    if is_json_whitespace(buf[i]) {
        lemma_skip_ws_stops_before_end(buf, i + 1);
    }
}

/// Pausing anywhere does not change what the stack parser gives: for a
/// value that serializes and reads back, when the first `k` bytes of its
/// text are fed and `parse_next` answers `NeedMore`, feeding the rest,
/// signalling the end of input and calling `parse_next` again gives the
/// value, as `parse_one` of the whole text does.
pub proof fn law_paused_stack_parse_gives_the_value(v: JsonView, k: int)
    requires
        round_trips(v),
        serialized(v, 0).1,
        0 <= k < serialized(v, 0).0.len(),
        stack_next(
            StackParserView {
                buffer: serialized(v, 0).0.take(k),
                pos: 0,
                eof: false,
                stack: Seq::empty(),
                max_depth: DEFAULT_MAX_DEPTH as int,
            },
        ).0 matches Outcome::Parsed(NextView::NeedMore, _),
    ensures
        ({
            let t = serialized(v, 0).0;
            let first = StackParserView {
                buffer: t.take(k),
                pos: 0,
                eof: false,
                stack: Seq::empty(),
                max_depth: DEFAULT_MAX_DEPTH as int,
            };
            stack_next(resumed_state(first, t.skip(k), true)).0 == Outcome::Parsed(
                NextView::Value(v),
                t.len() as int,
            )
        }),
{
    let t = serialized(v, 0).0;
    let a = t.take(k);
    let first = StackParserView {
        buffer: a,
        pos: 0,
        eof: false,
        stack: Seq::empty(),
        max_depth: DEFAULT_MAX_DEPTH as int,
    };
    assert(a + t.skip(k) =~= t);
    lemma_last_byte(v, 0);
    lemma_skip_ws_from_bounds(a, 0);
    let at = outcome_pos(stack_next(first).0);
    if skip_ws_from(a, 0) < a.len() {
        assert(extends(t, a));
        lemma_loop_extends(a, t, skip_ws_from(a, 0), true, Seq::empty(), DEFAULT_MAX_DEPTH as int);
        assert(at <= a.len());
        lemma_skip_ws_stops_before_end(t, at);
    }
    law_resume_matches_whole_input(first, t.skip(k), true);
    law_stack_parser_agrees_on_serialized(v);
}

} // verus!
