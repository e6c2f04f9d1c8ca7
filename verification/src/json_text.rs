//! JSON string literals: escaping on output.
use vstd::prelude::*;
use vstd::utf8::encode_scalar;
use crate::writer::BinWriter;

verus! {

/// Unicode general category Cc: U+0000..=U+001F and U+007F..=U+009F.
pub open spec fn is_control_char(c: char) -> bool {
    (c as u32) <= 0x1F || (0x7F <= (c as u32) && (c as u32) <= 0x9F)
}

/// Lowercase hexadecimal digit for a value below 16.
pub open spec fn hex_digit(n: u32) -> u8 {
    if n < 10 {
        (0x30 + n) as u8
    } else {
        (0x61 + n - 10) as u8
    }
}

/// `\uXXXX` with four lowercase hexadecimal digits of the low 16 bits of `cp`.
pub open spec fn unicode_escape(cp: u32) -> Seq<u8> {
    seq![
        0x5Cu8,
        0x75u8,
        hex_digit((cp >> 12) & 0xF),
        hex_digit((cp >> 8) & 0xF),
        hex_digit((cp >> 4) & 0xF),
        hex_digit(cp & 0xF),
    ]
}

/// The bytes that stand for one character inside a JSON string literal.
pub open spec fn escape_char(c: char) -> Seq<u8> {
    let v = c as u32;
    if v == 0x22 {
        seq![0x5Cu8, 0x22u8]
    } else if v == 0x5C {
        seq![0x5Cu8, 0x5Cu8]
    } else if v == 0x0A {
        seq![0x5Cu8, 0x6Eu8]
    } else if v == 0x0D {
        seq![0x5Cu8, 0x72u8]
    } else if v == 0x09 {
        seq![0x5Cu8, 0x74u8]
    } else if v == 0x08 {
        seq![0x5Cu8, 0x62u8]
    } else if v == 0x0C {
        seq![0x5Cu8, 0x66u8]
    } else if is_control_char(c) {
        unicode_escape(v)
    } else {
        encode_scalar(v)
    }
}

/// The escaped bytes of a character sequence, character by character.
pub open spec fn escaped(chars: Seq<char>) -> Seq<u8>
    decreases chars.len(),
{
    if chars.len() == 0 {
        Seq::empty()
    } else {
        escape_char(chars[0]) + escaped(chars.drop_first())
    }
}

/// A JSON string literal: the escaped characters between double quotes.
pub open spec fn json_string(chars: Seq<char>) -> Seq<u8> {
    seq![0x22u8] + escaped(chars) + seq![0x22u8]
}

/// Escaping distributes over concatenation.
pub proof fn lemma_escaped_concat(a: Seq<char>, b: Seq<char>)
    ensures
        escaped(a + b) == escaped(a) + escaped(b),
    decreases a.len(),
{
    if a.len() == 0 {
        assert(a + b =~= b);
    } else {
        lemma_escaped_concat(a.drop_first(), b);
        assert((a + b).drop_first() =~= a.drop_first() + b);
        assert(escaped(a) + escaped(b) =~= escape_char(a[0]) + (escaped(a.drop_first()) + escaped(
            b,
        )));
    }
}

/// Escaping a prefix one longer appends the escape of the next character.
proof fn lemma_escaped_take_next(chars: Seq<char>, k: int)
    requires
        0 <= k < chars.len(),
    ensures
        escaped(chars.take(k + 1)) == escaped(chars.take(k)) + escape_char(chars[k]),
{
    let single = seq![chars[k]];
    assert(chars.take(k + 1) =~= chars.take(k) + single);
    lemma_escaped_concat(chars.take(k), single);
    assert(single.drop_first() =~= Seq::<char>::empty());
    assert(escaped(single.drop_first()) =~= Seq::<u8>::empty());
    assert(escaped(single) =~= escape_char(chars[k]) + Seq::<u8>::empty());
}

/// The lowercase hexadecimal digit of `n`, which must be below 16.
fn hex_digit_byte(n: u32) -> (b: u8)
    requires
        n < 16,
    ensures
        b == hex_digit(n),
{
    if n < 10 {
        (0x30 + n) as u8
    } else {
        (0x61 + n - 10) as u8
    }
}

/// Write a unicode escape sequence `\uXXXX` (lowercase hex).
pub fn write_unicode_escape(writer: &mut BinWriter, code_point: u32)
    ensures
        final(writer)@ == old(writer)@ + unicode_escape(code_point),
{
    assert(((code_point >> 12) & 0xF) < 16) by (bit_vector);
    assert(((code_point >> 8) & 0xF) < 16) by (bit_vector);
    assert(((code_point >> 4) & 0xF) < 16) by (bit_vector);
    assert((code_point & 0xF) < 16) by (bit_vector);
    writer.write_byte(0x5Cu8);
    writer.write_byte(0x75u8);
    writer.write_byte(hex_digit_byte((code_point >> 12) & 0xF));
    writer.write_byte(hex_digit_byte((code_point >> 8) & 0xF));
    writer.write_byte(hex_digit_byte((code_point >> 4) & 0xF));
    writer.write_byte(hex_digit_byte(code_point & 0xF));
    assert(final(writer)@ =~= old(writer)@ + unicode_escape(code_point));
}

/// Write a backslash followed by `b`.
fn write_short_escape(writer: &mut BinWriter, b: u8)
    ensures
        final(writer)@ == old(writer)@ + seq![0x5Cu8, b],
{
    writer.write_byte(0x5Cu8);
    writer.write_byte(b);
    assert(final(writer)@ =~= old(writer)@ + seq![0x5Cu8, b]);
}

/// Write the UTF-8 encoding of `c`.
fn write_char_utf8(writer: &mut BinWriter, c: char)
    ensures
        final(writer)@ == old(writer)@ + encode_scalar(c as u32),
{
    let v = c as u32;
    proof {
        vstd::utf8::char_is_scalar(c);
    }
    if v <= 0x7F {
        writer.write_byte((v & 0x7F) as u8);
    } else if v <= 0x7FF {
        writer.write_byte(0xC0u8 | ((v >> 6) & 0x1F) as u8);
        writer.write_byte(0x80u8 | (v & 0x3F) as u8);
    } else if v <= 0xFFFF {
        writer.write_byte(0xE0u8 | ((v >> 12) & 0x0F) as u8);
        writer.write_byte(0x80u8 | ((v >> 6) & 0x3F) as u8);
        writer.write_byte(0x80u8 | (v & 0x3F) as u8);
    } else {
        writer.write_byte(0xF0u8 | ((v >> 18) & 0x7) as u8);
        writer.write_byte(0x80u8 | ((v >> 12) & 0x3F) as u8);
        writer.write_byte(0x80u8 | ((v >> 6) & 0x3F) as u8);
        writer.write_byte(0x80u8 | (v & 0x3F) as u8);
    }
    assert(final(writer)@ =~= old(writer)@ + encode_scalar(c as u32));
}

/// The error of a serializer: what went wrong, with optional context.
#[derive(Debug, Clone, PartialEq, Eq)]
pub enum SerializeErrorKind {
    /// A value that the output format cannot represent.
    InvalidValue(&'static str),
    /// Nesting deeper than the serializer accepts.
    DepthLimit,
    /// Any other failure, with a static message.
    Message(&'static str),
}

/// A serialization error.
#[derive(Debug, Clone, PartialEq, Eq)]
pub struct SerializeError {
    /// What went wrong.
    pub kind: SerializeErrorKind,
    /// Optional short, human-readable context.
    pub context: Option<String>,
}

impl SerializeError {
    /// A value that the output format cannot represent.
    pub fn invalid_value(msg: &'static str) -> (e: Self)
        ensures
            e.kind == SerializeErrorKind::InvalidValue(msg),
            e.context is None,
    {
        SerializeError { kind: SerializeErrorKind::InvalidValue(msg), context: None }
    }

    /// Nesting deeper than the serializer accepts.
    pub fn depth_limit() -> (e: Self)
        ensures
            e.kind == SerializeErrorKind::DepthLimit,
            e.context is None,
    {
        SerializeError { kind: SerializeErrorKind::DepthLimit, context: None }
    }

    /// Any other failure.
    pub fn message(msg: &'static str) -> (e: Self)
        ensures
            e.kind == SerializeErrorKind::Message(msg),
            e.context is None,
    {
        SerializeError { kind: SerializeErrorKind::Message(msg), context: None }
    }

    /// Attach context to the error.
    pub fn with_context(self, ctx: String) -> (e: Self)
        ensures
            e.kind == self.kind,
            e.context == Some(ctx),
    {
        SerializeError { kind: self.kind, context: Some(ctx) }
    }
}

/// Serialize a string value with JSON escaping.
///
/// Escapes `"`, `\\`, newline, carriage return, tab, backspace and form feed
/// with their short forms, other control characters as `\uXXXX`, and writes
/// every other character as UTF-8. It never fails.
pub fn serialize_string(writer: &mut BinWriter, s: &str) -> (r: Result<(), SerializeError>)
    ensures
        r is Ok,
        final(writer)@ == old(writer)@ + json_string(s@),
{
    writer.write_byte(0x22u8);
    let ghost start = writer@;
    proof {
        broadcast use vstd::string::axiom_spec_iter;
    }
    for c in it: s.chars()
        invariant
            it.seq() == s@,
            writer@ == start + escaped(s@.take(it.index())),
    {
        proof {
            lemma_escaped_take_next(s@, it.index());
        }
        let ghost before = writer@;
        let v = c as u32;
        if v == 0x22 {
            write_short_escape(writer, 0x22u8);
        } else if v == 0x5C {
            write_short_escape(writer, 0x5Cu8);
        } else if v == 0x0A {
            write_short_escape(writer, 0x6Eu8);
        } else if v == 0x0D {
            write_short_escape(writer, 0x72u8);
        } else if v == 0x09 {
            write_short_escape(writer, 0x74u8);
        } else if v == 0x08 {
            write_short_escape(writer, 0x62u8);
        } else if v == 0x0C {
            write_short_escape(writer, 0x66u8);
        } else if v <= 0x1F || (0x7F <= v && v <= 0x9F) {
            write_unicode_escape(writer, v);
        } else {
            write_char_utf8(writer, c);
        }
        assert(writer@ == before + escape_char(c));
    }
    assert(s@.take(s@.len() as int) =~= s@);
    writer.write_byte(0x22u8);
    assert(writer@ =~= old(writer)@ + json_string(s@));
    Ok(())
}

} // verus!
