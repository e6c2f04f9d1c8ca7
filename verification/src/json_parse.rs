//! Primitive JSON parsing on a `BinInner`: strings, booleans and null.
use vstd::prelude::*;
use vstd::utf8::{decode_utf8, encode_scalar, valid_utf8};
use crate::bin_inner::{extends, BinInner};
use crate::parse_error::{error_at, reports, ErrorView, Outcome, ParseError, ParseErrorKind};
use crate::writer::string_from_utf8;
use crate::json_text::{escape_char, escaped, hex_digit, is_control_char, json_string, unicode_escape};
use vstd::utf8::{encode_utf8, has_width_1_encoding};

verus! {

/// What a primitive parser makes of the input from some position on: a value
/// and the position after it, or an error kind and the position it names.
pub enum Scan<T> {
    Done(T, int),
    Fail(ParseErrorKind, int),
}

/// The value of a hexadecimal digit (either case).
pub open spec fn hex_value(b: u8) -> Option<int> {
    if 0x30 <= b <= 0x39 {
        Some(b - 0x30)
    } else if 0x61 <= b <= 0x66 {
        Some(b - 0x61 + 10)
    } else if 0x41 <= b <= 0x46 {
        Some(b - 0x41 + 10)
    } else {
        None
    }
}

/// Reading the hexadecimal digits `k..4` of a `\uXXXX` escape whose digits
/// start at `start`, with `acc` the value of the digits before `k`.
///
/// A missing digit is `Incomplete` at `start`; a byte that is no hex digit is
/// an error just after that byte.
pub open spec fn hex_run(buf: Seq<u8>, start: int, k: int, acc: int) -> Scan<int>
    decreases 4 - k,
{
    if k >= 4 {
        Scan::Done(acc, start + 4)
    } else if start + k >= buf.len() {
        Scan::Fail(ParseErrorKind::Incomplete, start)
    } else {
        match hex_value(buf[start + k]) {
            None => Scan::Fail(
                ParseErrorKind::Message("Invalid hex digit in Unicode escape"),
                start + k + 1,
            ),
            Some(d) => hex_run(buf, start, k + 1, acc * 16 + d),
        }
    }
}

/// A successful hex run ends four bytes after its start, inside the buffer,
/// with a value below 0x10000.
pub proof fn lemma_hex_run_done(buf: Seq<u8>, start: int, k: int, acc: int)
    requires
        0 <= k <= 4,
        0 <= start,
        start + k <= buf.len(),
        0 <= acc < pow16(k),
    ensures
        hex_run(buf, start, k, acc) matches Scan::Done(v, next) ==> next == start + 4 && next
            <= buf.len() && 0 <= v < 0x10000,
        hex_run(buf, start, k, acc) matches Scan::Fail(_, at) ==> start <= at <= buf.len(),
    decreases 4 - k,
{
    if k < 4 && start + k < buf.len() {
        if let Some(d) = hex_value(buf[start + k]) {
            assert(acc * 16 + d < pow16(k + 1)) by (nonlinear_arith)
                requires
                    0 <= acc < pow16(k),
                    0 <= d < 16,
                    pow16(k + 1) == pow16(k) * 16,
            ;
            lemma_hex_run_done(buf, start, k + 1, acc * 16 + d);
        }
    }
}

/// Sixteen to the power `k`, for `k` in `0..=4`.
pub open spec fn pow16(k: int) -> int {
    if k <= 0 {
        1
    } else if k == 1 {
        16
    } else if k == 2 {
        256
    } else if k == 3 {
        4096
    } else {
        65536
    }
}

/// The byte that a one-letter escape `\e` stands for.
pub open spec fn simple_escape(e: u8) -> Option<u8> {
    if e == 0x22 {
        Some(0x22u8)
    } else if e == 0x5C {
        Some(0x5Cu8)
    } else if e == 0x2F {
        Some(0x2Fu8)
    } else if e == 0x62 {
        Some(0x08u8)
    } else if e == 0x66 {
        Some(0x0Cu8)
    } else if e == 0x6E {
        Some(0x0Au8)
    } else if e == 0x72 {
        Some(0x0Du8)
    } else if e == 0x74 {
        Some(0x09u8)
    } else {
        None
    }
}

/// A UTF-16 surrogate, which no `char` holds.
pub open spec fn is_surrogate(cp: int) -> bool {
    0xD800 <= cp <= 0xDFFF
}

/// Reading the body of a string literal from `i` on, having decoded `acc` so
/// far; `open` is the position of the opening quote.
///
/// Ends at the closing quote with the decoded bytes and the position after the
/// quote. Running out of input (also inside an escape, or among the hex
/// digits of `\u`) is `Incomplete` at `open`, so that the whole literal is
/// read again once more input arrives.
pub open spec fn scan_string_body(buf: Seq<u8>, i: int, acc: Seq<u8>, open: int) -> Scan<Seq<u8>>
    decreases buf.len() - i,
{
    if i < 0 || i >= buf.len() {
        Scan::Fail(ParseErrorKind::Incomplete, open)
    } else if buf[i] == 0x22 {
        Scan::Done(acc, i + 1)
    } else if buf[i] == 0x5C {
        if i + 1 >= buf.len() {
            Scan::Fail(ParseErrorKind::Incomplete, open)
        } else if let Some(x) = simple_escape(buf[i + 1]) {
            scan_string_body(buf, i + 2, acc.push(x), open)
        } else if buf[i + 1] == 0x75 {
            proof {
                lemma_hex_run_done(buf, i + 2, 0, 0);
            }
            match hex_run(buf, i + 2, 0, 0) {
                Scan::Fail(kind, at) => if kind is Incomplete {
                    Scan::Fail(ParseErrorKind::Incomplete, open)
                } else {
                    Scan::Fail(kind, at)
                },
                Scan::Done(cp, next) => {
                    if is_surrogate(cp) {
                        Scan::Fail(ParseErrorKind::Message("Invalid Unicode codepoint"), next)
                    } else {
                        scan_string_body(buf, next, acc + encode_scalar(cp as u32), open)
                    }
                },
            }
        } else {
            Scan::Fail(ParseErrorKind::Message("Invalid escape sequence"), i + 2)
        }
    } else {
        scan_string_body(buf, i + 1, acc.push(buf[i]), open)
    }
}

/// What `parse_string` makes of a string literal that opens at `open`: the
/// decoded text and the position after the closing quote, or an error.
///
/// Escapes are decoded to bytes, other bytes are kept as they are, and the
/// result must be valid UTF-8.
pub open spec fn string_literal(buf: Seq<u8>, open: int) -> Scan<Seq<char>> {
    match scan_string_body(buf, open + 1, Seq::empty(), open) {
        Scan::Done(content, end) => if valid_utf8(content) {
            Scan::Done(decode_utf8(content), end)
        } else {
            Scan::Fail(ParseErrorKind::InvalidEncoding("Invalid UTF-8 in string"), end)
        },
        Scan::Fail(kind, at) => Scan::Fail(kind, at),
    }
}

/// The value of a hex digit byte, if it is one.
fn hex_digit_value(b: u8) -> (r: Option<u32>)
    ensures
        match hex_value(b) {
            Some(d) => r == Some(d as u32),
            None => r is None,
        },
{
    if 0x30u8 <= b && b <= 0x39u8 {
        Some((b - 0x30u8) as u32)
    } else if 0x61u8 <= b && b <= 0x66u8 {
        Some((b - 0x61u8 + 10) as u32)
    } else if 0x41u8 <= b && b <= 0x46u8 {
        Some((b - 0x41u8 + 10) as u32)
    } else {
        None
    }
}

/// Parse the four hex digits of a `\uXXXX` escape at the read position.
///
/// On `Incomplete` the read position is restored to the first digit.
pub fn parse_unicode_escape(inner: &mut BinInner) -> (r: Result<u32, ParseError>)
    ensures
        final(inner)@.0 == old(inner)@.0,
        match hex_run(old(inner)@.0, old(inner)@.1, 0, 0) {
            Scan::Done(v, next) => r == Ok::<u32, ParseError>(v as u32) && final(inner)@.1
                == next,
            Scan::Fail(kind, at) => r == Err::<u32, ParseError>(error_at(kind, at))
                && final(inner)@.1 == at,
        },
{
    let start = inner.pos();
    let ghost buf = inner@.0;
    let mut codepoint: u32 = 0;
    let mut k: usize = 0;
    proof {
        lemma_hex_run_done(buf, start as int, 0, 0);
    }
    while k < 4
        invariant
            0 <= k <= 4,
            inner@.0 == buf,
            buf == old(inner)@.0,
            start == old(inner)@.1,
            start <= buf.len(),
            inner@.1 == start + k,
            codepoint < pow16(k as int),
            hex_run(buf, start as int, k as int, codepoint as int) == hex_run(
                buf,
                start as int,
                0,
                0,
            ),
        decreases 4 - k,
    {
        let b = match inner.next_byte() {
            Some(b) => b,
            None => {
                inner.set_pos(start);
                return Err(ParseError::new(ParseErrorKind::Incomplete, inner.pos()));
            },
        };
        let digit = match hex_digit_value(b) {
            Some(d) => d,
            None => {
                return Err(
                    ParseError::new(
                        ParseErrorKind::Message("Invalid hex digit in Unicode escape"),
                        inner.pos(),
                    ),
                );
            },
        };
        assert(codepoint * 16 + digit < pow16(k + 1)) by (nonlinear_arith)
            requires
                codepoint < pow16(k as int),
                digit < 16,
                pow16(k + 1) == pow16(k as int) * 16,
        ;
        codepoint = codepoint * 16 + digit;
        k = k + 1;
    }
    Ok(codepoint)
}

/// The byte that a one-letter escape `\e` stands for, if `e` is one.
fn simple_escape_byte(e: u8) -> (r: Option<u8>)
    ensures
        r == simple_escape(e),
{
    if e == 0x22u8 {
        Some(0x22u8)
    } else if e == 0x5Cu8 {
        Some(0x5Cu8)
    } else if e == 0x2Fu8 {
        Some(0x2Fu8)
    } else if e == 0x62u8 {
        Some(0x08u8)
    } else if e == 0x66u8 {
        Some(0x0Cu8)
    } else if e == 0x6Eu8 {
        Some(0x0Au8)
    } else if e == 0x72u8 {
        Some(0x0Du8)
    } else if e == 0x74u8 {
        Some(0x09u8)
    } else {
        None
    }
}

/// Append the UTF-8 encoding of the scalar value `v`.
pub fn push_scalar_utf8(bytes: &mut Vec<u8>, v: u32)
    requires
        vstd::utf8::is_scalar(v),
    ensures
        final(bytes)@ == old(bytes)@ + encode_scalar(v),
{
    if v <= 0x7F {
        bytes.push((v & 0x7F) as u8);
    } else if v <= 0x7FF {
        bytes.push(0xC0u8 | ((v >> 6) & 0x1F) as u8);
        bytes.push(0x80u8 | (v & 0x3F) as u8);
    } else if v <= 0xFFFF {
        bytes.push(0xE0u8 | ((v >> 12) & 0x0F) as u8);
        bytes.push(0x80u8 | ((v >> 6) & 0x3F) as u8);
        bytes.push(0x80u8 | (v & 0x3F) as u8);
    } else {
        bytes.push(0xF0u8 | ((v >> 18) & 0x7) as u8);
        bytes.push(0x80u8 | ((v >> 12) & 0x3F) as u8);
        bytes.push(0x80u8 | ((v >> 6) & 0x3F) as u8);
        bytes.push(0x80u8 | (v & 0x3F) as u8);
    }
    assert(final(bytes)@ =~= old(bytes)@ + encode_scalar(v));
}

/// Parse a JSON string literal at the read position, decoding its escapes.
///
/// The read position must hold `"`; else the error is at that position (the
/// byte is consumed). Running out of input, also inside an escape or among
/// the hex digits of `\u`, gives `Incomplete` at the opening quote with the
/// read position restored there, so that the literal is read again once more
/// input arrives.
pub fn parse_string(inner: &mut BinInner) -> (r: Result<String, ParseError>)
    ensures
        final(inner)@.0 == old(inner)@.0,
        ({
            let buf = old(inner)@.0;
            let p = old(inner)@.1;
            if p >= buf.len() {
                r == Err::<String, ParseError>(error_at(ParseErrorKind::Message("Expected '\"'"), p))
                    && final(inner)@.1 == p
            } else if buf[p] != 0x22 {
                r == Err::<String, ParseError>(error_at(ParseErrorKind::Message("Expected '\"'"), p))
                    && final(inner)@.1 == p + 1
            } else {
                match string_literal(buf, p) {
                    Scan::Done(text, end) => r matches Ok(s) && s@ == text && final(inner)@.1
                        == end,
                    Scan::Fail(kind, at) => r == Err::<String, ParseError>(error_at(kind, at))
                        && final(inner)@.1 == at,
                }
            }
        }),
{
    let pos = inner.pos();
    let ghost buf = inner@.0;
    match inner.next_byte() {
        Some(b) => {
            if b != 0x22u8 {
                return Err(ParseError::new(ParseErrorKind::Message("Expected '\"'"), pos));
            }
        },
        None => {
            return Err(ParseError::new(ParseErrorKind::Message("Expected '\"'"), pos));
        },
    }
    let mut bytes: Vec<u8> = Vec::new();
    loop
        invariant
            inner@.0 == buf,
            buf == old(inner)@.0,
            pos == old(inner)@.1,
            pos < buf.len(),
            buf[pos as int] == 0x22,
            pos + 1 <= inner@.1 <= buf.len(),
            scan_string_body(buf, inner@.1, bytes@, pos as int) == scan_string_body(
                buf,
                pos + 1,
                Seq::empty(),
                pos as int,
            ),
        decreases buf.len() - inner@.1,
    {
        let ghost i = inner@.1;
        match inner.next_byte() {
            None => {
                inner.set_pos(pos);
                return Err(ParseError::new(ParseErrorKind::Incomplete, inner.pos()));
            },
            Some(b) => {
                if b == 0x22u8 {
                    return match string_from_utf8(bytes) {
                        Ok(s) => Ok(s),
                        Err(_) => Err(
                            ParseError::new(
                                ParseErrorKind::InvalidEncoding("Invalid UTF-8 in string"),
                                inner.pos(),
                            ),
                        ),
                    };
                } else if b == 0x5Cu8 {
                    match inner.next_byte() {
                        None => {
                            inner.set_pos(pos);
                            return Err(ParseError::new(ParseErrorKind::Incomplete, inner.pos()));
                        },
                        Some(e) => {
                            match simple_escape_byte(e) {
                                Some(x) => {
                                    bytes.push(x);
                                },
                                None => {
                                    if e == 0x75u8 {
                                        proof {
                                            lemma_hex_run_done(buf, i + 2, 0, 0);
                                        }
                                        let cp = match parse_unicode_escape(inner) {
                                            Ok(cp) => cp,
                                            Err(err) => {
                                                if let ParseErrorKind::Incomplete = err.kind {
                                                    inner.set_pos(pos);
                                                    return Err(
                                                        ParseError::new(
                                                            ParseErrorKind::Incomplete,
                                                            pos,
                                                        ),
                                                    );
                                                }
                                                return Err(err);
                                            },
                                        };
                                        if 0xD800u32 <= cp && cp <= 0xDFFFu32 {
                                            return Err(
                                                ParseError::new(
                                                    ParseErrorKind::Message(
                                                        "Invalid Unicode codepoint",
                                                    ),
                                                    inner.pos(),
                                                ),
                                            );
                                        }
                                        push_scalar_utf8(&mut bytes, cp);
                                    } else {
                                        return Err(
                                            ParseError::new(
                                                ParseErrorKind::Message("Invalid escape sequence"),
                                                inner.pos(),
                                            ),
                                        );
                                    }
                                },
                            }
                        },
                    }
                } else {
                    bytes.push(b);
                }
            },
        }
    }
}

/// Reading a hex digit back gives its value.
proof fn lemma_hex_digit_value(n: u32)
    requires
        n < 16,
    ensures
        hex_value(hex_digit(n)) == Some(n as int),
{
}

/// The four hex digits that `unicode_escape` writes read back as the value.
proof fn lemma_hex_run_unicode_escape(buf: Seq<u8>, j: int, v: u32)
    requires
        v < 0x10000,
        0 <= j,
        j + 4 <= buf.len(),
        buf.subrange(j, j + 4) == unicode_escape(v).subrange(2, 6),
    ensures
        hex_run(buf, j, 0, 0) == Scan::<int>::Done(v as int, j + 4),
{
    let d3 = (v >> 12) & 0xF;
    let d2 = (v >> 8) & 0xF;
    let d1 = (v >> 4) & 0xF;
    let d0 = v & 0xF;
    assert(d3 < 16 && d2 < 16 && d1 < 16 && d0 < 16) by (bit_vector)
        requires
            d3 == (v >> 12) & 0xF,
            d2 == (v >> 8) & 0xF,
            d1 == (v >> 4) & 0xF,
            d0 == v & 0xF,
    ;
    assert(d3 * 4096 + d2 * 256 + d1 * 16 + d0 == v) by (bit_vector)
        requires
            v < 0x10000,
            d3 == (v >> 12) & 0xF,
            d2 == (v >> 8) & 0xF,
            d1 == (v >> 4) & 0xF,
            d0 == v & 0xF,
    ;
    lemma_hex_digit_value(d3);
    lemma_hex_digit_value(d2);
    lemma_hex_digit_value(d1);
    lemma_hex_digit_value(d0);
    let e = unicode_escape(v);
    assert(buf[j] == buf.subrange(j, j + 4)[0]);
    assert(buf[j + 1] == buf.subrange(j, j + 4)[1]);
    assert(buf[j + 2] == buf.subrange(j, j + 4)[2]);
    assert(buf[j + 3] == buf.subrange(j, j + 4)[3]);
    assert(e.subrange(2, 6)[0] == e[2]);
    assert(e.subrange(2, 6)[1] == e[3]);
    assert(e.subrange(2, 6)[2] == e[4]);
    assert(e.subrange(2, 6)[3] == e[5]);
    assert(buf[j] == hex_digit(d3));
    assert(buf[j + 1] == hex_digit(d2));
    assert(buf[j + 2] == hex_digit(d1));
    assert(buf[j + 3] == hex_digit(d0));
    reveal_with_fuel(hex_run, 5);
}

/// The bytes of a multi-byte UTF-8 encoding are all at least 0x80.
proof fn lemma_encode_scalar_high(v: u32)
    requires
        vstd::utf8::is_scalar(v),
        !has_width_1_encoding(v),
    ensures
        forall|k: int| 0 <= k < encode_scalar(v).len() ==> #[trigger] encode_scalar(v)[k] >= 0x80,
{
    let a = 0xC0u8 | ((v >> 6) & 0x1F) as u8;
    let b = 0xE0u8 | ((v >> 12) & 0x0F) as u8;
    let c = 0xF0u8 | ((v >> 18) & 0x7) as u8;
    let d = 0x80u8 | (v & 0x3F) as u8;
    let e = 0x80u8 | ((v >> 6) & 0x3F) as u8;
    let f = 0x80u8 | ((v >> 12) & 0x3F) as u8;
    assert(a >= 0x80 && b >= 0x80 && c >= 0x80 && d >= 0x80 && e >= 0x80 && f >= 0x80)
        by (bit_vector)
        requires
            a == 0xC0u8 | ((v >> 6) & 0x1F) as u8,
            b == 0xE0u8 | ((v >> 12) & 0x0F) as u8,
            c == 0xF0u8 | ((v >> 18) & 0x7) as u8,
            d == 0x80u8 | (v & 0x3F) as u8,
            e == 0x80u8 | ((v >> 6) & 0x3F) as u8,
            f == 0x80u8 | ((v >> 12) & 0x3F) as u8,
    ;
}

/// Reading bytes that are neither a quote nor a backslash copies them.
proof fn lemma_scan_plain(buf: Seq<u8>, i: int, acc: Seq<u8>, open: int, run: Seq<u8>)
    requires
        0 <= i,
        i + run.len() <= buf.len(),
        buf.subrange(i, i + run.len()) == run,
        forall|k: int| 0 <= k < run.len() ==> #[trigger] run[k] != 0x22 && run[k] != 0x5C,
    ensures
        scan_string_body(buf, i, acc, open) == scan_string_body(buf, i + run.len(), acc + run, open),
    decreases run.len(),
{
    if run.len() == 0 {
        assert(acc + run =~= acc);
    } else {
        assert(buf[i] == run[0]);
        let rest = run.drop_first();
        assert(buf.subrange(i + 1, i + 1 + rest.len()) =~= rest);
        lemma_scan_plain(buf, i + 1, acc.push(run[0]), open, rest);
        assert(acc.push(run[0]) + rest =~= acc + run);
    }
}

/// Reading the escape of one character decodes that character's UTF-8 bytes.
proof fn lemma_scan_escape_char(buf: Seq<u8>, i: int, acc: Seq<u8>, open: int, c: char)
    requires
        0 <= i,
        i + escape_char(c).len() <= buf.len(),
        buf.subrange(i, i + escape_char(c).len()) == escape_char(c),
    ensures
        scan_string_body(buf, i, acc, open) == scan_string_body(
            buf,
            i + escape_char(c).len(),
            acc + encode_scalar(c as u32),
            open,
        ),
{
    let v = c as u32;
    let esc = escape_char(c);
    vstd::utf8::char_is_scalar(c);
    if v == 0x22 || v == 0x5C || v == 0x0A || v == 0x0D || v == 0x09 || v == 0x08 || v == 0x0C {
        assert(buf[i] == buf.subrange(i, i + 2)[0]);
        assert(buf[i + 1] == buf.subrange(i, i + 2)[1]);
        assert(buf[i] == 0x5C);
        assert(buf[i + 1] == esc[1]);
        assert((v & 0x7F) as u8 == v) by (bit_vector)
            requires
                v <= 0x7F,
        ;
        assert(encode_scalar(v) =~= seq![v as u8]);
        assert(acc.push(v as u8) =~= acc + encode_scalar(v));
    } else if is_control_char(c) {
        assert(buf[i] == 0x5C);
        assert(buf[i] == buf.subrange(i, i + 6)[0]);
        assert(buf[i + 1] == buf.subrange(i, i + 6)[1]);
        assert(buf[i + 1] == 0x75);
        assert(buf.subrange(i + 2, i + 6) =~= esc.subrange(2, 6)) by {
            assert(buf.subrange(i + 2, i + 6) =~= buf.subrange(i, i + 6).subrange(2, 6));
        }
        lemma_hex_run_unicode_escape(buf, i + 2, v);
        assert(v as int as u32 == v);
    } else {
        if has_width_1_encoding(v) {
            assert((v & 0x7F) as u8 == v) by (bit_vector)
                requires
                    v <= 0x7F,
            ;
            assert(esc =~= seq![v as u8]);
        } else {
            lemma_encode_scalar_high(v);
        }
        lemma_scan_plain(buf, i, acc, open, esc);
    }
}

/// Reading the escaped form of `t` followed by a quote ends there with the
/// UTF-8 bytes of `t`.
proof fn lemma_scan_escaped(buf: Seq<u8>, i: int, acc: Seq<u8>, open: int, t: Seq<char>)
    requires
        0 <= i,
        i + escaped(t).len() + 1 <= buf.len(),
        buf.subrange(i, i + escaped(t).len()) == escaped(t),
        buf[i + escaped(t).len()] == 0x22,
    ensures
        scan_string_body(buf, i, acc, open) == Scan::Done(
            acc + encode_utf8(t),
            i + escaped(t).len() + 1,
        ),
    decreases t.len(),
{
    if t.len() == 0 {
        assert(acc + encode_utf8(t) =~= acc);
    } else {
        let c = t[0];
        let rest = t.drop_first();
        let n: int = escape_char(c).len() as int;
        assert(escaped(t) == escape_char(c) + escaped(rest));
        assert(buf.subrange(i, i + n) =~= escape_char(c)) by {
            assert(buf.subrange(i, i + n) =~= buf.subrange(i, i + escaped(t).len()).subrange(0, n));
        }
        lemma_scan_escape_char(buf, i, acc, open, c);
        assert(buf.subrange(i + n, i + n + escaped(rest).len()) =~= escaped(rest)) by {
            assert(buf.subrange(i + n, i + n + escaped(rest).len()) =~= buf.subrange(
                i,
                i + escaped(t).len(),
            ).subrange(n, escaped(t).len() as int));
        }
        lemma_scan_escaped(buf, i + n, acc + encode_scalar(c as u32), open, rest);
        assert(acc + encode_scalar(c as u32) + encode_utf8(rest) =~= acc + encode_utf8(t));
    }
}

/// Parsing a serialized string literal gives back the string, and stops
/// right after the literal, whatever follows it.
pub proof fn law_parse_string_inverts_serialize_string(s: Seq<char>, buf: Seq<u8>, p: int)
    requires
        0 <= p,
        p + json_string(s).len() <= buf.len(),
        buf.subrange(p, p + json_string(s).len()) == json_string(s),
    ensures
        string_literal(buf, p) == Scan::Done(s, p + json_string(s).len()),
{
    let lit = json_string(s);
    let n: int = escaped(s).len() as int;
    assert(lit.len() == n + 2);
    assert(buf[p] == buf.subrange(p, p + lit.len())[0]);
    assert(buf[p] == 0x22);
    assert(buf.subrange(p + 1, p + 1 + n) =~= escaped(s)) by {
        assert(buf.subrange(p + 1, p + 1 + n) =~= buf.subrange(p, p + lit.len()).subrange(1, 1 + n));
    }
    assert(buf[p + 1 + n] == buf.subrange(p, p + lit.len())[n + 1]);
    assert(buf[p + 1 + n] == lit[n + 1]);
    lemma_scan_escaped(buf, p + 1, Seq::empty(), p, s);
    assert(Seq::<u8>::empty() + encode_utf8(s) =~= encode_utf8(s));
    vstd::utf8::encode_utf8_valid_utf8(s);
    vstd::utf8::encode_utf8_decode_utf8(s);
}

/// The tokens that `parse_boolean` accepts.
fn boolean_tokens() -> (t: &'static [&'static str])
    ensures
        t@ == seq!["true", "false"],
{
    &["true", "false"]
}

/// Whether `lit` occurs in `buf` at `p`.
fn occurs_at(buf: &[u8], p: usize, lit: &[u8]) -> (r: bool)
    ensures
        r == (p + lit@.len() <= buf@.len() && buf@.subrange(p as int, p + lit@.len()) == lit@),
{
    if lit.len() > buf.len() || p > buf.len() - lit.len() {
        return false;
    }
    let mut k: usize = 0;
    while k < lit.len()
        invariant
            p + lit@.len() <= buf@.len(),
            buf@.len() <= usize::MAX,
            0 <= k <= lit@.len(),
            forall|j: int| 0 <= j < k ==> buf@[p + j] == lit@[j],
        decreases lit@.len() - k,
    {
        if buf[p + k] != lit[k] {
            assert(buf@.subrange(p as int, p + lit@.len())[k as int] != lit@[k as int]);
            return false;
        }
        k = k + 1;
    }
    assert(buf@.subrange(p as int, p + lit@.len()) =~= lit@);
    true
}


/// What `String::from_utf8_lossy` makes of some bytes: their text, with each
/// invalid sequence replaced by U+FFFD.
pub uninterp spec fn lossy_text(bytes: Seq<u8>) -> Seq<char>;

/// Decode bytes as UTF-8, replacing invalid sequences.
///
/// Trusted: calls `String::from_utf8_lossy`. The result is named
/// `lossy_text` of the bytes; std documents that valid UTF-8 is decoded as
/// it is. How invalid sequences are replaced is not stated here.
#[verifier::external_body]
fn string_from_utf8_lossy(bytes: &[u8]) -> (s: String)
    ensures
        s@ == lossy_text(bytes@),
        valid_utf8(bytes@) ==> s@ == decode_utf8(bytes@),
{
    String::from_utf8_lossy(bytes).into_owned()
}

/// A copy of `buf[from..to]`.
fn copy_range(buf: &[u8], from: usize, to: usize) -> (v: Vec<u8>)
    requires
        from <= to <= buf@.len(),
    ensures
        v@ == buf@.subrange(from as int, to as int),
{
    let mut v: Vec<u8> = Vec::new();
    let mut k: usize = from;
    while k < to
        invariant
            from <= k <= to <= buf@.len(),
            v@ == buf@.subrange(from as int, k as int),
        decreases to - k,
    {
        v.push(buf[k]);
        k = k + 1;
        assert(v@ =~= buf@.subrange(from as int, k as int));
    }
    v
}

/// The bytes of `true`.
pub open spec fn true_bytes() -> Seq<u8> {
    seq![0x74u8, 0x72u8, 0x75u8, 0x65u8]
}

/// The bytes of `false`.
pub open spec fn false_bytes() -> Seq<u8> {
    seq![0x66u8, 0x61u8, 0x6Cu8, 0x73u8, 0x65u8]
}

/// The bytes of `null`.
pub open spec fn null_bytes() -> Seq<u8> {
    seq![0x6Eu8, 0x75u8, 0x6Cu8, 0x6Cu8]
}

/// The bytes of `none`, accepted as a synonym of `null`.
pub open spec fn none_bytes() -> Seq<u8> {
    seq![0x6Eu8, 0x6Fu8, 0x6Eu8, 0x65u8]
}

/// What `parse_boolean` makes of the input at `p`.
pub open spec fn boolean_literal(buf: Seq<u8>, p: int) -> Outcome<bool> {
    if p + 4 > buf.len() {
        Outcome::Failed(ErrorView::Incomplete, p)
    } else if buf.subrange(p, p + 4) == true_bytes() {
        Outcome::Parsed(true, p + 4)
    } else if p + 5 > buf.len() {
        Outcome::Failed(ErrorView::Incomplete, p)
    } else if buf.subrange(p, p + 5) == false_bytes() {
        Outcome::Parsed(false, p + 5)
    } else {
        Outcome::Failed(
            ErrorView::UnexpectedToken {
                found: lossy_text(buf.subrange(p, p + 5)),
                expected: seq!["true", "false"],
            },
            p,
        )
    }
}

/// What `parse_null` makes of the input at `p`.
pub open spec fn null_literal(buf: Seq<u8>, p: int) -> Outcome<()> {
    if p + 4 > buf.len() {
        Outcome::Failed(ErrorView::Incomplete, p)
    } else if buf.subrange(p, p + 4) == null_bytes() || buf.subrange(p, p + 4) == none_bytes() {
        Outcome::Parsed((), p + 4)
    } else {
        Outcome::Failed(
            ErrorView::UnexpectedToken {
                found: lossy_text(buf.subrange(p, p + 4)),
                expected: seq!["null", "none"],
            },
            p,
        )
    }
}

/// The tokens that `parse_null` accepts.
fn null_tokens() -> (t: &'static [&'static str])
    ensures
        t@ == seq!["null", "none"],
{
    &["null", "none"]
}

/// Parse a JSON boolean (`true` or `false`) at the read position.
///
/// With fewer than 4 bytes left, or fewer than 5 when the input is not
/// `true`, the result is `Incomplete` and the position is unchanged.
pub fn parse_boolean(inner: &mut BinInner) -> (r: Result<bool, ParseError>)
    ensures
        final(inner)@.0 == old(inner)@.0,
        match boolean_literal(old(inner)@.0, old(inner)@.1) {
            Outcome::Parsed(v, next) => r == Ok::<bool, ParseError>(v) && final(inner)@.1 == next,
            Outcome::Failed(kind, at) => r matches Err(e) && reports(e, kind, at)
                && final(inner)@.1 == at,
        },
{
    let pos = inner.pos();
    let len = inner.buffer().len();
    let remaining = len - pos;
    if remaining < 4 {
        inner.set_pos(pos);
        return Err(ParseError::new(ParseErrorKind::Incomplete, pos));
    }
    if occurs_at(inner.buffer(), pos, &[0x74u8, 0x72u8, 0x75u8, 0x65u8]) {
        inner.set_pos(pos + 4);
        return Ok(true);
    }
    if remaining < 5 {
        inner.set_pos(pos);
        return Err(ParseError::new(ParseErrorKind::Incomplete, pos));
    }
    if occurs_at(inner.buffer(), pos, &[0x66u8, 0x61u8, 0x6Cu8, 0x73u8, 0x65u8]) {
        inner.set_pos(pos + 5);
        return Ok(false);
    }
    let seen = copy_range(inner.buffer(), pos, pos + 5);
    let found = string_from_utf8_lossy(seen.as_slice());
    Err(
        ParseError::new(
            ParseErrorKind::UnexpectedToken { found, expected: boolean_tokens() },
            pos,
        ),
    )
}

/// Parse `null` (or its synonym `none`) at the read position.
///
/// With fewer than 4 bytes left the result is `Incomplete` and the position
/// is unchanged.
pub fn parse_null(inner: &mut BinInner) -> (r: Result<(), ParseError>)
    ensures
        final(inner)@.0 == old(inner)@.0,
        match null_literal(old(inner)@.0, old(inner)@.1) {
            Outcome::Parsed(v, next) => r == Ok::<(), ParseError>(v) && final(inner)@.1 == next,
            Outcome::Failed(kind, at) => r matches Err(e) && reports(e, kind, at)
                && final(inner)@.1 == at,
        },
{
    let pos = inner.pos();
    let len = inner.buffer().len();
    if len - pos < 4 {
        inner.set_pos(pos);
        return Err(ParseError::new(ParseErrorKind::Incomplete, pos));
    }
    if occurs_at(inner.buffer(), pos, &[0x6Eu8, 0x75u8, 0x6Cu8, 0x6Cu8]) {
        inner.set_pos(pos + 4);
        return Ok(());
    }
    if occurs_at(inner.buffer(), pos, &[0x6Eu8, 0x6Fu8, 0x6Eu8, 0x65u8]) {
        inner.set_pos(pos + 4);
        return Ok(());
    }
    let seen = copy_range(inner.buffer(), pos, pos + 4);
    let found = string_from_utf8_lossy(seen.as_slice());
    Err(
        ParseError::new(ParseErrorKind::UnexpectedToken { found, expected: null_tokens() }, pos),
    )
}

/// A number literal as the parser scanned it: the sign, the digits before
/// and after the point, and the exponent if one had digits. Turning it into a
/// float is left to the caller.
#[derive(Debug, Clone, PartialEq, Eq)]
pub struct NumberParts {
    /// A leading `-`.
    pub negative: bool,
    /// The ASCII digits before the point.
    pub int_digits: Vec<u8>,
    /// The ASCII digits after the point.
    pub frac_digits: Vec<u8>,
    /// The signed exponent (saturated to the `i32` range), when the exponent
    /// part has digits.
    pub exponent: Option<i32>,
}

/// The mathematical value of `NumberParts`.
pub struct NumberView {
    pub negative: bool,
    pub int_digits: Seq<u8>,
    pub frac_digits: Seq<u8>,
    pub exponent: Option<i32>,
}

impl View for NumberParts {
    type V = NumberView;

    open spec fn view(&self) -> NumberView {
        NumberView {
            negative: self.negative,
            int_digits: self.int_digits@,
            frac_digits: self.frac_digits@,
            exponent: self.exponent,
        }
    }
}

/// An ASCII decimal digit.
pub open spec fn is_digit_byte(b: u8) -> bool {
    0x30 <= b <= 0x39
}

/// The end of the run of digits from `i` on.
pub open spec fn digit_run_end(buf: Seq<u8>, i: int) -> int
    decreases buf.len() - i,
{
    if 0 <= i < buf.len() && is_digit_byte(buf[i]) {
        digit_run_end(buf, i + 1)
    } else {
        i
    }
}

/// One step of reading a decimal exponent, saturating at `i32::MAX`.
pub open spec fn saturating_digit_step(acc: int, d: int) -> int {
    if acc * 10 + d > i32::MAX {
        i32::MAX as int
    } else {
        acc * 10 + d
    }
}

/// The value of decimal digits read left to right with saturation.
pub open spec fn saturating_decimal(digits: Seq<u8>) -> int
    decreases digits.len(),
{
    if digits.len() == 0 {
        0
    } else {
        saturating_digit_step(saturating_decimal(digits.drop_last()), digits.last() - 0x30)
    }
}

/// A byte that ends a number: whitespace, `,`, `]` or `}`.
pub open spec fn is_number_delimiter(b: u8) -> bool {
    b == 0x20 || b == 0x09 || b == 0x0D || b == 0x0A || b == 0x2C || b == 0x5D || b == 0x7D
}

/// What `parse_number` makes of the input at `start`: the parts and the
/// position after them, or `Incomplete` / `InvalidNumber` at `start`.
///
/// Grammar: an optional sign, at least one digit, optionally `.` and digits,
/// optionally `e`/`E`, an optional sign and digits; then a delimiter or the
/// end of input. Without `eof`, reaching the end of the buffer (also right
/// after the sign) means more digits may follow: `Incomplete`.
pub open spec fn number_literal(buf: Seq<u8>, start: int, eof: bool) -> Scan<NumberView> {
    if start < 0 || start >= buf.len() {
        Scan::Fail(ParseErrorKind::Incomplete, start)
    } else {
        let signed = buf[start] == 0x2B || buf[start] == 0x2D;
        let i = if signed { start + 1 } else { start };
        if signed && i >= buf.len() && !eof {
            Scan::Fail(ParseErrorKind::Incomplete, start)
        } else {
            let j = digit_run_end(buf, i);
            if j == i {
                Scan::Fail(ParseErrorKind::InvalidNumber, start)
            } else {
                let has_frac = j < buf.len() && buf[j] == 0x2E;
                let k = if has_frac { digit_run_end(buf, j + 1) } else { j };
                let frac = if has_frac { buf.subrange(j + 1, k) } else { Seq::empty() };
                let has_exp = k < buf.len() && (buf[k] == 0x65 || buf[k] == 0x45);
                let es = k + 1;
                let exp_signed = has_exp && es < buf.len() && (buf[es] == 0x2B || buf[es] == 0x2D);
                let ed = if exp_signed { es + 1 } else { es };
                let m = if has_exp { digit_run_end(buf, ed) } else { k };
                let exponent = if has_exp && m > ed {
                    let v = saturating_decimal(buf.subrange(ed, m));
                    Some((if exp_signed && buf[es] == 0x2D { -v } else { v }) as i32)
                } else {
                    None
                };
                if m == buf.len() && !eof {
                    Scan::Fail(ParseErrorKind::Incomplete, start)
                } else if m < buf.len() && !is_number_delimiter(buf[m]) {
                    Scan::Fail(ParseErrorKind::InvalidNumber, start)
                } else {
                    Scan::Done(
                        NumberView {
                            negative: signed && buf[start] == 0x2D,
                            int_digits: buf.subrange(i, j),
                            frac_digits: frac,
                            exponent,
                        },
                        m,
                    )
                }
            }
        }
    }
}

/// A digit run from `i` on stays inside the buffer and does not move back.
pub proof fn lemma_digit_run_bounds(buf: Seq<u8>, i: int)
    requires
        0 <= i <= buf.len(),
    ensures
        i <= digit_run_end(buf, i) <= buf.len(),
        forall|k: int| i <= k < digit_run_end(buf, i) ==> is_digit_byte(#[trigger] buf[k]),
        digit_run_end(buf, i) < buf.len() ==> !is_digit_byte(buf[digit_run_end(buf, i)]),
    decreases buf.len() - i,
{
    if i < buf.len() && is_digit_byte(buf[i]) {
        lemma_digit_run_bounds(buf, i + 1);
    }
}

/// Scan the digit run from `i` on, copying it.
fn scan_digits(buf: &[u8], i: usize) -> (r: (usize, Vec<u8>))
    requires
        i <= buf@.len(),
    ensures
        r.0 == digit_run_end(buf@, i as int),
        r.1@ == buf@.subrange(i as int, r.0 as int),
{
    let mut j = i;
    let mut digits: Vec<u8> = Vec::new();
    while j < buf.len() && 0x30u8 <= buf[j] && buf[j] <= 0x39u8
        invariant
            i <= j <= buf@.len(),
            digit_run_end(buf@, j as int) == digit_run_end(buf@, i as int),
            digits@ == buf@.subrange(i as int, j as int),
        decreases buf@.len() - j,
    {
        digits.push(buf[j]);
        j = j + 1;
        assert(digits@ =~= buf@.subrange(i as int, j as int));
    }
    (j, digits)
}

/// The saturated value of a run of ASCII digits.
fn saturating_value(digits: &Vec<u8>) -> (v: i32)
    requires
        forall|k: int| 0 <= k < digits@.len() ==> is_digit_byte(#[trigger] digits@[k]),
    ensures
        v as int == saturating_decimal(digits@),
        0 <= v,
{
    let mut v: i32 = 0;
    let mut k: usize = 0;
    assert(digits@.take(0) =~= Seq::<u8>::empty());
    while k < digits.len()
        invariant
            0 <= k <= digits@.len(),
            forall|j: int| 0 <= j < digits@.len() ==> is_digit_byte(#[trigger] digits@[j]),
            0 <= v,
            v as int == saturating_decimal(digits@.take(k as int)),
        decreases digits@.len() - k,
    {
        let d = (digits[k] - 0x30u8) as i64;
        let t = (v as i64) * 10 + d;
        v = if t > 0x7fff_ffffi64 { 0x7fff_ffffi32 } else { t as i32 };
        proof {
            assert(digits@.take(k + 1).drop_last() =~= digits@.take(k as int));
        }
        k = k + 1;
    }
    assert(digits@.take(digits@.len() as int) =~= digits@);
    v
}

/// Scan a number literal at the read position (see `number_literal`).
///
/// On success the read position moves past the literal; on any error it is
/// left at the start.
pub fn parse_number(inner: &mut BinInner, eof: bool) -> (r: Result<NumberParts, ParseError>)
    ensures
        final(inner)@.0 == old(inner)@.0,
        match number_literal(old(inner)@.0, old(inner)@.1, eof) {
            Scan::Done(v, next) => r matches Ok(parts) && parts@ == v && final(inner)@.1 == next,
            Scan::Fail(kind, at) => r == Err::<NumberParts, ParseError>(error_at(kind, at))
                && final(inner)@.1 == at,
        },
{
    let start = inner.pos();
    let bytes = inner.buffer();
    let len = bytes.len();
    let mut i = start;
    if i >= len {
        inner.set_pos(start);
        return Err(ParseError::new(ParseErrorKind::Incomplete, start));
    }
    let mut negative = false;
    if bytes[i] == 0x2Bu8 || bytes[i] == 0x2Du8 {
        if bytes[i] == 0x2Du8 {
            negative = true;
        }
        i = i + 1;
        if i >= len && !eof {
            inner.set_pos(start);
            return Err(ParseError::new(ParseErrorKind::Incomplete, start));
        }
    }
    let (j, int_digits) = scan_digits(bytes, i);
    if j == i {
        return Err(ParseError::new(ParseErrorKind::InvalidNumber, start));
    }
    proof {
        lemma_digit_run_bounds(bytes@, i as int);
    }
    i = j;
    let mut frac_digits: Vec<u8> = Vec::new();
    if i < len && bytes[i] == 0x2Eu8 {
        let (k, f) = scan_digits(bytes, i + 1);
        proof {
            lemma_digit_run_bounds(bytes@, i + 1);
        }
        frac_digits = f;
        i = k;
    }
    let ghost k = i as int;
    let mut exponent: Option<i32> = None;
    if i < len && (bytes[i] == 0x65u8 || bytes[i] == 0x45u8) {
        i = i + 1;
        let mut exp_negative = false;
        if i < len && (bytes[i] == 0x2Bu8 || bytes[i] == 0x2Du8) {
            if bytes[i] == 0x2Du8 {
                exp_negative = true;
            }
            i = i + 1;
        }
        let (m, exp_digits) = scan_digits(bytes, i);
        proof {
            lemma_digit_run_bounds(bytes@, i as int);
        }
        if m > i {
            let v = saturating_value(&exp_digits);
            exponent = Some(if exp_negative { -v } else { v });
        }
        i = m;
    }
    if i == len && !eof {
        inner.set_pos(start);
        return Err(ParseError::new(ParseErrorKind::Incomplete, start));
    }
    if i < len {
        let b = bytes[i];
        let is_delim = b == 0x20u8 || b == 0x09u8 || b == 0x0Du8 || b == 0x0Au8 || b == 0x2Cu8
            || b == 0x5Du8 || b == 0x7Du8;
        if !is_delim {
            return Err(ParseError::new(ParseErrorKind::InvalidNumber, start));
        }
    }
    inner.set_pos(i);
    Ok(NumberParts { negative, int_digits, frac_digits, exponent })
}

/// A string body that ends does so after its start, inside the buffer.
pub proof fn lemma_scan_string_body_bounds(buf: Seq<u8>, i: int, acc: Seq<u8>, open: int)
    requires
        0 <= i,
    ensures
        scan_string_body(buf, i, acc, open) matches Scan::Done(_, end) ==> i < end <= buf.len(),
        scan_string_body(buf, i, acc, open) matches Scan::Fail(_, at) ==> at == open || (i <= at
            && at <= buf.len()),
    decreases buf.len() - i,
{
    if 0 <= i < buf.len() && buf[i] != 0x22 {
        if buf[i] == 0x5C {
            if i + 1 < buf.len() {
                if let Some(x) = simple_escape(buf[i + 1]) {
                    lemma_scan_string_body_bounds(buf, i + 2, acc.push(x), open);
                } else if buf[i + 1] == 0x75 {
                    lemma_hex_run_done(buf, i + 2, 0, 0);
                    if let Scan::Done(cp, next) = hex_run(buf, i + 2, 0, 0) {
                        if !is_surrogate(cp) {
                            lemma_scan_string_body_bounds(
                                buf,
                                next,
                                acc + encode_scalar(cp as u32),
                                open,
                            );
                        }
                    }
                }
            }
        } else {
            lemma_scan_string_body_bounds(buf, i + 1, acc.push(buf[i]), open);
        }
    }
}

/// A string literal that parses ends after its opening quote, inside the
/// buffer.
pub proof fn lemma_string_literal_bounds(buf: Seq<u8>, open: int)
    requires
        0 <= open,
    ensures
        string_literal(buf, open) matches Scan::Done(_, end) ==> open + 1 < end <= buf.len(),
        string_literal(buf, open) matches Scan::Fail(_, at) ==> at == open || (open < at
            && at <= buf.len()),
{
    lemma_scan_string_body_bounds(buf, open + 1, Seq::empty(), open);
}

/// A number literal that parses ends after its start, inside the buffer.
pub proof fn lemma_number_literal_bounds(buf: Seq<u8>, start: int, eof: bool)
    requires
        0 <= start <= buf.len(),
    ensures
        number_literal(buf, start, eof) matches Scan::Done(_, end) ==> start < end <= buf.len(),
{
    if start < buf.len() {
        let signed = buf[start] == 0x2B || buf[start] == 0x2D;
        let i = if signed { start + 1 } else { start };
        if i <= buf.len() {
            lemma_digit_run_bounds(buf, i);
            let j = digit_run_end(buf, i);
            if j < buf.len() && buf[j] == 0x2E {
                lemma_digit_run_bounds(buf, j + 1);
            }
            let k = if j < buf.len() && buf[j] == 0x2E { digit_run_end(buf, j + 1) } else { j };
            let es = k + 1;
            if k < buf.len() {
                if es < buf.len() && (buf[es] == 0x2B || buf[es] == 0x2D) {
                    lemma_digit_run_bounds(buf, es + 1);
                } else {
                    lemma_digit_run_bounds(buf, es);
                }
            }
        }
    }
}


/// A string literal cut short reads as `Incomplete` at its opening quote:
/// when the input from `p` on is a proper beginning of the literal of `s`
/// (cut anywhere: in the text, inside an escape, among the hex digits of
/// `\u`), the scan fails with `Incomplete` at `p`, so `parse_string` leaves
/// the read position at the quote.
pub proof fn law_cut_string_is_incomplete_at_quote(s: Seq<char>, buf: Seq<u8>, p: int)
    requires
        0 <= p < buf.len(),
        buf.len() - p < json_string(s).len(),
        buf.subrange(p, buf.len() as int) == json_string(s).subrange(0, buf.len() - p),
    ensures
        string_literal(buf, p) == Scan::<Seq<char>>::Fail(ParseErrorKind::Incomplete, p),
{
    let lit = json_string(s);
    let longer = buf.subrange(0, p) + lit;
    assert(extends(longer, buf)) by {
        assert forall|i: int| 0 <= i < buf.len() implies longer[i] == buf[i] by {
            if i >= p {
                assert(buf.subrange(p, buf.len() as int)[i - p] == buf[i]);
            }
        }
    }
    assert(longer.subrange(p, p + lit.len()) =~= lit);
    law_parse_string_inverts_serialize_string(s, longer, p);
    lemma_string_literal_extends(buf, longer, p);
    lemma_string_literal_bounds(buf, p);
    lemma_scan_string_body_bounds(buf, p + 1, Seq::empty(), p);
}

/// Any string literal cut short reads as `Incomplete` at its opening quote:
/// when a longer input holds a valid literal opening at `p` whose closing quote
/// lies beyond the end of `buf` (so `buf` stops in the text, inside an
/// escape, or among the hex digits of `\u`), the scan of `buf` fails with
/// `Incomplete` at `p`, and `parse_string` leaves the read position at the
/// quote.
pub proof fn law_cut_literal_is_incomplete_at_quote(buf: Seq<u8>, longer: Seq<u8>, p: int)
    requires
        0 <= p < buf.len(),
        extends(longer, buf),
        string_literal(longer, p) matches Scan::Done(_, end) && end > buf.len(),
    ensures
        string_literal(buf, p) == Scan::<Seq<char>>::Fail(ParseErrorKind::Incomplete, p),
{
    lemma_string_literal_extends(buf, longer, p);
    lemma_string_literal_bounds(buf, p);
    lemma_scan_string_body_bounds(buf, p + 1, Seq::empty(), p);
}

/// A digit run that ends inside the buffer ends at the same place once more
/// input follows.
pub proof fn lemma_digit_run_extends(buf: Seq<u8>, longer: Seq<u8>, i: int)
    requires
        extends(longer, buf),
        0 <= i <= buf.len(),
    ensures
        digit_run_end(buf, i) < buf.len() ==> digit_run_end(longer, i) == digit_run_end(buf, i),
    decreases buf.len() - i,
{
    if i < buf.len() {
        assert(longer[i] == buf[i]);
        if is_digit_byte(buf[i]) {
            lemma_digit_run_extends(buf, longer, i + 1);
        }
    }
}

/// Reading hex digits: running out of input is reported at the digits'
/// start; any other result stays the same once more input follows.
pub proof fn lemma_hex_run_extends(buf: Seq<u8>, longer: Seq<u8>, start: int, k: int, acc: int)
    requires
        extends(longer, buf),
        0 <= start,
        0 <= k <= 4,
    ensures
        hex_run(buf, start, k, acc) matches Scan::Fail(kind, at) ==> (kind is Incomplete ==> at == start),
        !(hex_run(buf, start, k, acc) matches Scan::Fail(kind, _) && kind is Incomplete)
            ==> hex_run(longer, start, k, acc) == hex_run(buf, start, k, acc),
    decreases 4 - k,
{
    if k < 4 && start + k < buf.len() {
        assert(longer[start + k] == buf[start + k]);
        if let Some(d) = hex_value(buf[start + k]) {
            lemma_hex_run_extends(buf, longer, start, k + 1, acc * 16 + d);
        }
    }
}

/// Scanning a string body: running out of input is reported at the opening
/// quote; any other result stays the same once more input follows.
pub proof fn lemma_scan_string_body_extends(
    buf: Seq<u8>,
    longer: Seq<u8>,
    i: int,
    acc: Seq<u8>,
    open: int,
)
    requires
        extends(longer, buf),
        0 <= i,
    ensures
        scan_string_body(buf, i, acc, open) matches Scan::Fail(kind, at) ==> (kind is Incomplete ==> at == open),
        !(scan_string_body(buf, i, acc, open) matches Scan::Fail(kind, _) && kind is Incomplete)
            ==> scan_string_body(longer, i, acc, open) == scan_string_body(buf, i, acc, open),
    decreases buf.len() - i,
{
    if i < buf.len() {
        assert(longer[i] == buf[i]);
        if buf[i] == 0x5C && i + 1 < buf.len() {
            assert(longer[i + 1] == buf[i + 1]);
            if let Some(x) = simple_escape(buf[i + 1]) {
                lemma_scan_string_body_extends(buf, longer, i + 2, acc.push(x), open);
            } else if buf[i + 1] == 0x75 {
                lemma_hex_run_done(buf, i + 2, 0, 0);
                lemma_hex_run_extends(buf, longer, i + 2, 0, 0);
                if let Scan::Done(cp, next) = hex_run(buf, i + 2, 0, 0) {
                    if !is_surrogate(cp) {
                        lemma_scan_string_body_extends(
                            buf,
                            longer,
                            next,
                            acc + encode_scalar(cp as u32),
                            open,
                        );
                    }
                }
            }
        } else if buf[i] != 0x22 && buf[i] != 0x5C {
            lemma_scan_string_body_extends(buf, longer, i + 1, acc.push(buf[i]), open);
        }
    }
}

/// A string literal: running out of input is reported at the opening quote;
/// any other result stays the same once more input follows.
pub proof fn lemma_string_literal_extends(buf: Seq<u8>, longer: Seq<u8>, open: int)
    requires
        extends(longer, buf),
        0 <= open,
    ensures
        string_literal(buf, open) matches Scan::Fail(kind, at) ==> (kind is Incomplete ==> at == open),
        !(string_literal(buf, open) matches Scan::Fail(kind, _) && kind is Incomplete)
            ==> string_literal(longer, open) == string_literal(buf, open),
{
    lemma_scan_string_body_extends(buf, longer, open + 1, Seq::empty(), open);
}

/// A number literal read before the end of input is signalled: running out
/// of input is reported at its start; one that parses parses the same way once
/// more input follows, whether or not the end of input is signalled then.
pub proof fn lemma_number_literal_extends(buf: Seq<u8>, longer: Seq<u8>, start: int, eof: bool)
    requires
        extends(longer, buf),
        0 <= start <= buf.len(),
    ensures
        number_literal(buf, start, false) matches Scan::Fail(kind, at) ==> (kind is Incomplete ==> at == start),
        number_literal(buf, start, false) is Done ==> number_literal(longer, start, eof)
            == number_literal(buf, start, false),
{
    if start < buf.len() {
        assert(longer[start] == buf[start]);
        let signed = buf[start] == 0x2B || buf[start] == 0x2D;
        let i = if signed { start + 1 } else { start };
        if i < buf.len() {
            lemma_digit_run_bounds(buf, i);
            lemma_digit_run_extends(buf, longer, i);
            let j = digit_run_end(buf, i);
            if j < buf.len() {
                assert(longer[j] == buf[j]);
                assert(longer.subrange(i, j) =~= buf.subrange(i, j));
                let has_frac = buf[j] == 0x2E;
                if has_frac {
                    lemma_digit_run_bounds(buf, j + 1);
                    lemma_digit_run_extends(buf, longer, j + 1);
                }
                let k = if has_frac { digit_run_end(buf, j + 1) } else { j };
                if k < buf.len() {
                    assert(longer[k] == buf[k]);
                    if has_frac {
                        assert(longer.subrange(j + 1, k) =~= buf.subrange(j + 1, k));
                    }
                    let es = k + 1;
                    if buf[k] == 0x65 || buf[k] == 0x45 {
                        if es < buf.len() {
                            assert(longer[es] == buf[es]);
                            let ed = if buf[es] == 0x2B || buf[es] == 0x2D { es + 1 } else { es };
                            lemma_digit_run_bounds(buf, ed);
                            lemma_digit_run_extends(buf, longer, ed);
                            let m = digit_run_end(buf, ed);
                            if m < buf.len() {
                                assert(longer[m] == buf[m]);
                                assert(longer.subrange(ed, m) =~= buf.subrange(ed, m));
                            }
                        }
                    }
                }
            }
        }
    }
}

/// `true`/`false` read before the end of the buffer: running out of input is
/// reported at the start; a result found inside the buffer stays the same
/// once more input follows.
pub proof fn lemma_boolean_literal_extends(buf: Seq<u8>, longer: Seq<u8>, p: int)
    requires
        extends(longer, buf),
        0 <= p <= buf.len(),
    ensures
        boolean_literal(buf, p) matches Outcome::Failed(kind, at) ==> (kind is Incomplete ==> at == p),
        !(boolean_literal(buf, p) matches Outcome::Failed(kind, _) && kind is Incomplete)
            ==> boolean_literal(longer, p) == boolean_literal(buf, p),
{
    if p + 4 <= buf.len() {
        assert(longer.subrange(p, p + 4) =~= buf.subrange(p, p + 4));
    }
    if p + 5 <= buf.len() {
        assert(longer.subrange(p, p + 5) =~= buf.subrange(p, p + 5));
    }
}

/// `null`/`none` read before the end of the buffer: running out of input is
/// reported at the start; a result found inside the buffer stays the same
/// once more input follows.
pub proof fn lemma_null_literal_extends(buf: Seq<u8>, longer: Seq<u8>, p: int)
    requires
        extends(longer, buf),
        0 <= p <= buf.len(),
    ensures
        null_literal(buf, p) matches Outcome::Failed(kind, at) ==> (kind is Incomplete ==> at == p),
        !(null_literal(buf, p) matches Outcome::Failed(kind, _) && kind is Incomplete)
            ==> null_literal(longer, p) == null_literal(buf, p),
{
    if p + 4 <= buf.len() {
        assert(longer.subrange(p, p + 4) =~= buf.subrange(p, p + 4));
    }
}

} // verus!
