//! `BinWriter`: a format-agnostic output byte buffer for serializers.
use vstd::prelude::*;
use vstd::utf8::{decode_utf8, valid_utf8};
use vstd::string::StringSliceAdditionalSpecFns;

verus! {

/// Declares std's `FromUtf8Error` (the error of `String::from_utf8`) to Verus.
#[verifier::external_type_specification]
#[verifier::external_body]
pub struct ExFromUtf8Error(std::string::FromUtf8Error);

/// Converts bytes to a `String`.
///
/// Trusted: calls `String::from_utf8`, which std documents as succeeding
/// exactly when the bytes are valid UTF-8, and then holding the characters
/// that those bytes encode. The contents of the error value are not stated.
#[verifier::external_body]
pub(crate) fn string_from_utf8(bytes: Vec<u8>) -> (r: Result<String, std::string::FromUtf8Error>)
    ensures
        r is Ok <==> valid_utf8(bytes@),
        r matches Ok(s) ==> s@ == decode_utf8(bytes@),
{
    String::from_utf8(bytes)
}

/// Views bytes as a string slice.
///
/// Trusted: calls `core::str::from_utf8`, which std documents as succeeding
/// exactly when the bytes are valid UTF-8 and returning a `str` over those
/// same bytes.
#[verifier::external_body]
fn str_from_utf8(bytes: &[u8]) -> (r: Option<&str>)
    ensures
        r is Some <==> valid_utf8(bytes@),
        r matches Some(s) ==> s.spec_bytes() == bytes@,
{
    core::str::from_utf8(bytes).ok()
}

/// The capacity of a byte vector.
///
/// Trusted: calls `Vec::capacity`; std documents that the capacity is never
/// smaller than the length. Which capacity the allocator gave is not stated.
#[verifier::external_body]
fn vec_capacity(v: &Vec<u8>) -> (c: usize)
    ensures
        c >= v@.len(),
{
    v.capacity()
}

/// Binary writer: format-agnostic output buffer management.
///
/// It only manages bytes (write a byte, bytes or a string; reserve; clear);
/// format-specific serialization lives with each format.
#[derive(Debug, Clone)]
pub struct BinWriter {
    buffer: Vec<u8>,
}

impl View for BinWriter {
    type V = Seq<u8>;

    /// The bytes written so far.
    closed spec fn view(&self) -> Seq<u8> {
        self.buffer@
    }
}

impl BinWriter {
    /// Create a new BinWriter with empty buffer.
    pub fn new() -> (w: Self)
        ensures
            w@ == Seq::<u8>::empty(),
    {
        Self { buffer: Vec::new() }
    }

    /// Create a new BinWriter with an empty buffer that has room for at least
    /// `capacity` bytes.
    pub fn with_capacity(capacity: usize) -> (w: Self)
        ensures
            w@ == Seq::<u8>::empty(),
    {
        Self { buffer: Vec::with_capacity(capacity) }
    }

    /// Get current buffer size.
    pub fn len(&self) -> (n: usize)
        ensures
            n == self@.len(),
    {
        self.buffer.len()
    }

    /// Check if buffer is empty.
    pub fn is_empty(&self) -> (b: bool)
        ensures
            b == (self@.len() == 0),
    {
        self.buffer.len() == 0
    }

    /// Get buffer capacity (never less than the length).
    pub fn capacity(&self) -> (c: usize)
        ensures
            c >= self@.len(),
    {
        vec_capacity(&self.buffer)
    }

    /// Reserve additional capacity; the contents are unchanged.
    pub fn reserve(&mut self, additional: usize)
        ensures
            final(self)@ == old(self)@,
    {
        self.buffer.reserve(additional);
    }

    /// Clear buffer (keeps capacity).
    pub fn clear(&mut self)
        ensures
            final(self)@ == Seq::<u8>::empty(),
    {
        self.buffer.clear();
    }

    /// Write a single byte.
    pub fn write_byte(&mut self, byte: u8)
        ensures
            final(self)@ == old(self)@.push(byte),
    {
        self.buffer.push(byte);
    }

    /// Write multiple bytes.
    pub fn write_bytes(&mut self, bytes: &[u8])
        ensures
            final(self)@ == old(self)@ + bytes@,
    {
        let mut i: usize = 0;
        while i < bytes.len()
            invariant
                0 <= i <= bytes@.len(),
                self.buffer@ == old(self)@ + bytes@.take(i as int),
            decreases bytes@.len() - i,
        {
            self.buffer.push(bytes[i]);
            i = i + 1;
            assert(self.buffer@ =~= old(self)@ + bytes@.take(i as int));
        }
        assert(bytes@.take(bytes@.len() as int) =~= bytes@);
    }

    /// Write a string as UTF-8 bytes.
    pub fn write_str(&mut self, s: &str)
        ensures
            final(self)@ == old(self)@ + s.spec_bytes(),
    {
        self.write_bytes(s.as_bytes());
    }

    /// Get immutable reference to internal buffer.
    pub fn as_bytes(&self) -> (b: &[u8])
        ensures
            b@ == self@,
    {
        self.buffer.as_slice()
    }

    /// Get mutable reference to internal buffer.
    pub fn as_bytes_mut(&mut self) -> (b: &mut Vec<u8>)
        ensures
            b@ == old(self)@,
            final(self)@ == final(b)@,
    {
        &mut self.buffer
    }

    /// Convert buffer to string slice; the buffer must hold valid UTF-8.
    pub fn as_str(&self) -> (s: &str)
        requires
            valid_utf8(self@),
        ensures
            s.spec_bytes() == self@,
    {
        match str_from_utf8(self.buffer.as_slice()) {
            Some(s) => s,
            None => {
                proof {
                    assert(false);
                }
                ""
            },
        }
    }

    /// Consume writer and return buffer as `Vec<u8>`.
    pub fn into_vec(self) -> (v: Vec<u8>)
        ensures
            v@ == self@,
    {
        self.buffer
    }

    /// Consume writer and return buffer as `String`; `Err` when the buffer is
    /// not valid UTF-8.
    pub fn into_string(self) -> (r: Result<String, std::string::FromUtf8Error>)
        ensures
            r is Ok <==> valid_utf8(self@),
            r matches Ok(s) ==> s@ == decode_utf8(self@),
    {
        string_from_utf8(self.buffer)
    }
}

impl Default for BinWriter {
    fn default() -> (w: Self)
        ensures
            w@ == Seq::<u8>::empty(),
    {
        Self::new()
    }
}

impl From<BinWriter> for Vec<u8> {
    fn from(writer: BinWriter) -> (v: Vec<u8>)
        ensures
            v@ == writer@,
    {
        writer.buffer
    }
}

impl vstd::std_specs::convert::FromSpecImpl<BinWriter> for Vec<u8> {
    open spec fn obeys_from_spec() -> bool {
        true
    }

    closed spec fn from_spec(writer: BinWriter) -> Vec<u8> {
        writer.buffer
    }
}

impl AsRef<[u8]> for BinWriter {
    fn as_ref(&self) -> (b: &[u8])
        ensures
            b@ == self@,
    {
        self.as_bytes()
    }
}

} // verus!
