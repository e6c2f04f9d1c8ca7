//! `BinInner`: the byte buffer and read cursor that parsers work on.
use vstd::prelude::*;

verus! {

/// Format-agnostic input buffer with a read position.
///
/// Bytes are appended with `feed`; parsers read them through `peek_byte`,
/// `next_byte` and `set_pos`. The position never passes the end of the buffer.
#[derive(Debug)]
pub struct BinInner {
    buffer: Vec<u8>,
    pos: usize,
}

/// The bytes that JSON treats as insignificant whitespace.
pub open spec fn is_json_whitespace(b: u8) -> bool {
    b == 0x20u8 || b == 0x09u8 || b == 0x0Au8 || b == 0x0Du8
}

/// The first position at or after `i` that does not hold whitespace.
pub open spec fn skip_ws_from(buf: Seq<u8>, i: int) -> int
    decreases buf.len() - i,
{
    if 0 <= i < buf.len() && is_json_whitespace(buf[i]) {
        skip_ws_from(buf, i + 1)
    } else {
        i
    }
}

/// Skipping whitespace from inside the buffer stays inside it and does not
/// move back.
pub proof fn lemma_skip_ws_from_bounds(buf: Seq<u8>, i: int)
    requires
        0 <= i <= buf.len(),
    ensures
        i <= skip_ws_from(buf, i) <= buf.len(),
        skip_ws_from(buf, skip_ws_from(buf, i)) == skip_ws_from(buf, i),
    decreases buf.len() - i,
{
    if i < buf.len() && is_json_whitespace(buf[i]) {
        lemma_skip_ws_from_bounds(buf, i + 1);
    }
}

/// `longer` starts with the bytes of `buf`: what the buffer becomes once
/// more input is fed.
pub open spec fn extends(longer: Seq<u8>, buf: Seq<u8>) -> bool {
    &&& buf.len() <= longer.len()
    &&& forall|i: int| 0 <= i < buf.len() ==> longer[i] == buf[i]
}

/// Whitespace skipped inside a buffer is skipped the same way once more input
/// follows; and skipping from `i` in the longer buffer passes through the
/// place where the shorter one stopped.
pub proof fn lemma_skip_ws_extends(buf: Seq<u8>, longer: Seq<u8>, i: int)
    requires
        extends(longer, buf),
        0 <= i <= buf.len(),
    ensures
        skip_ws_from(buf, i) < buf.len() ==> skip_ws_from(longer, i) == skip_ws_from(buf, i),
        skip_ws_from(longer, i) == skip_ws_from(longer, skip_ws_from(buf, i)),
    decreases buf.len() - i,
{
    if i < buf.len() {
        assert(longer[i] == buf[i]);
        if is_json_whitespace(buf[i]) {
            lemma_skip_ws_extends(buf, longer, i + 1);
        }
    }
}

/// Whether `b` is JSON whitespace.
pub fn is_whitespace_byte(b: u8) -> (r: bool)
    ensures
        r == is_json_whitespace(b),
{
    b == 0x20u8 || b == 0x09u8 || b == 0x0Au8 || b == 0x0Du8
}

impl View for BinInner {
    /// The buffered bytes and the read position.
    type V = (Seq<u8>, int);

    closed spec fn view(&self) -> (Seq<u8>, int) {
        (self.buffer@, self.pos as int)
    }
}

impl BinInner {
    #[verifier::type_invariant]
    closed spec fn wf(&self) -> bool {
        self.pos <= self.buffer.len()
    }

    /// An empty buffer, read position 0.
    pub fn new() -> (r: Self)
        ensures
            r@ == (Seq::<u8>::empty(), 0int),
    {
        BinInner { buffer: Vec::new(), pos: 0 }
    }

    /// Append input bytes; the read position is unchanged.
    pub fn feed(&mut self, input: &[u8])
        ensures
            final(self)@ == (old(self)@.0 + input@, old(self)@.1),
    {
        proof {
            use_type_invariant(&*self);
        }
        let mut taken = BinInner::new();
        std::mem::swap(&mut taken, self);
        let BinInner { mut buffer, pos } = taken;
        let mut i: usize = 0;
        while i < input.len()
            invariant
                0 <= i <= input@.len(),
                buffer@ == old(self)@.0 + input@.take(i as int),
            decreases input@.len() - i,
        {
            buffer.push(input[i]);
            i = i + 1;
            assert(buffer@ =~= old(self)@.0 + input@.take(i as int));
        }
        assert(input@.take(input@.len() as int) =~= input@);
        *self = BinInner { buffer, pos };
    }

    /// Drop the bytes already read: the buffer keeps only the bytes from the
    /// read position on, and the read position becomes 0.
    pub fn compact(&mut self)
        ensures
            final(self)@ == (old(self)@.0.subrange(old(self)@.1, old(self)@.0.len() as int), 0int),
    {
        proof {
            use_type_invariant(&*self);
        }
        let mut kept: Vec<u8> = Vec::new();
        let mut i = self.pos;
        while i < self.buffer.len()
            invariant
                self.pos <= i <= self.buffer@.len(),
                self@ == old(self)@,
                kept@ == self.buffer@.subrange(self.pos as int, i as int),
            decreases self.buffer@.len() - i,
        {
            kept.push(self.buffer[i]);
            i = i + 1;
            assert(kept@ =~= self.buffer@.subrange(self.pos as int, i as int));
        }
        *self = BinInner { buffer: kept, pos: 0 };
    }

    /// The read position, which never passes the end of the buffer.
    pub fn pos(&self) -> (p: usize)
        ensures
            p == self@.1,
            p <= self@.0.len(),
            self@.0.len() <= usize::MAX,
    {
        proof {
            use_type_invariant(self);
        }
        let _ = self.buffer.len();
        self.pos
    }

    /// Move the read position; it must not pass the end of the buffer.
    pub fn set_pos(&mut self, pos: usize)
        requires
            pos <= old(self)@.0.len(),
        ensures
            final(self)@ == (old(self)@.0, pos as int),
    {
        self.pos = pos;
    }

    /// All buffered bytes, consumed or not.
    pub fn buffer(&self) -> (b: &[u8])
        ensures
            b@ == self@.0,
    {
        self.buffer.as_slice()
    }

    /// The byte at the read position, without consuming it.
    pub fn peek_byte(&self) -> (b: Option<u8>)
        ensures
            self@.1 < self@.0.len() ==> b == Some(self@.0[self@.1]),
            self@.1 >= self@.0.len() ==> b is None,
    {
        if self.pos < self.buffer.len() {
            Some(self.buffer[self.pos])
        } else {
            None
        }
    }

    /// The byte at the read position, consumed.
    pub fn next_byte(&mut self) -> (b: Option<u8>)
        ensures
            final(self)@.0 == old(self)@.0,
            old(self)@.1 < old(self)@.0.len() ==> b == Some(old(self)@.0[old(self)@.1])
                && final(self)@.1 == old(self)@.1 + 1,
            old(self)@.1 >= old(self)@.0.len() ==> b is None && final(self)@.1 == old(self)@.1,
    {
        if self.pos < self.buffer.len() {
            let b = self.buffer[self.pos];
            self.pos = self.pos + 1;
            Some(b)
        } else {
            None
        }
    }

    /// Advance the read position past spaces, tabs, line feeds and carriage returns.
    pub fn skip_whitespace(&mut self)
        ensures
            final(self)@ == (old(self)@.0, skip_ws_from(old(self)@.0, old(self)@.1)),
    {
        proof {
            use_type_invariant(&*self);
        }
        while self.pos < self.buffer.len() && is_whitespace_byte(self.buffer[self.pos])
            invariant
                self.buffer@ == old(self)@.0,
                old(self)@.1 <= self.pos <= self.buffer@.len(),
                skip_ws_from(self.buffer@, self.pos as int) == skip_ws_from(
                    old(self)@.0,
                    old(self)@.1,
                ),
            decreases self.buffer@.len() - self.pos,
        {
            self.pos = self.pos + 1;
        }
    }
}

} // verus!
