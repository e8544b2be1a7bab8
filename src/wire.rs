use vstd::prelude::*;
use vstd::utf8::*;

verus! {

/// Why a byte sequence is not a well-formed protocol message.
#[derive(Debug, Clone, Copy, PartialEq, Eq, Structural)]
pub enum ProtocolError {
    /// The input ended before the message did.
    UnexpectedEnd,
    /// A length field holds a value the message layout cannot have.
    InvalidLength(u32),
    /// A message of another kind was expected at this point.
    UnexpectedTag(u8),
    /// The tag names no client message.
    UnknownTag(u8),
    /// A format code other than 0 (text) or 1 (binary).
    InvalidFormatCode(u16),
    /// A Describe target other than `S` or `P`.
    InvalidDescribeKind(u8),
    /// A string without its terminating NUL byte.
    UnterminatedString,
    /// A parameter type OID that the type catalogue does not know.
    UnknownType(u32),
    /// A list of format codes whose length fits neither 0, 1 nor the item count.
    FormatCountMismatch,
    /// A message that would not fit the protocol's length or count fields.
    MessageTooLarge,
    /// A Describe of a prepared statement, which this server does not offer.
    StatementDescribeUnsupported,
    /// An SSL or cancel request in place of a startup message; the code is
    /// the one it carried in the protocol version's place.
    UnsupportedRequest(u32),
}

/// The two bytes of `x`, most significant first.
pub open spec fn be16(x: u16) -> Seq<u8> {
    seq![(x >> 8u16) as u8, (x & 0xffu16) as u8]
}

/// The four bytes of `x`, most significant first.
pub open spec fn be32(x: u32) -> Seq<u8> {
    seq![(x >> 24u32) as u8, ((x >> 16u32) & 0xffu32) as u8, ((x >> 8u32) & 0xffu32) as u8, (x & 0xffu32) as u8]
}

/// The big-endian 16-bit number at position `p` of `b`.
pub open spec fn u16_at(b: Seq<u8>, p: int) -> u16 {
    ((b[p] as u16) << 8u16) | (b[p + 1] as u16)
}

/// The big-endian 32-bit number at position `p` of `b`.
pub open spec fn u32_at(b: Seq<u8>, p: int) -> u32 {
    ((b[p] as u32) << 24u32) | ((b[p + 1] as u32) << 16u32) | ((b[p + 2] as u32) << 8u32) | (b[p + 3] as u32)
}

/// A string on the wire: its bytes followed by a NUL byte.
pub open spec fn cstr(s: Seq<u8>) -> Seq<u8> {
    s.push(0u8)
}

/// The position of the first NUL byte of `b` at or after `p`.
pub open spec fn nul_from(b: Seq<u8>, p: int) -> Option<int>
    decreases b.len() - p,
{
    if p < 0 || p >= b.len() {
        None
    } else if b[p] == 0 {
        Some(p)
    } else {
        nul_from(b, p + 1)
    }
}

/// Reads a 16-bit number at `p`: the value and the position after it.
pub open spec fn spec_read_u16(b: Seq<u8>, p: int) -> Result<(u16, int), ProtocolError> {
    if 0 <= p && p + 2 <= b.len() {
        Ok((u16_at(b, p), p + 2))
    } else {
        Err(ProtocolError::UnexpectedEnd)
    }
}

/// Reads a 32-bit number at `p`: the value and the position after it.
pub open spec fn spec_read_u32(b: Seq<u8>, p: int) -> Result<(u32, int), ProtocolError> {
    if 0 <= p && p + 4 <= b.len() {
        Ok((u32_at(b, p), p + 4))
    } else {
        Err(ProtocolError::UnexpectedEnd)
    }
}

/// Reads a NUL-terminated string at `p`: its bytes and the position after the NUL.
pub open spec fn spec_read_cstr(b: Seq<u8>, p: int) -> Result<(Seq<u8>, int), ProtocolError> {
    match nul_from(b, p) {
        Some(q) => Ok((b.subrange(p, q), q + 1)),
        None => Err(ProtocolError::UnterminatedString),
    }
}

pub proof fn lemma_u16_round_trip(x: u16)
    ensures
        u16_at(be16(x), 0) == x,
{
    let b0 = (x >> 8u16) as u8;
    let b1 = (x & 0xffu16) as u8;
    assert((((b0 as u16) << 8u16) | (b1 as u16)) == x) by (bit_vector)
        requires
            b0 == (x >> 8u16) as u8,
            b1 == (x & 0xffu16) as u8,
    ;
}

pub proof fn lemma_u32_round_trip(x: u32)
    ensures
        u32_at(be32(x), 0) == x,
{
    let b0 = (x >> 24u32) as u8;
    let b1 = ((x >> 16u32) & 0xffu32) as u8;
    let b2 = ((x >> 8u32) & 0xffu32) as u8;
    let b3 = (x & 0xffu32) as u8;
    assert((((b0 as u32) << 24u32) | ((b1 as u32) << 16u32) | ((b2 as u32) << 8u32) | (b3 as u32))
        == x) by (bit_vector)
        requires
            b0 == (x >> 24u32) as u8,
            b1 == ((x >> 16u32) & 0xffu32) as u8,
            b2 == ((x >> 8u32) & 0xffu32) as u8,
            b3 == (x & 0xffu32) as u8,
    ;
}

/// Reading a number back at any position where its encoding stands.
pub proof fn lemma_read_u16_at(b: Seq<u8>, p: int, x: u16)
    requires
        0 <= p,
        p + 2 <= b.len(),
        b.subrange(p, p + 2) == be16(x),
    ensures
        spec_read_u16(b, p) == Ok::<(u16, int), ProtocolError>((x, p + 2)),
{
    lemma_u16_round_trip(x);
    assert(b[p] == be16(x)[0] && b[p + 1] == be16(x)[1]) by {
        assert(b.subrange(p, p + 2)[0] == b[p]);
        assert(b.subrange(p, p + 2)[1] == b[p + 1]);
    }
}

pub proof fn lemma_read_u32_at(b: Seq<u8>, p: int, x: u32)
    requires
        0 <= p,
        p + 4 <= b.len(),
        b.subrange(p, p + 4) == be32(x),
    ensures
        spec_read_u32(b, p) == Ok::<(u32, int), ProtocolError>((x, p + 4)),
{
    lemma_u32_round_trip(x);
    assert(b[p] == be32(x)[0] && b[p + 1] == be32(x)[1] && b[p + 2] == be32(x)[2] && b[p + 3]
        == be32(x)[3]) by {
        let s = b.subrange(p, p + 4);
        assert(s[0] == b[p] && s[1] == b[p + 1] && s[2] == b[p + 2] && s[3] == b[p + 3]);
    }
}

proof fn lemma_nul_from_skips(b: Seq<u8>, p: int, q: int)
    requires
        0 <= p <= q < b.len(),
        b[q] == 0,
        forall|k: int| p <= k < q ==> b[k] != 0,
    ensures
        nul_from(b, p) == Some(q),
    decreases q - p,
{
    if p < q {
        lemma_nul_from_skips(b, p + 1, q);
    }
}

pub proof fn lemma_nul_from_range(b: Seq<u8>, p: int)
    ensures
        nul_from(b, p) matches Some(q) ==> 0 <= p <= q < b.len() && b[q] == 0,
    decreases b.len() - p,
{
    if 0 <= p < b.len() && b[p] != 0 {
        lemma_nul_from_range(b, p + 1);
    }
}

/// Reading a string back where its encoding stands, if it holds no NUL byte.
pub proof fn lemma_read_cstr_at(b: Seq<u8>, p: int, s: Seq<u8>)
    requires
        0 <= p,
        p + s.len() + 1 <= b.len(),
        b.subrange(p, p + s.len() + 1) == cstr(s),
        !s.contains(0u8),
    ensures
        spec_read_cstr(b, p) == Ok::<(Seq<u8>, int), ProtocolError>((s, p + s.len() + 1)),
{
    let q = p + s.len();
    assert forall|k: int| p <= k < q implies b[k] != 0 by {
        assert(b.subrange(p, p + s.len() + 1)[k - p] == b[k]);
        assert(cstr(s)[k - p] == s[k - p]);
    }
    assert(b[q] == 0) by {
        assert(b.subrange(p, p + s.len() + 1)[q - p] == b[q]);
    }
    lemma_nul_from_skips(b, p, q);
    assert(b.subrange(p, q) =~= s) by {
        assert forall|k: int| 0 <= k < s.len() implies b.subrange(p, q)[k] == s[k] by {
            assert(b.subrange(p, p + s.len() + 1)[k] == b[p + k]);
        }
    }
}

/// Reads the big-endian 16-bit number at `p`.
pub fn read_u16_at(b: &[u8], p: usize) -> (r: Result<(u16, usize), ProtocolError>)
    ensures
        match r {
            Ok((x, q)) => spec_read_u16(b@, p as int) == Ok::<(u16, int), ProtocolError>((x, q as int)),
            Err(e) => spec_read_u16(b@, p as int) == Err::<(u16, int), ProtocolError>(e),
        },
{
    if p > b.len() || b.len() - p < 2 {
        return Err(ProtocolError::UnexpectedEnd);
    }
    let x: u16 = ((b[p] as u16) << 8u16) | (b[p + 1] as u16);
    Ok((x, p + 2))
}

/// Reads the big-endian 32-bit number at `p`.
pub fn read_u32_at(b: &[u8], p: usize) -> (r: Result<(u32, usize), ProtocolError>)
    ensures
        match r {
            Ok((x, q)) => spec_read_u32(b@, p as int) == Ok::<(u32, int), ProtocolError>((x, q as int)),
            Err(e) => spec_read_u32(b@, p as int) == Err::<(u32, int), ProtocolError>(e),
        },
{
    if p > b.len() || b.len() - p < 4 {
        return Err(ProtocolError::UnexpectedEnd);
    }
    let x: u32 = ((b[p] as u32) << 24u32) | ((b[p + 1] as u32) << 16u32) | ((b[p + 2] as u32) << 8u32)
        | (b[p + 3] as u32);
    Ok((x, p + 4))
}

/// Finds the end of the NUL-terminated string that starts at `p`: the
/// string's bytes end before the returned position.
pub fn find_nul(b: &[u8], p: usize) -> (r: Option<usize>)
    ensures
        match r {
            Some(q) => nul_from(b@, p as int) == Some(q as int),
            None => nul_from(b@, p as int) == None::<int>,
        },
{
    let mut i: usize = p;
    while i < b.len()
        invariant
            p <= i,
            nul_from(b@, p as int) == nul_from(b@, i as int),
        decreases b.len() - i,
    {
        if b[i] == 0 {
            return Some(i);
        }
        i = i + 1;
    }
    None
}

} // verus!

verus! {

/// The text that `String::from_utf8_lossy` makes of `b`.
pub uninterp spec fn utf8_lossy(b: Seq<u8>) -> Seq<char>;

/// Relies on `String::from_utf8_lossy`: the text depends on the bytes alone,
/// and well-formed UTF-8 is decoded unchanged.
#[verifier::external_body]
pub(crate) fn text_from_bytes(b: &[u8]) -> (r: String)
    ensures
        r@ == utf8_lossy(b@),
        valid_utf8(b@) ==> r@ == decode_utf8(b@),
{
    String::from_utf8_lossy(b).to_string()
}

/// The text of `b` as the parsers read it: well-formed UTF-8 comes back
/// unchanged, each ill-formed sequence as U+FFFD.
pub fn decode_text(b: &[u8]) -> (r: String)
    ensures
        r@ == utf8_lossy(b@),
        valid_utf8(b@) ==> r@ == decode_utf8(b@),
{
    text_from_bytes(b)
}

/// A source of protocol bytes.
pub trait ReadPostgresExt {
    /// The bytes that have not been read yet.
    spec fn unread(&self) -> Seq<u8>;

    fn read_byte(&mut self) -> (r: Result<u8, ProtocolError>)
        ensures
            match r {
                Ok(x) => old(self).unread().len() >= 1 && x == old(self).unread()[0]
                    && final(self).unread() == old(self).unread().skip(1),
                Err(e) => e == ProtocolError::UnexpectedEnd && old(self).unread().len() < 1,
            },
    ;

    fn read_int16(&mut self) -> (r: Result<u16, ProtocolError>)
        ensures
            match r {
                Ok(x) => old(self).unread().len() >= 2 && x == u16_at(old(self).unread(), 0)
                    && final(self).unread() == old(self).unread().skip(2),
                Err(e) => e == ProtocolError::UnexpectedEnd && old(self).unread().len() < 2,
            },
    ;

    fn read_int32(&mut self) -> (r: Result<u32, ProtocolError>)
        ensures
            match r {
                Ok(x) => old(self).unread().len() >= 4 && x == u32_at(old(self).unread(), 0)
                    && final(self).unread() == old(self).unread().skip(4),
                Err(e) => e == ProtocolError::UnexpectedEnd && old(self).unread().len() < 4,
            },
    ;

    /// Reads the next `n` bytes.
    fn read_exact(&mut self, n: usize) -> (r: Result<Vec<u8>, ProtocolError>)
        ensures
            match r {
                Ok(v) => old(self).unread().len() >= n && v@ == old(self).unread().take(n as int)
                    && final(self).unread() == old(self).unread().skip(n as int),
                Err(e) => e == ProtocolError::UnexpectedEnd && old(self).unread().len() < n,
            },
    ;
}

/// Protocol bytes held in memory, read from the front.
pub struct MessageReader {
    data: Vec<u8>,
    pos: usize,
}

impl MessageReader {
    pub closed spec fn remaining(&self) -> Seq<u8> {
        self.data@.skip(self.pos as int)
    }

    #[verifier::type_invariant]
    spec fn inv(&self) -> bool {
        self.pos <= self.data@.len()
    }

    pub fn new(data: Vec<u8>) -> (r: Self)
        ensures
            r.remaining() == data@,
    {
        let r = MessageReader { data, pos: 0 };
        assert(r.data@.skip(0) =~= r.data@);
        r
    }

    /// The number of bytes read so far.
    pub closed spec fn consumed(&self) -> int {
        self.pos as int
    }

    /// How many bytes have been read so far.
    pub fn position(&self) -> (r: usize)
        ensures
            r == self.consumed(),
    {
        self.pos
    }
}

impl ReadPostgresExt for MessageReader {
    open spec fn unread(&self) -> Seq<u8> {
        self.remaining()
    }

    fn read_byte(&mut self) -> (r: Result<u8, ProtocolError>) {
        let v = self.read_exact(1)?;
        Ok(v[0])
    }

    fn read_int16(&mut self) -> (r: Result<u16, ProtocolError>) {
        let v = self.read_exact(2)?;
        let (x, _) = read_u16_at(v.as_slice(), 0)?;
        Ok(x)
    }

    fn read_int32(&mut self) -> (r: Result<u32, ProtocolError>) {
        let v = self.read_exact(4)?;
        let (x, _) = read_u32_at(v.as_slice(), 0)?;
        Ok(x)
    }

    fn read_exact(&mut self, n: usize) -> (r: Result<Vec<u8>, ProtocolError>) {
        proof {
            use_type_invariant(&*self);
        }
        if self.data.len() - self.pos < n {
            return Err(ProtocolError::UnexpectedEnd);
        }
        let start = self.pos;
        let end = self.pos + n;
        let mut v: Vec<u8> = Vec::new();
        let mut k: usize = start;
        while k < end
            invariant
                start == self.pos,
                end == start + n,
                end <= self.data@.len(),
                start <= k <= end,
                v@ == self.data@.subrange(start as int, k as int),
            decreases end - k,
        {
            v.push(self.data[k]);
            k = k + 1;
            assert(v@ =~= self.data@.subrange(start as int, k as int));
        }
        self.pos = self.pos + n;
        assert(v@ =~= old(self).remaining().take(n as int));
        assert(self.remaining() =~= old(self).remaining().skip(n as int));
        Ok(v)
    }
}

} // verus!
