use vstd::prelude::*;

use crate::chunk_type::{code_text, valid_code, ChunkType};
use crate::crc::{crc32, crc32_of, lemma_crc_single_change};
use crate::error::Error;
use vstd::utf8::{decode_utf8, valid_utf8};

verus! {

/// The largest payload length a chunk may declare.
pub const MAX_LENGTH: u32 = 0x7fff_ffff;

/// The four bytes of a `u32`, most significant first.
pub open spec fn be32(x: u32) -> Seq<u8> {
    seq![
        ((x >> 24) & 0xff) as u8,
        ((x >> 16) & 0xff) as u8,
        ((x >> 8) & 0xff) as u8,
        (x & 0xff) as u8,
    ]
}

/// The `u32` whose big-endian bytes are the first four of `s`.
pub open spec fn be32_value(s: Seq<u8>) -> u32 {
    ((s[0] as u32) << 24) | ((s[1] as u32) << 16) | ((s[2] as u32) << 8) | (s[3] as u32)
}

/// Reading back the big-endian bytes of a `u32` gives the same `u32`.
pub proof fn lemma_be32_round_trip(x: u32)
    ensures
        be32_value(be32(x)) == x,
{
    assert((((((x >> 24) & 0xff) as u8) as u32) << 24) | (((((x >> 16) & 0xff) as u8) as u32) << 16)
        | (((((x >> 8) & 0xff) as u8) as u32) << 8) | (((x & 0xff) as u8) as u32) == x) by (bit_vector);
}

/// Four bytes are the big-endian bytes of the `u32` they spell.
pub proof fn lemma_be32_value_bytes(s: Seq<u8>)
    requires
        s.len() == 4,
    ensures
        be32(be32_value(s)) == s,
{
    let (a, b, c, d) = (s[0], s[1], s[2], s[3]);
    let x = be32_value(s);
    assert(((x >> 24) & 0xff) as u8 == a && ((x >> 16) & 0xff) as u8 == b && ((x >> 8) & 0xff) as u8
        == c && (x & 0xff) as u8 == d) by (bit_vector)
        requires
            x == ((a as u32) << 24) | ((b as u32) << 16) | ((c as u32) << 8) | (d as u32),
    ;
    assert(be32(x) =~= s);
}

/// The payload length that a buffer declares in its first four bytes.
pub open spec fn declared_length(b: Seq<u8>) -> u32 {
    be32_value(b.subrange(0, 4))
}

/// The number of bytes a chunk with the declared length occupies.
pub open spec fn chunk_span(b: Seq<u8>) -> int {
    12 + declared_length(b)
}

/// The type code field of an encoded chunk.
pub open spec fn wire_type(b: Seq<u8>) -> Seq<u8> {
    b.subrange(4, 8)
}

/// The payload field of an encoded chunk.
pub open spec fn wire_payload(b: Seq<u8>) -> Seq<u8> {
    b.subrange(8, 8 + declared_length(b))
}

/// The stored checksum field of an encoded chunk.
pub open spec fn wire_crc(b: Seq<u8>) -> u32 {
    be32_value(b.subrange(8 + declared_length(b), chunk_span(b)))
}

/// Why the chunk at the start of `b` cannot be read, checked in this order; `None`
/// when it can.
pub open spec fn decode_error(b: Seq<u8>) -> Option<Error> {
    if b.len() < 4 {
        Some(Error::Truncated)
    } else if declared_length(b) > MAX_LENGTH {
        Some(Error::InvalidLength)
    } else if b.len() < chunk_span(b) {
        Some(Error::Truncated)
    } else if !valid_code(wire_type(b)) {
        Some(Error::InvalidEncoding)
    } else if wire_crc(b) != crc32_of(wire_type(b) + wire_payload(b)) {
        Some(Error::CrcMismatch)
    } else {
        None
    }
}

/// Decoding the encoded form of a chunk succeeds, and every field read back is the
/// chunk's own: length, type code, payload and checksum.
pub proof fn lemma_decode_encoded(c: Chunk)
    requires
        c.wf(),
    ensures
        decode_error(c.wire()) is None,
        chunk_span(c.wire()) == c.wire().len(),
        declared_length(c.wire()) == c.spec_length(),
        wire_type(c.wire()) == c.type_code()@,
        wire_payload(c.wire()) == c.payload(),
        wire_crc(c.wire()) == c.spec_crc(),
{
    let w = c.wire();
    let n = c.spec_length() as int;
    assert(w.subrange(0, 4) =~= be32(c.spec_length()));
    lemma_be32_round_trip(c.spec_length());
    lemma_be32_round_trip(c.spec_crc());
    assert(w.subrange(4, 8) =~= c.type_code()@);
    assert(w.subrange(8, 8 + n) =~= c.payload());
    assert(w.subrange(8 + n, 12 + n) =~= be32(c.spec_crc()));
}

/// A buffer shorter than twelve bytes, or shorter than the span its declared length
/// asks for, is rejected as truncated or as declaring too large a length.
pub proof fn lemma_short_buffer_rejected(b: Seq<u8>)
    requires
        b.len() < 12 || (b.len() >= 4 && b.len() < chunk_span(b)),
    ensures
        decode_error(b) == Some(Error::Truncated) || decode_error(b) == Some(Error::InvalidLength),
{
}

/// Changing the bits of any one byte of a valid chunk's payload or stored checksum
/// (in particular, flipping a single bit) makes it fail with a checksum mismatch.
pub proof fn lemma_tamper_detected(c: Chunk, i: int, mask: u8)
    requires
        c.wf(),
        8 <= i < c.wire().len(),
        mask != 0,
    ensures
        decode_error(c.wire().update(i, c.wire()[i] ^ mask)) == Some(Error::CrcMismatch),
{
    let w = c.wire();
    let x = w[i];
    let w2 = w.update(i, x ^ mask);
    let n = c.spec_length() as int;
    lemma_decode_encoded(c);
    assert(x ^ mask != x) by (bit_vector)
        requires
            mask != 0,
    ;
    assert(w2.subrange(0, 4) =~= w.subrange(0, 4));
    assert(declared_length(w2) == n);
    assert(wire_type(w2) =~= wire_type(w));
    assert(wire_crc(w2) != crc32_of(wire_type(w2) + wire_payload(w2))) by {
        if i < 8 + n {
            lemma_payload_change(w, w2, i, n);
        } else {
            lemma_stored_crc_change(w, w2, i, n);
        }
    }
}

proof fn lemma_payload_change(w: Seq<u8>, w2: Seq<u8>, i: int, n: int)
    requires
        0 <= n,
        w.len() == 12 + n,
        w2.len() == w.len(),
        8 <= i < 8 + n,
        w2[i] != w[i],
        forall|j: int| 0 <= j < w.len() && j != i ==> w2[j] == w[j],
        declared_length(w) == n,
        declared_length(w2) == n,
        wire_crc(w) == crc32_of(wire_type(w) + wire_payload(w)),
    ensures
        wire_crc(w2) != crc32_of(wire_type(w2) + wire_payload(w2)),
{
    assert(w2.subrange(8 + n, 12 + n) =~= w.subrange(8 + n, 12 + n));
    let s = wire_type(w) + wire_payload(w);
    let t = wire_type(w2) + wire_payload(w2);
    assert(s.len() == t.len());
    assert(s[i - 4] == w[i]);
    assert(t[i - 4] == w2[i]);
    assert forall|j: int| 0 <= j < s.len() && j != i - 4 implies s[j] == t[j] by {
        assert(s[j] == w[j + 4]);
        assert(t[j] == w2[j + 4]);
    }
    lemma_crc_single_change(s, t, i - 4);
}

proof fn lemma_stored_crc_change(w: Seq<u8>, w2: Seq<u8>, i: int, n: int)
    requires
        0 <= n,
        w.len() == 12 + n,
        w2.len() == w.len(),
        8 + n <= i < 12 + n,
        w2[i] != w[i],
        forall|j: int| 0 <= j < w.len() && j != i ==> w2[j] == w[j],
        declared_length(w) == n,
        declared_length(w2) == n,
        wire_crc(w) == crc32_of(wire_type(w) + wire_payload(w)),
    ensures
        wire_crc(w2) != crc32_of(wire_type(w2) + wire_payload(w2)),
{
    assert(wire_payload(w2) =~= wire_payload(w));
    assert(wire_type(w2) =~= wire_type(w));
    let a = w.subrange(8 + n, 12 + n);
    let b = w2.subrange(8 + n, 12 + n);
    assert(a[i - 8 - n] != b[i - 8 - n]);
    lemma_be32_value_bytes(a);
    lemma_be32_value_bytes(b);
}

/// Relies on std::str::from_utf8: it accepts exactly the valid UTF-8 sequences and
/// decodes them.
#[verifier::external_body]
fn utf8_text(b: &[u8]) -> (r: Option<String>)
    ensures
        r is Some <==> valid_utf8(b@),
        r matches Some(s) ==> s@ == decode_utf8(b@),
{
    match std::str::from_utf8(b) {
        Ok(s) => Some(s.to_string()),
        Err(_) => None,
    }
}

/// The text that `format!` renders for a chunk's type code, length and checksum.
pub uninterp spec fn chunk_line_text(chunk_type: Seq<char>, length: u32, crc: u32) -> Seq<char>;

/// The summary line of a chunk: its type code as text, its length and its checksum.
pub open spec fn chunk_summary(c: Chunk) -> Seq<char> {
    chunk_line_text(code_text(c.type_code()@), c.spec_length(), c.spec_crc())
}

/// Relies on the `format!` macro to render the chunk's fields for inspection; the
/// text depends on the three values alone.
#[verifier::external_body]
fn chunk_line(chunk_type: &str, length: u32, crc: u32) -> (r: String)
    ensures
        r@ == chunk_line_text(chunk_type@, length, crc),
{
    format!("{chunk_type} length={length} crc={crc:#010x}")
}

fn u32_to_be(x: u32) -> (r: [u8; 4])
    ensures
        r@ == be32(x),
{
    let r = [((x >> 24) & 0xff) as u8, ((x >> 16) & 0xff) as u8, ((x >> 8) & 0xff) as u8, (x & 0xff) as u8];
    assert(r@ =~= be32(x));
    r
}

fn be_to_u32(b: &[u8], at: usize) -> (r: u32)
    requires
        at + 4 <= b@.len(),
    ensures
        r == be32_value(b@.subrange(at as int, at + 4)),
{
    ((b[at] as u32) << 24) | ((b[at + 1] as u32) << 16) | ((b[at + 2] as u32) << 8) | (b[at + 3] as u32)
}

/// One record of the container: a type code, an opaque payload, its length and checksum.
#[derive(Debug, Clone)]
pub struct Chunk {
    length: u32,
    chunk_type: ChunkType,
    data: Vec<u8>,
    crc: u32,
}

impl Chunk {
    /// The declared payload length.
    pub closed spec fn spec_length(&self) -> u32 {
        self.length
    }

    /// The type code.
    pub closed spec fn type_code(&self) -> ChunkType {
        self.chunk_type
    }

    /// The payload bytes.
    pub closed spec fn payload(&self) -> Seq<u8> {
        self.data@
    }

    /// The stored checksum.
    pub closed spec fn spec_crc(&self) -> u32 {
        self.crc
    }

    /// The length matches the payload, fits the limit, and the checksum covers the
    /// type code and payload.
    pub open spec fn wf(&self) -> bool {
        &&& self.type_code().wf()
        &&& self.spec_length() == self.payload().len()
        &&& self.spec_length() <= MAX_LENGTH
        &&& self.spec_crc() == crc32_of(self.type_code()@ + self.payload())
    }

    /// The encoded form: length, type code, payload and checksum.
    pub open spec fn wire(&self) -> Seq<u8> {
        be32(self.spec_length()) + self.type_code()@ + self.payload() + be32(self.spec_crc())
    }

    /// Builds a chunk from a type code and a payload, computing its checksum.
    pub fn new(chunk_type: ChunkType, data: Vec<u8>) -> (r: Chunk)
        requires
            chunk_type.wf(),
            data@.len() <= MAX_LENGTH,
        ensures
            r.wf(),
            r.type_code() == chunk_type,
            r.payload() == data@,
            r.spec_length() == data@.len(),
            r.spec_crc() == crc32_of(chunk_type@ + data@),
    {
        let length = data.len() as u32;
        let type_bytes = chunk_type.bytes();
        let crc = crc32(type_bytes.as_slice(), data.as_slice());
        Chunk { length, chunk_type, data, crc }
    }

    /// Reads the chunk at the start of `buf`, which occupies its first `12 + length` bytes.
    pub fn decode(buf: &[u8]) -> (r: Result<Chunk, Error>)
        ensures
            match r {
                Ok(c) => {
                    &&& decode_error(buf@) is None
                    &&& c.wf()
                    &&& c.spec_length() == declared_length(buf@)
                    &&& c.type_code()@ == wire_type(buf@)
                    &&& c.payload() == wire_payload(buf@)
                    &&& c.spec_crc() == wire_crc(buf@)
                    &&& c.wire() == buf@.subrange(0, chunk_span(buf@))
                },
                Err(e) => decode_error(buf@) == Some(e),
            },
    {
        if buf.len() < 4 {
            return Err(Error::Truncated);
        }
        let length = be_to_u32(buf, 0);
        if length > MAX_LENGTH {
            return Err(Error::InvalidLength);
        }
        let len = length as usize;
        if buf.len() < 12 + len {
            return Err(Error::Truncated);
        }
        let type_bytes: [u8; 4] = [buf[4], buf[5], buf[6], buf[7]];
        assert(type_bytes@ =~= wire_type(buf@));
        let chunk_type = match ChunkType::from_bytes(type_bytes) {
            Ok(t) => t,
            Err(e) => {
                return Err(e);
            },
        };
        let mut data: Vec<u8> = Vec::with_capacity(len);
        let end: usize = 8 + len;
        let mut i: usize = 8;
        while i < end
            invariant
                8 <= i <= end,
                end == 8 + len,
                end <= buf@.len(),
                data@ == buf@.subrange(8, i as int),
            decreases end - i,
        {
            data.push(buf[i]);
            i = i + 1;
            assert(data@ =~= buf@.subrange(8, i as int));
        }
        let crc = be_to_u32(buf, 8 + len);
        let calculated = crc32(type_bytes.as_slice(), data.as_slice());
        if crc != calculated {
            return Err(Error::CrcMismatch);
        }
        let c = Chunk { length, chunk_type, data, crc };
        proof {
            let s = buf@.subrange(0, chunk_span(buf@));
            lemma_be32_value_bytes(buf@.subrange(0, 4));
            lemma_be32_value_bytes(buf@.subrange(8 + len, 12 + len));
            assert(c.wire() =~= s);
        }
        Ok(c)
    }

    /// The payload length.
    pub fn length(&self) -> (r: u32)
        ensures
            r == self.spec_length(),
    {
        self.length
    }

    /// The type code.
    pub fn chunk_type(&self) -> (r: &ChunkType)
        ensures
            *r == self.type_code(),
    {
        &self.chunk_type
    }

    /// The payload bytes.
    pub fn data(&self) -> (r: &[u8])
        ensures
            r@ == self.payload(),
    {
        self.data.as_slice()
    }

    /// The stored checksum.
    pub fn crc(&self) -> (r: u32)
        ensures
            r == self.spec_crc(),
    {
        self.crc
    }

    /// The payload read as UTF-8 text.
    pub fn data_as_string(&self) -> (r: Result<String, Error>)
        ensures
            match r {
                Ok(s) => valid_utf8(self.payload()) && s@ == decode_utf8(self.payload()),
                Err(e) => !valid_utf8(self.payload()) && e == Error::InvalidEncoding,
            },
    {
        match utf8_text(self.data.as_slice()) {
            Some(s) => Ok(s),
            None => Err(Error::InvalidEncoding),
        }
    }

    /// The encoded form of the chunk.
    pub fn bytes(&self) -> (r: Vec<u8>)
        ensures
            r@ == self.wire(),
    {
        let mut r: Vec<u8> = Vec::new();
        let len_bytes = u32_to_be(self.length);
        let type_bytes = self.chunk_type.bytes();
        let crc_bytes = u32_to_be(self.crc);
        let mut k: usize = 0;
        while k < 4
            invariant
                k <= 4,
                r@ == len_bytes@.subrange(0, k as int),
            decreases 4 - k,
        {
            r.push(len_bytes[k]);
            k = k + 1;
            assert(r@ =~= len_bytes@.subrange(0, k as int));
        }
        let ghost head = r@;
        let mut k: usize = 0;
        while k < 4
            invariant
                k <= 4,
                r@ == head + type_bytes@.subrange(0, k as int),
            decreases 4 - k,
        {
            r.push(type_bytes[k]);
            k = k + 1;
            assert(r@ =~= head + type_bytes@.subrange(0, k as int));
        }
        let ghost head = r@;
        let mut k: usize = 0;
        while k < self.data.len()
            invariant
                k <= self.data@.len(),
                r@ == head + self.data@.subrange(0, k as int),
            decreases self.data.len() - k,
        {
            r.push(self.data[k]);
            k = k + 1;
            assert(r@ =~= head + self.data@.subrange(0, k as int));
        }
        let ghost head = r@;
        let mut k: usize = 0;
        while k < 4
            invariant
                k <= 4,
                r@ == head + crc_bytes@.subrange(0, k as int),
            decreases 4 - k,
        {
            r.push(crc_bytes[k]);
            k = k + 1;
            assert(r@ =~= head + crc_bytes@.subrange(0, k as int));
        }
        assert(r@ =~= self.wire());
        r
    }

    /// A one-line summary of the chunk for inspection.
    pub fn to_string(&self) -> (r: String)
        requires
            self.wf(),
        ensures
            r@ == chunk_summary(*self),
    {
        let t = self.chunk_type.to_string();
        chunk_line(t.as_str(), self.length, self.crc)
    }
}

/// Same as [`Chunk::decode`], whose contract states the result.
impl<'a> TryFrom<&'a [u8]> for Chunk {
    type Error = Error;

    fn try_from(buf: &'a [u8]) -> Result<Chunk, Error> {
        Chunk::decode(buf)
    }
}

impl<'a> vstd::std_specs::convert::TryFromSpecImpl<&'a [u8]> for Chunk {
    /// A chunk holds a `Vec`, which no spec function can build, so the result is
    /// stated on `Chunk::decode` instead.
    open spec fn obeys_try_from_spec() -> bool {
        false
    }

    open spec fn try_from_spec(buf: &'a [u8]) -> Result<Chunk, Error> {
        arbitrary()
    }
}

} // verus!
