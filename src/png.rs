use vstd::prelude::*;

use crate::chunk::{
    chunk_span, chunk_summary, declared_length, decode_error, lemma_decode_encoded, wire_crc, wire_payload,
    wire_type, Chunk,
};
use crate::chunk_type::{code_text, ChunkType};
use crate::error::Error;
use vstd::slice::slice_subrange;

verus! {

/// The eight bytes that open every container.
pub open spec fn signature() -> Seq<u8> {
    seq![137u8, 80u8, 78u8, 71u8, 13u8, 10u8, 26u8, 10u8]
}

/// The encoded chunks, one after another.
pub open spec fn chunks_wire(cs: Seq<Chunk>) -> Seq<u8>
    decreases cs.len(),
{
    if cs.len() == 0 {
        Seq::empty()
    } else {
        cs[0].wire() + chunks_wire(cs.subrange(1, cs.len() as int))
    }
}

/// The encoded container: the signature followed by the encoded chunks.
pub open spec fn container_wire(cs: Seq<Chunk>) -> Seq<u8> {
    signature() + chunks_wire(cs)
}

/// The sum of `12 + length` over the chunks.
pub open spec fn total_span(cs: Seq<Chunk>) -> int
    decreases cs.len(),
{
    if cs.len() == 0 {
        0
    } else {
        12 + cs[0].spec_length() + total_span(cs.subrange(1, cs.len() as int))
    }
}

/// The first chunk error met when reading the chunks of `b` one after another
/// until it is used up; `None` when every chunk reads.
pub open spec fn chunks_error(b: Seq<u8>) -> Option<Error>
    decreases b.len(),
{
    if b.len() == 0 {
        None
    } else {
        match decode_error(b) {
            Some(e) => Some(e),
            None => chunks_error(b.subrange(chunk_span(b), b.len() as int)),
        }
    }
}

/// Why `b` is not a container; `None` when it is.
pub open spec fn parse_error(b: Seq<u8>) -> Option<Error> {
    if b.len() < 8 || b.subrange(0, 8) != signature() {
        Some(Error::InvalidSignature)
    } else {
        chunks_error(b.subrange(8, b.len() as int))
    }
}

/// The chunk's type code, as text, is `t`.
pub open spec fn has_type(c: Chunk, t: Seq<char>) -> bool {
    code_text(c.type_code()@) == t
}

/// Index `i` holds the earliest chunk of type `t`.
pub open spec fn is_first_of_type(cs: Seq<Chunk>, i: int, t: Seq<char>) -> bool {
    &&& 0 <= i < cs.len()
    &&& has_type(cs[i], t)
    &&& forall|j: int| 0 <= j < i ==> !has_type(#[trigger] cs[j], t)
}

/// No chunk has type `t`.
pub open spec fn lacks_type(cs: Seq<Chunk>, t: Seq<char>) -> bool {
    forall|j: int| 0 <= j < cs.len() ==> !has_type(#[trigger] cs[j], t)
}

/// Every chunk is well formed.
pub open spec fn all_wf(cs: Seq<Chunk>) -> bool {
    forall|j: int| 0 <= j < cs.len() ==> (#[trigger] cs[j]).wf()
}

proof fn lemma_chunks_wire_push(cs: Seq<Chunk>, c: Chunk)
    ensures
        chunks_wire(cs.push(c)) == chunks_wire(cs) + c.wire(),
    decreases cs.len(),
{
    let p = cs.push(c);
    if cs.len() == 0 {
        assert(p.subrange(1, p.len() as int) =~= Seq::<Chunk>::empty());
        assert(chunks_wire(Seq::<Chunk>::empty()) == Seq::<u8>::empty());
        assert(p[0] == c);
        assert(chunks_wire(p) =~= c.wire());
    } else {
        let rest = cs.subrange(1, cs.len() as int);
        lemma_chunks_wire_push(rest, c);
        assert(p.subrange(1, p.len() as int) =~= rest.push(c));
        assert(chunks_wire(p) =~= chunks_wire(cs) + c.wire());
    }
}

/// Reading from the start of a chunk's encoded form followed by anything else
/// succeeds and takes exactly that encoded form.
#[verifier::spinoff_prover]
proof fn lemma_decode_prefix(c: Chunk, rest: Seq<u8>)
    requires
        c.wf(),
    ensures
        decode_error(c.wire() + rest) is None,
        chunk_span(c.wire() + rest) == c.wire().len(),
        (c.wire() + rest).subrange(0, c.wire().len() as int) == c.wire(),
        (c.wire() + rest).subrange(c.wire().len() as int, (c.wire() + rest).len() as int) == rest,
{
    let w = c.wire();
    let b = w + rest;
    let n = c.spec_length() as int;
    lemma_decode_encoded(c);
    assert(w.len() == 12 + n);
    assert(b.subrange(0, 4) =~= w.subrange(0, 4));
    assert(declared_length(b) == n);
    assert(wire_type(b) =~= wire_type(w));
    assert(wire_payload(b) =~= wire_payload(w));
    assert(b.subrange(8 + n, 12 + n) =~= w.subrange(8 + n, 12 + n));
    assert(wire_crc(b) == wire_crc(w));
    assert(b.subrange(0, w.len() as int) =~= w);
    assert(b.subrange(w.len() as int, b.len() as int) =~= rest);
}

/// Two chunks agree on length, type code, payload and checksum.
pub open spec fn same_fields(a: Chunk, b: Chunk) -> bool {
    &&& a.spec_length() == b.spec_length()
    &&& a.type_code() == b.type_code()
    &&& a.payload() == b.payload()
    &&& a.spec_crc() == b.spec_crc()
}

proof fn lemma_wire_len(c: Chunk)
    requires
        c.wf(),
    ensures
        c.wire().len() == 12 + c.spec_length(),
{
}

proof fn lemma_chunks_accepted(cs: Seq<Chunk>)
    requires
        all_wf(cs),
    ensures
        chunks_error(chunks_wire(cs)) is None,
        chunks_wire(cs).len() == total_span(cs),
    decreases cs.len(),
{
    if cs.len() > 0 {
        let rest = cs.subrange(1, cs.len() as int);
        assert(cs[0].wf());
        assert forall|j: int| 0 <= j < rest.len() implies (#[trigger] rest[j]).wf() by {
            assert(rest[j] == cs[j + 1]);
        }
        lemma_chunks_accepted(rest);
        lemma_decode_prefix(cs[0], chunks_wire(rest));
        lemma_wire_len(cs[0]);
    }
}

proof fn lemma_chunks_unique(cs: Seq<Chunk>, ds: Seq<Chunk>)
    requires
        all_wf(cs),
        all_wf(ds),
        chunks_wire(cs) == chunks_wire(ds),
    ensures
        cs.len() == ds.len(),
        forall|i: int| 0 <= i < cs.len() ==> same_fields(#[trigger] cs[i], ds[i]),
    decreases cs.len(),
{
    if cs.len() == 0 {
        if ds.len() > 0 {
            assert(ds[0].wf());
            lemma_wire_len(ds[0]);
            assert(chunks_wire(cs).len() == 0);
            assert(chunks_wire(ds) == ds[0].wire() + chunks_wire(ds.subrange(1, ds.len() as int)));
        }
    } else {
        assert(cs[0].wf());
        lemma_wire_len(cs[0]);
        if ds.len() == 0 {
            assert(chunks_wire(ds).len() == 0);
            assert(chunks_wire(cs) == cs[0].wire() + chunks_wire(cs.subrange(1, cs.len() as int)));
        }
        assert(ds[0].wf());
        let rc = cs.subrange(1, cs.len() as int);
        let rd = ds.subrange(1, ds.len() as int);
        assert forall|j: int| 0 <= j < rc.len() implies (#[trigger] rc[j]).wf() by {
            assert(rc[j] == cs[j + 1]);
        }
        assert forall|j: int| 0 <= j < rd.len() implies (#[trigger] rd[j]).wf() by {
            assert(rd[j] == ds[j + 1]);
        }
        lemma_decode_prefix(cs[0], chunks_wire(rc));
        lemma_decode_prefix(ds[0], chunks_wire(rd));
        assert(cs[0].wire() == ds[0].wire());
        lemma_decode_encoded(cs[0]);
        lemma_decode_encoded(ds[0]);
        ChunkType::lemma_view_injective(cs[0].type_code(), ds[0].type_code());
        lemma_chunks_unique(rc, rd);
        assert forall|i: int| 0 <= i < cs.len() implies same_fields(#[trigger] cs[i], ds[i]) by {
            if i > 0 {
                assert(cs[i] == rc[i - 1]);
                assert(ds[i] == rd[i - 1]);
            }
        }
    }
}

/// Encoding a list of chunks and reading it back: the encoded container is accepted,
/// its size is 8 plus `12 + length` for each chunk, and any list of chunks with the
/// same encoding (such as the one parsing returns) matches the original chunk by
/// chunk in length, type code, payload and checksum.
pub proof fn lemma_container_round_trip(cs: Seq<Chunk>, ds: Seq<Chunk>)
    requires
        all_wf(cs),
        all_wf(ds),
        container_wire(ds) == container_wire(cs),
    ensures
        parse_error(container_wire(cs)) is None,
        container_wire(cs).len() == 8 + total_span(cs),
        ds.len() == cs.len(),
        forall|i: int| 0 <= i < cs.len() ==> same_fields(#[trigger] ds[i], cs[i]),
{
    let w = container_wire(cs);
    lemma_chunks_accepted(cs);
    assert(w.subrange(0, 8) =~= signature());
    assert(w.subrange(8, w.len() as int) =~= chunks_wire(cs));
    let v = container_wire(ds);
    assert(v.subrange(8, v.len() as int) =~= chunks_wire(ds));
    lemma_chunks_unique(ds, cs);
}

/// Appending a chunk and then removing the earliest chunk of its type: where no chunk
/// of that type was there before, the original list comes back; otherwise the earliest
/// original chunk of that type goes and the appended chunk stays at the end.
pub proof fn lemma_append_then_remove(cs: Seq<Chunk>, c: Chunk, i: int)
    requires
        is_first_of_type(cs.push(c), i, code_text(c.type_code()@)),
    ensures
        lacks_type(cs, code_text(c.type_code()@)) ==> cs.push(c).remove(i) == cs,
        !lacks_type(cs, code_text(c.type_code()@)) ==> is_first_of_type(cs, i, code_text(c.type_code()@))
            && cs.push(c).remove(i) == cs.remove(i).push(c),
{
    let t = code_text(c.type_code()@);
    let p = cs.push(c);
    if lacks_type(cs, t) {
        if i < cs.len() {
            assert(p[i] == cs[i]);
        }
        assert(p.remove(i) =~= cs);
    } else {
        let j0 = choose|j: int| 0 <= j < cs.len() && has_type(#[trigger] cs[j], t);
        if i >= cs.len() {
            assert(p[j0] == cs[j0]);
        }
        assert(p[i] == cs[i]);
        assert forall|j: int| 0 <= j < i implies !has_type(#[trigger] cs[j], t) by {
            assert(p[j] == cs[j]);
        }
        assert(p.remove(i) =~= cs.remove(i).push(c));
    }
}

/// The text that `format!` renders for the signature and the chunk count.
pub uninterp spec fn header_line_text(signature: Seq<u8>, count: usize) -> Seq<char>;

/// Lines put together with a newline between each two.
pub open spec fn joined(lines: Seq<Seq<char>>) -> Seq<char>
    decreases lines.len(),
{
    if lines.len() == 0 {
        Seq::empty()
    } else if lines.len() == 1 {
        lines[0]
    } else {
        joined(lines.drop_last()) + seq!['\n'] + lines.last()
    }
}

/// The lines of the dump: the signature and chunk count, then one summary per chunk.
pub open spec fn dump_lines(cs: Seq<Chunk>) -> Seq<Seq<char>> {
    seq![header_line_text(signature(), cs.len() as usize)] + cs.map_values(|c: Chunk| chunk_summary(c))
}

/// Relies on the `format!` macro to render the signature and the chunk count for
/// inspection; the text depends on the two values alone.
#[verifier::external_body]
fn header_line(signature: &[u8; 8], count: usize) -> (r: String)
    ensures
        r@ == header_line_text(signature@, count),
{
    format!("signature {signature:?}, {count} chunks")
}

/// Relies on `[String]::join`: the lines in order, with the separator between each two.
#[verifier::external_body]
fn join_lines(lines: &Vec<String>) -> (r: String)
    ensures
        r@ == joined(lines@.map_values(|s: String| s@)),
{
    lines.join("\n")
}

fn standard_header() -> (r: [u8; 8])
    ensures
        r@ == signature(),
{
    let r: [u8; 8] = [137, 80, 78, 71, 13, 10, 26, 10];
    assert(r@ =~= signature());
    r
}

fn append_all(out: &mut Vec<u8>, src: &Vec<u8>)
    ensures
        final(out)@ == old(out)@ + src@,
{
    let ghost start = out@;
    let mut k: usize = 0;
    while k < src.len()
        invariant
            k <= src@.len(),
            out@ == start + src@.subrange(0, k as int),
        decreases src.len() - k,
    {
        out.push(src[k]);
        k = k + 1;
        assert(out@ =~= start + src@.subrange(0, k as int));
    }
    assert(src@.subrange(0, k as int) =~= src@);
}

/// A container: the fixed signature followed by an ordered list of chunks.
pub struct Png {
    chunks: Vec<Chunk>,
}

impl Png {
    /// The chunks, in order.
    pub closed spec fn chunk_seq(&self) -> Seq<Chunk> {
        self.chunks@
    }

    /// Every chunk is well formed.
    pub open spec fn wf(&self) -> bool {
        all_wf(self.chunk_seq())
    }

    /// A container holding the given chunks, in order.
    pub fn from_chunks(chunks: Vec<Chunk>) -> (r: Png)
        requires
            all_wf(chunks@),
        ensures
            r.wf(),
            r.chunk_seq() == chunks@,
    {
        Png { chunks }
    }

    /// Reads a whole container: the signature, then chunks until the buffer is used up.
    /// Any chunk that fails to read fails the whole parse.
    pub fn parse(buf: &[u8]) -> (r: Result<Png, Error>)
        ensures
            match r {
                Ok(p) => parse_error(buf@) is None && p.wf() && container_wire(p.chunk_seq()) == buf@,
                Err(e) => parse_error(buf@) == Some(e),
            },
    {
        let header = standard_header();
        if buf.len() < 8 {
            return Err(Error::InvalidSignature);
        }
        let mut k: usize = 0;
        while k < 8
            invariant
                k <= 8,
                8 <= buf@.len(),
                header@ == signature(),
                forall|j: int| 0 <= j < k ==> buf@[j] == #[trigger] signature()[j],
            decreases 8 - k,
        {
            if buf[k] != header[k] {
                assert(buf@.subrange(0, 8)[k as int] != signature()[k as int]);
                return Err(Error::InvalidSignature);
            }
            k = k + 1;
        }
        assert(buf@.subrange(0, 8) =~= signature());
        let mut chunks: Vec<Chunk> = Vec::new();
        let mut pos: usize = 8;
        let ghost body = buf@.subrange(8, buf@.len() as int);
        assert(chunks_wire(chunks@) =~= Seq::<u8>::empty());
        assert(buf@.subrange(8, buf@.len() as int) =~= buf@.subrange(pos as int, buf@.len() as int));
        while pos < buf.len()
            invariant
                8 <= pos <= buf@.len(),
                buf@.subrange(0, 8) == signature(),
                all_wf(chunks@),
                signature() + chunks_wire(chunks@) == buf@.subrange(0, pos as int),
                body == buf@.subrange(8, buf@.len() as int),
                chunks_error(body) == chunks_error(buf@.subrange(pos as int, buf@.len() as int)),
            decreases buf.len() - pos,
        {
            let rest = slice_subrange(buf, pos, buf.len());
            match Chunk::decode(rest) {
                Err(e) => {
                    return Err(e);
                },
                Ok(c) => {
                    let span: usize = 12 + c.length() as usize;
                    proof {
                        lemma_chunks_wire_push(chunks@, c);
                        assert(buf@.subrange(0, pos + span) =~= buf@.subrange(0, pos as int)
                            + rest@.subrange(0, span as int));
                        assert(rest@.subrange(span as int, rest@.len() as int) =~= buf@.subrange(
                            pos + span,
                            buf@.len() as int,
                        ));
                    }
                    pos = pos + span;
                    chunks.push(c);
                },
            }
        }
        Ok(Png { chunks })
    }

    /// The fixed signature bytes.
    pub fn header(&self) -> (r: [u8; 8])
        ensures
            r@ == signature(),
    {
        standard_header()
    }

    /// The chunks, in order.
    pub fn chunks(&self) -> (r: &[Chunk])
        ensures
            r@ == self.chunk_seq(),
    {
        self.chunks.as_slice()
    }

    /// Adds a chunk at the end.
    pub fn append_chunk(&mut self, chunk: Chunk)
        requires
            old(self).wf(),
            chunk.wf(),
        ensures
            final(self).wf(),
            final(self).chunk_seq() == old(self).chunk_seq().push(chunk),
    {
        self.chunks.push(chunk);
    }

    /// Index of the earliest chunk whose type code reads as `chunk_type`.
    fn position_of(&self, chunk_type: &str) -> (r: Option<usize>)
        requires
            self.wf(),
        ensures
            match r {
                Some(i) => is_first_of_type(self.chunk_seq(), i as int, chunk_type@),
                None => lacks_type(self.chunk_seq(), chunk_type@),
            },
    {
        let t = match ChunkType::from_text(chunk_type) {
            Ok(t) => t,
            Err(_) => {
                return None;
            },
        };
        let mut i: usize = 0;
        while i < self.chunks.len()
            invariant
                i <= self.chunks@.len(),
                self.wf(),
                t.wf(),
                chunk_type@ == code_text(t@),
                forall|j: int| 0 <= j < i ==> !has_type(#[trigger] self.chunks@[j], chunk_type@),
            decreases self.chunks.len() - i,
        {
            let same = *self.chunks[i].chunk_type() == t;
            proof {
                let c = self.chunks@[i as int].type_code();
                ChunkType::lemma_view_injective(c, t);
                if code_text(c@) == code_text(t@) {
                    assert forall|k: int| 0 <= k < 4 implies c@[k] == t@[k] by {
                        assert(code_text(c@)[k] == code_text(t@)[k]);
                        assert(code_text(c@)[k] == c@[k] as char);
                        assert(code_text(t@)[k] == t@[k] as char);
                    }
                    assert(c@ =~= t@);
                }
            }
            if same {
                return Some(i);
            }
            i = i + 1;
        }
        None
    }

    /// Removes the earliest chunk whose type code reads as `chunk_type`.
    pub fn remove_chunk(&mut self, chunk_type: &str) -> (r: Result<(), Error>)
        requires
            old(self).wf(),
        ensures
            final(self).wf(),
            match r {
                Ok(()) => exists|i: int|
                    is_first_of_type(old(self).chunk_seq(), i, chunk_type@)
                        && final(self).chunk_seq() == old(self).chunk_seq().remove(i),
                Err(e) => e == Error::NotFound && lacks_type(old(self).chunk_seq(), chunk_type@)
                    && final(self).chunk_seq() == old(self).chunk_seq(),
            },
    {
        match self.position_of(chunk_type) {
            Some(i) => {
                let ghost before = self.chunks@;
                self.chunks.remove(i);
                assert(is_first_of_type(before, i as int, chunk_type@));
                assert forall|j: int| 0 <= j < self.chunks@.len() implies (#[trigger] self.chunks@[j]).wf() by {
                    if j < i {
                        assert(self.chunks@[j] == before[j]);
                    } else {
                        assert(self.chunks@[j] == before[j + 1]);
                    }
                }
                Ok(())
            },
            None => Err(Error::NotFound),
        }
    }

    /// The earliest chunk whose type code reads as `chunk_type`, if any.
    pub fn chunk_by_type(&self, chunk_type: &str) -> (r: Option<&Chunk>)
        requires
            self.wf(),
        ensures
            match r {
                Some(c) => exists|i: int|
                    is_first_of_type(self.chunk_seq(), i, chunk_type@) && *c == self.chunk_seq()[i],
                None => lacks_type(self.chunk_seq(), chunk_type@),
            },
    {
        match self.position_of(chunk_type) {
            Some(i) => Some(&self.chunks[i]),
            None => None,
        }
    }

    /// A human-readable dump: the signature and chunk count, then one line per chunk
    /// with its type code, length and checksum.
    pub fn to_string(&self) -> (r: String)
        requires
            self.wf(),
        ensures
            r@ == joined(dump_lines(self.chunk_seq())),
    {
        let header = standard_header();
        let mut lines: Vec<String> = Vec::new();
        lines.push(header_line(&header, self.chunks.len()));
        let ghost first = header_line_text(signature(), self.chunks@.len() as usize);
        let mut i: usize = 0;
        assert(lines@.map_values(|s: String| s@) =~= seq![first] + self.chunks@.subrange(0, 0).map_values(
            |c: Chunk| chunk_summary(c),
        ));
        while i < self.chunks.len()
            invariant
                i <= self.chunks@.len(),
                self.wf(),
                first == header_line_text(signature(), self.chunks@.len() as usize),
                lines@.map_values(|s: String| s@) == seq![first] + self.chunks@.subrange(0, i as int).map_values(
                    |c: Chunk| chunk_summary(c),
                ),
            decreases self.chunks.len() - i,
        {
            let line = self.chunks[i].to_string();
            let ghost before = lines@;
            let ghost line_text = line@;
            lines.push(line);
            i = i + 1;
            assert(lines@.map_values(|s: String| s@) =~= before.map_values(|s: String| s@).push(line_text));
            assert(self.chunks@.subrange(0, i as int).map_values(|c: Chunk| chunk_summary(c))
                =~= self.chunks@.subrange(0, i - 1).map_values(|c: Chunk| chunk_summary(c)).push(
                chunk_summary(self.chunks@[i - 1]),
            ));
            assert(lines@.map_values(|s: String| s@) =~= seq![first] + self.chunks@.subrange(0, i as int).map_values(
                |c: Chunk| chunk_summary(c),
            ));
        }
        assert(self.chunks@.subrange(0, i as int) =~= self.chunks@);
        assert(lines@.map_values(|s: String| s@) =~= dump_lines(self.chunk_seq()));
        join_lines(&lines)
    }

    /// The encoded container: signature, then each chunk's encoded form in order.
    pub fn bytes(&self) -> (r: Vec<u8>)
        ensures
            r@ == container_wire(self.chunk_seq()),
    {
        let header = standard_header();
        let mut r: Vec<u8> = Vec::new();
        let mut k: usize = 0;
        while k < 8
            invariant
                k <= 8,
                header@ == signature(),
                r@ == signature().subrange(0, k as int),
            decreases 8 - k,
        {
            r.push(header[k]);
            k = k + 1;
            assert(r@ =~= signature().subrange(0, k as int));
        }
        assert(signature().subrange(0, 8) =~= signature());
        let mut i: usize = 0;
        assert(chunks_wire(self.chunks@.subrange(0, 0)) =~= Seq::<u8>::empty());
        assert(r@ =~= signature() + chunks_wire(self.chunks@.subrange(0, 0)));
        while i < self.chunks.len()
            invariant
                i <= self.chunks@.len(),
                r@ == signature() + chunks_wire(self.chunks@.subrange(0, i as int)),
            decreases self.chunks.len() - i,
        {
            let b = self.chunks[i].bytes();
            proof {
                lemma_chunks_wire_push(self.chunks@.subrange(0, i as int), self.chunks@[i as int]);
                assert(self.chunks@.subrange(0, i as int).push(self.chunks@[i as int])
                    =~= self.chunks@.subrange(0, i + 1));
            }
            append_all(&mut r, &b);
            i = i + 1;
            assert(r@ =~= signature() + chunks_wire(self.chunks@.subrange(0, i as int)));
        }
        assert(self.chunks@.subrange(0, i as int) =~= self.chunks@);
        r
    }
}

} // verus!
