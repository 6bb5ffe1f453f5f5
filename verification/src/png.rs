//! The whole-file container: an eight-byte signature followed by an
//! ordered sequence of chunks.
//!
//! Parsing strips the signature and cuts the rest into consecutive
//! chunk records; serialization is the exact inverse, which the
//! round-trip law at the end of this module proves.

use vstd::prelude::*;
use vstd::slice::slice_subrange;
use vstd::string::StringSliceAdditionalSpecFns;

use crate::chunk::{
    lemma_be32_roundtrip, lemma_chunk_round_trip, push_bytes, spec_be32, spec_chunk_bytes,
    spec_parse_chunk, u32_from_be, Chunk, ChunkModel,
};
use crate::error::PngError;

verus! {

/// The fixed eight-byte signature that opens every PNG file.
pub open spec fn spec_signature() -> Seq<u8> {
    seq![137u8, 80u8, 78u8, 71u8, 13u8, 10u8, 26u8, 10u8]
}

/// The models of a sequence of chunks.
pub open spec fn models_of(cs: Seq<Chunk>) -> Seq<ChunkModel> {
    cs.map_values(|c: Chunk| c@)
}

/// What parsing a stream of consecutive chunk records yields. Each
/// record is cut at `12 + length` bytes, or at the end of the stream
/// when fewer remain (which makes that record's own size check fail);
/// the first failing record aborts the whole parse.
pub open spec fn spec_parse_chunks(bytes: Seq<u8>) -> Result<Seq<ChunkModel>, PngError>
    decreases bytes.len(),
{
    if bytes.len() == 0 {
        Ok(Seq::empty())
    } else if bytes.len() < 12 {
        Err(PngError::InsufficientBytes)
    } else {
        let size = 12 + spec_be32(bytes[0], bytes[1], bytes[2], bytes[3]) as int;
        let end = if bytes.len() < size {
            bytes.len() as int
        } else {
            size
        };
        match spec_parse_chunk(bytes.subrange(0, end)) {
            Err(e) => Err(e),
            Ok(m) => match spec_parse_chunks(bytes.skip(end)) {
                Err(e) => Err(e),
                Ok(ms) => Ok(seq![m] + ms),
            },
        }
    }
}

/// The concatenated serialized forms of a sequence of chunk models.
pub open spec fn spec_serialize_chunks(ms: Seq<ChunkModel>) -> Seq<u8>
    decreases ms.len(),
{
    if ms.len() == 0 {
        Seq::empty()
    } else {
        spec_chunk_bytes(ms[0]) + spec_serialize_chunks(ms.drop_first())
    }
}

/// Joins already-parsed leading chunks with the outcome of parsing
/// the remaining bytes.
pub open spec fn spec_parse_rest(
    prefix: Seq<ChunkModel>,
    rest: Result<Seq<ChunkModel>, PngError>,
) -> Result<Seq<ChunkModel>, PngError> {
    match rest {
        Ok(ms) => Ok(prefix + ms),
        Err(e) => Err(e),
    }
}

/// The position of the first chunk whose tag bytes equal `tag`.
pub open spec fn spec_first_match(cs: Seq<Chunk>, tag: Seq<u8>) -> Option<int>
    decreases cs.len(),
{
    if cs.len() == 0 {
        None
    } else if cs[0]@.tag == tag {
        Some(0int)
    } else {
        match spec_first_match(cs.drop_first(), tag) {
            None => None,
            Some(i) => Some(i + 1),
        }
    }
}

/// A found position is the first match; no position means no match
/// at all.
pub proof fn lemma_first_match_properties(cs: Seq<Chunk>, tag: Seq<u8>)
    ensures
        match spec_first_match(cs, tag) {
            Some(i) => 0 <= i < cs.len() && cs[i]@.tag == tag && forall|j: int|
                0 <= j < i ==> (#[trigger] cs[j])@.tag != tag,
            None => forall|j: int| 0 <= j < cs.len() ==> (#[trigger] cs[j])@.tag != tag,
        },
    decreases cs.len(),
{
    if cs.len() > 0 && cs[0]@.tag != tag {
        let rest = cs.drop_first();
        lemma_first_match_properties(rest, tag);
        assert(forall|j: int| 0 <= j < rest.len() ==> #[trigger] rest[j] == cs[j + 1]);
        match spec_first_match(rest, tag) {
            None => {
                assert forall|j: int| 0 <= j < cs.len() implies (#[trigger] cs[j])@.tag != tag by {
                    if j > 0 {
                        assert(cs[j] == rest[j - 1]);
                    }
                }
            },
            Some(i) => {
                assert(cs[i + 1] == rest[i]);
                assert forall|j: int| 0 <= j < i + 1 implies (#[trigger] cs[j])@.tag != tag by {
                    if j > 0 {
                        assert(cs[j] == rest[j - 1]);
                    }
                }
            },
        }
    }
}

/// Finds the first chunk whose tag bytes equal the text's encoding.
fn first_index(chunks: &Vec<Chunk>, tag: &str) -> (r: Option<usize>)
    ensures
        match r {
            Some(j) => spec_first_match(chunks@, tag.spec_bytes()) == Some(j as int),
            None => spec_first_match(chunks@, tag.spec_bytes()) is None,
        },
{
    let tag_bytes: &[u8] = tag.as_bytes();
    let mut j: usize = 0;
    while j < chunks.len()
        invariant
            j <= chunks@.len(),
            tag_bytes@ == tag.spec_bytes(),
            forall|k: int| 0 <= k < j ==> (#[trigger] chunks@[k])@.tag != tag.spec_bytes(),
        decreases chunks@.len() - j,
    {
        let c: &Chunk = &chunks[j];
        let cb = c.chunk_type().bytes();
        let is_match = if tag_bytes.len() == 4 {
            cb[0] == tag_bytes[0] && cb[1] == tag_bytes[1] && cb[2] == tag_bytes[2] && cb[3]
                == tag_bytes[3]
        } else {
            false
        };
        proof {
            c.lemma_tag_len();
            if c@.tag == tag.spec_bytes() {
                assert(cb@ == c@.tag);
                assert(cb@[0] == tag_bytes@[0] && cb@[1] == tag_bytes@[1] && cb@[2]
                    == tag_bytes@[2] && cb@[3] == tag_bytes@[3]);
                assert(is_match);
            }
            if is_match {
                assert(cb@ =~= tag_bytes@);
            }
        }
        if is_match {
            proof {
                lemma_first_match_properties(chunks@, tag.spec_bytes());
                match spec_first_match(chunks@, tag.spec_bytes()) {
                    None => {
                        assert(chunks@[j as int]@.tag != tag.spec_bytes());
                    },
                    Some(i) => {
                        if i < j {
                            assert(chunks@[i]@.tag != tag.spec_bytes());
                        }
                        if i > j {
                            assert(chunks@[j as int]@.tag != tag.spec_bytes());
                        }
                    },
                }
            }
            return Some(j);
        }
        j = j + 1;
    }
    proof {
        lemma_first_match_properties(chunks@, tag.spec_bytes());
    }
    None
}

/// The PNG-level aggregate: the fixed signature plus an ordered
/// sequence of chunks.
#[derive(Debug)]
pub struct Png {
    chunks: Vec<Chunk>,
}

impl Png {
    /// The chunks the container holds, in file order.
    pub closed spec fn spec_chunks(&self) -> Seq<Chunk> {
        self.chunks@
    }

    /// The abstract content: each chunk's tag and payload, in order.
    pub open spec fn models(&self) -> Seq<ChunkModel> {
        models_of(self.spec_chunks())
    }

    /// Every chunk held is well formed.
    pub open spec fn wf(&self) -> bool {
        forall|i: int|
            0 <= i < self.spec_chunks().len() ==> (#[trigger] self.spec_chunks()[i]).wf()
    }

    /// A container holding the signature and no chunks yet.
    pub fn new() -> (p: Png)
        ensures
            p.spec_chunks() == Seq::<Chunk>::empty(),
            p.wf(),
    {
        Png { chunks: Vec::new() }
    }

    /// The eight signature bytes that open every serialized container.
    pub fn header(&self) -> (r: [u8; 8])
        ensures
            r@ == spec_signature(),
    {
        let r: [u8; 8] = [137, 80, 78, 71, 13, 10, 26, 10];
        proof {
            assert(r@ =~= spec_signature());
        }
        r
    }

    /// The chunk sequence, in file order.
    pub fn chunks(&self) -> (r: &[Chunk])
        ensures
            r@ == self.spec_chunks(),
    {
        self.chunks.as_slice()
    }

    /// Adds one chunk at the end of the sequence; this cannot fail.
    pub fn append_chunk(&mut self, chunk: Chunk)
        ensures
            final(self).spec_chunks() == old(self).spec_chunks().push(chunk),
            old(self).wf() && chunk.wf() ==> final(self).wf(),
    {
        self.chunks.push(chunk);
        proof {
            if old(self).wf() && chunk.wf() {
                let cs = self.spec_chunks();
                assert forall|i: int| 0 <= i < cs.len() implies (#[trigger] cs[i]).wf() by {
                    if i < old(self).spec_chunks().len() {
                        assert(self.spec_chunks()[i] == old(self).spec_chunks()[i]);
                    } else {
                        assert(self.spec_chunks()[i] == chunk);
                    }
                }
            }
        }
    }

    /// The first chunk whose tag renders as the given text, if any;
    /// absence is an ordinary outcome, not an error.
    pub fn chunk_by_type(&self, chunk_type: &str) -> (r: Option<&Chunk>)
        ensures
            match spec_first_match(self.spec_chunks(), chunk_type.spec_bytes()) {
                Some(i) => r is Some && *r.unwrap() == self.spec_chunks()[i],
                None => r is None,
            },
    {
        proof {
            lemma_first_match_properties(self.chunks@, chunk_type.spec_bytes());
        }
        match first_index(&self.chunks, chunk_type) {
            Some(j) => Some(&self.chunks[j]),
            None => None,
        }
    }

    /// Removes the first chunk whose tag renders as the given text
    /// and returns it; later chunks with the same tag stay in place.
    /// Fails exactly when no chunk matches.
    pub fn remove_chunk(&mut self, chunk_type: &str) -> (r: Result<Chunk, PngError>)
        ensures
            match spec_first_match(old(self).spec_chunks(), chunk_type.spec_bytes()) {
                Some(i) => r is Ok && r.unwrap() == old(self).spec_chunks()[i]
                    && final(self).spec_chunks() == old(self).spec_chunks().remove(i),
                None => r == Err::<Chunk, PngError>(PngError::ChunkNotFound)
                    && final(self).spec_chunks() == old(self).spec_chunks(),
            },
            old(self).wf() ==> final(self).wf(),
    {
        proof {
            lemma_first_match_properties(self.chunks@, chunk_type.spec_bytes());
        }
        match first_index(&self.chunks, chunk_type) {
            Some(j) => {
                let c = self.chunks.remove(j);
                proof {
                    if old(self).wf() {
                        let cs = self.spec_chunks();
                        assert forall|i: int| 0 <= i < cs.len() implies (#[trigger] cs[i]).wf() by {
                            if i < j {
                                assert(cs[i] == old(self).spec_chunks()[i]);
                            } else {
                                assert(cs[i] == old(self).spec_chunks()[i + 1]);
                            }
                        }
                    }
                }
                Ok(c)
            },
            None => Err(PngError::ChunkNotFound),
        }
    }

    /// Parses a whole-file buffer: the signature, then consecutive
    /// chunk records until the bytes are exhausted. A single corrupt
    /// chunk fails the whole parse with that chunk's error.
    pub fn try_from_bytes(bytes: &[u8]) -> (r: Result<Png, PngError>)
        ensures
            match r {
                Ok(p) => bytes@.len() >= 8 && bytes@.subrange(0, 8) == spec_signature()
                    && spec_parse_chunks(bytes@.skip(8)) == Ok::<Seq<ChunkModel>, PngError>(
                    p.models(),
                ) && p.wf(),
                Err(e) => (e == PngError::InvalidSignature && (bytes@.len() < 8 || bytes@.subrange(
                    0,
                    8,
                ) != spec_signature())) || (bytes@.len() >= 8 && bytes@.subrange(0, 8)
                    == spec_signature() && spec_parse_chunks(bytes@.skip(8)) == Err::<
                    Seq<ChunkModel>,
                    PngError,
                >(e)),
            },
    {
        let n = bytes.len();
        if n < 8 {
            return Err(PngError::InvalidSignature);
        }
        let ok_sig = bytes[0] == 137 && bytes[1] == 80 && bytes[2] == 78 && bytes[3] == 71
            && bytes[4] == 13 && bytes[5] == 10 && bytes[6] == 26 && bytes[7] == 10;
        proof {
            if bytes@.subrange(0, 8) == spec_signature() {
                assert(bytes@.subrange(0, 8)[0] == 137 && bytes@.subrange(0, 8)[1] == 80
                    && bytes@.subrange(0, 8)[2] == 78 && bytes@.subrange(0, 8)[3] == 71
                    && bytes@.subrange(0, 8)[4] == 13 && bytes@.subrange(0, 8)[5] == 10
                    && bytes@.subrange(0, 8)[6] == 26 && bytes@.subrange(0, 8)[7] == 10);
            }
            if ok_sig {
                assert(bytes@.subrange(0, 8) =~= spec_signature());
            }
        }
        if !ok_sig {
            return Err(PngError::InvalidSignature);
        }
        let mut chunks: Vec<Chunk> = Vec::new();
        let mut cursor: usize = 8;
        while cursor < n
            invariant
                8 <= cursor <= n,
                n == bytes@.len(),
                bytes@.subrange(0, 8) == spec_signature(),
                spec_parse_chunks(bytes@.skip(8)) == spec_parse_rest(
                    models_of(chunks@),
                    spec_parse_chunks(bytes@.skip(cursor as int)),
                ),
                forall|i: int| 0 <= i < chunks@.len() ==> (#[trigger] chunks@[i]).wf(),
            decreases n - cursor,
        {
            let ghost rbytes = bytes@.skip(cursor as int);
            let rem = n - cursor;
            if rem < 12 {
                proof {
                    assert(rbytes.len() == rem);
                    assert(spec_parse_chunks(rbytes) == Err::<Seq<ChunkModel>, PngError>(
                        PngError::InsufficientBytes,
                    ));
                }
                return Err(PngError::InsufficientBytes);
            }
            let length_u32: u32 = u32_from_be(
                bytes[cursor],
                bytes[cursor + 1],
                bytes[cursor + 2],
                bytes[cursor + 3],
            );
            proof {
                assert(rbytes[0] == bytes@[cursor as int] && rbytes[1] == bytes@[cursor as int + 1]
                    && rbytes[2] == bytes@[cursor as int + 2] && rbytes[3] == bytes@[cursor as int
                    + 3]);
            }
            let size_u64: u64 = 12u64 + (length_u32 as u64);
            let take: usize = if (rem as u64) < size_u64 {
                rem
            } else {
                size_u64 as usize
            };
            let ghost end = if rbytes.len() < 12 + length_u32 as int {
                rbytes.len() as int
            } else {
                12 + length_u32 as int
            };
            proof {
                assert(take as int == end);
            }
            let slice: &[u8] = slice_subrange(bytes, cursor, cursor + take);
            proof {
                assert(slice@ =~= rbytes.subrange(0, end));
            }
            let ghost prev = chunks@;
            match Chunk::try_from_bytes(slice) {
                Err(e) => {
                    proof {
                        assert(spec_parse_chunk(rbytes.subrange(0, end)) == Err::<
                            ChunkModel,
                            PngError,
                        >(e));
                        assert(spec_parse_chunks(rbytes) == Err::<Seq<ChunkModel>, PngError>(e));
                    }
                    return Err(e);
                },
                Ok(c) => {
                    chunks.push(c);
                    cursor = cursor + take;
                    proof {
                        assert(spec_parse_chunk(rbytes.subrange(0, end)) == Ok::<
                            ChunkModel,
                            PngError,
                        >(c@));
                        assert(rbytes.skip(end) =~= bytes@.skip(cursor as int));
                        assert(spec_parse_chunks(rbytes) == (match spec_parse_chunks(
                            rbytes.skip(end),
                        ) {
                            Err(e) => Err(e),
                            Ok(ms) => Ok(seq![c@] + ms),
                        }));
                        assert(models_of(chunks@) =~= models_of(prev).push(c@));
                        match spec_parse_chunks(bytes@.skip(cursor as int)) {
                            Err(e) => {
                                assert(spec_parse_chunks(bytes@.skip(8)) == Err::<
                                    Seq<ChunkModel>,
                                    PngError,
                                >(e));
                            },
                            Ok(ms) => {
                                assert(models_of(prev) + (seq![c@] + ms) =~= models_of(chunks@)
                                    + ms);
                            },
                        }
                    }
                },
            }
        }
        proof {
            assert(bytes@.skip(cursor as int) =~= Seq::<u8>::empty());
            assert(spec_parse_chunks(bytes@.skip(cursor as int)) == Ok::<
                Seq<ChunkModel>,
                PngError,
            >(Seq::empty()));
            assert(models_of(chunks@) + Seq::<ChunkModel>::empty() =~= models_of(chunks@));
        }
        Ok(Png { chunks })
    }

    /// The serialized container: the signature, then each chunk's
    /// serialized record, in sequence order.
    pub fn as_bytes(&self) -> (r: Vec<u8>)
        requires
            self.wf(),
        ensures
            r@ == spec_signature() + spec_serialize_chunks(self.models()),
    {
        let mut out: Vec<u8> = Vec::new();
        out.push(137);
        out.push(80);
        out.push(78);
        out.push(71);
        out.push(13);
        out.push(10);
        out.push(26);
        out.push(10);
        proof {
            assert(out@ =~= spec_signature());
            assert(self.spec_chunks().take(0) =~= Seq::<Chunk>::empty());
            assert(models_of(Seq::<Chunk>::empty()) =~= Seq::<ChunkModel>::empty());
            assert(out@ =~= spec_signature() + spec_serialize_chunks(
                models_of(self.spec_chunks().take(0)),
            ));
        }
        let mut i: usize = 0;
        while i < self.chunks.len()
            invariant
                i <= self.chunks@.len(),
                self.wf(),
                out@ == spec_signature() + spec_serialize_chunks(
                    models_of(self.spec_chunks().take(i as int)),
                ),
            decreases self.chunks@.len() - i,
        {
            let c: &Chunk = &self.chunks[i];
            let cb = c.as_bytes();
            push_bytes(&mut out, cb.as_slice());
            proof {
                assert(cb@ == spec_chunk_bytes(c@));
                let taken = self.spec_chunks().take(i as int);
                assert(self.spec_chunks().take(i as int + 1) =~= taken.push(*c));
                assert(models_of(taken.push(*c)) =~= models_of(taken).push(c@));
                lemma_serialize_push(models_of(taken), c@);
            }
            i = i + 1;
        }
        proof {
            assert(self.spec_chunks().take(self.spec_chunks().len() as int) =~= self.spec_chunks());
        }
        out
    }
}

/// Serializing one more chunk appends its bytes at the end.
proof fn lemma_serialize_push(ms: Seq<ChunkModel>, m: ChunkModel)
    ensures
        spec_serialize_chunks(ms.push(m)) == spec_serialize_chunks(ms) + spec_chunk_bytes(m),
    decreases ms.len(),
{
    if ms.len() == 0 {
        assert(ms.push(m)[0] == m);
        assert(spec_serialize_chunks(Seq::<ChunkModel>::empty()) == Seq::<u8>::empty());
        assert(ms.push(m).drop_first() =~= Seq::<ChunkModel>::empty());
        assert(spec_serialize_chunks(ms.push(m)) == spec_chunk_bytes(m) + spec_serialize_chunks(
            Seq::<ChunkModel>::empty(),
        ));
        assert(spec_chunk_bytes(m) + Seq::<u8>::empty() =~= spec_chunk_bytes(m));
        assert(spec_serialize_chunks(ms) + spec_chunk_bytes(m) =~= spec_chunk_bytes(m));
    } else {
        assert(ms.push(m)[0] == ms[0]);
        assert(ms.push(m).drop_first() =~= ms.drop_first().push(m));
        lemma_serialize_push(ms.drop_first(), m);
        assert(spec_serialize_chunks(ms.push(m)) =~= spec_serialize_chunks(ms) + spec_chunk_bytes(
            m,
        ));
    }
}

/// Unfolds one step of `spec_parse_chunks` once the leading record is
/// known to parse.
proof fn lemma_parse_chunks_step(bytes: Seq<u8>, m: ChunkModel, size: int)
    requires
        12 <= size <= bytes.len(),
        size == 12 + spec_be32(bytes[0], bytes[1], bytes[2], bytes[3]) as int,
        spec_parse_chunk(bytes.subrange(0, size)) == Ok::<ChunkModel, PngError>(m),
    ensures
        spec_parse_chunks(bytes) == (match spec_parse_chunks(bytes.skip(size)) {
            Ok(ms) => Ok::<Seq<ChunkModel>, PngError>(seq![m] + ms),
            Err(e) => Err(e),
        }),
{
}

/// Parsing the serialization of well-formed chunk models yields the
/// same models again.
#[verifier::spinoff_prover]
#[verifier::rlimit(100)]
proof fn lemma_chunks_round_trip(ms: Seq<ChunkModel>)
    requires
        forall|i: int| 0 <= i < ms.len() ==> (#[trigger] ms[i]).wf(),
    ensures
        spec_parse_chunks(spec_serialize_chunks(ms)) == Ok::<Seq<ChunkModel>, PngError>(ms),
    decreases ms.len(),
{
    if ms.len() == 0 {
        assert(spec_serialize_chunks(ms).len() == 0);
        assert(spec_parse_chunks(spec_serialize_chunks(ms)) == Ok::<Seq<ChunkModel>, PngError>(
            Seq::empty(),
        ));
        assert(ms =~= Seq::<ChunkModel>::empty());
    } else {
        let m = ms[0];
        assert(m.wf());
        let tail = ms.drop_first();
        let head = spec_chunk_bytes(m);
        let rest = spec_serialize_chunks(tail);
        let bytes = spec_serialize_chunks(ms);
        assert(bytes == head + rest);
        assert(head.len() == 12 + m.data.len());
        let size = 12 + m.data.len() as int;
        assert(spec_be32(bytes[0], bytes[1], bytes[2], bytes[3]) == m.data.len() as u32) by {
            assert(bytes[0] == head[0] && bytes[1] == head[1] && bytes[2] == head[2] && bytes[3]
                == head[3]);
            lemma_be32_roundtrip(m.data.len() as u32);
        }
        assert(spec_parse_chunk(bytes.subrange(0, size)) == Ok::<ChunkModel, PngError>(m)) by {
            lemma_chunk_round_trip(m);
            assert(bytes.subrange(0, size) =~= head);
        }
        lemma_parse_chunks_step(bytes, m, size);
        assert(bytes.skip(size) =~= rest);
        assert forall|i: int| 0 <= i < tail.len() implies (#[trigger] tail[i]).wf() by {
            assert(tail[i] == ms[i + 1]);
        }
        lemma_chunks_round_trip(tail);
        assert(seq![m] + tail =~= ms);
    }
}

/// Law: serializing a well-formed container and parsing the result
/// yields the same chunk sequence — same tags, same payloads, same
/// order.
pub proof fn lemma_container_round_trip(p: Png)
    requires
        p.wf(),
    ensures
        ({
            let bytes = spec_signature() + spec_serialize_chunks(p.models());
            bytes.len() >= 8 && bytes.subrange(0, 8) == spec_signature() && spec_parse_chunks(
                bytes.skip(8),
            ) == Ok::<Seq<ChunkModel>, PngError>(p.models())
        }),
{
    let bytes = spec_signature() + spec_serialize_chunks(p.models());
    assert(bytes.subrange(0, 8) =~= spec_signature());
    assert(bytes.skip(8) =~= spec_serialize_chunks(p.models()));
    assert forall|i: int| 0 <= i < p.models().len() implies (#[trigger] p.models()[i]).wf() by {
        assert(p.models()[i] == p.spec_chunks()[i]@);
        assert(p.spec_chunks()[i].wf());
    }
    lemma_chunks_round_trip(p.models());
}

} // verus!
