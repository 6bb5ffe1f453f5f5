//! One length-prefixed, checksummed chunk record.
//!
//! On the wire a chunk is `length (4 bytes, big-endian) ++ tag (4
//! bytes) ++ payload (length bytes) ++ checksum (4 bytes, big-endian)`,
//! where the checksum is CRC-32 over `tag ++ payload`. The parse and
//! serialize directions are both specified against the same byte-level
//! model, which makes the round-trip law provable.

use vstd::prelude::*;
use vstd::slice::{slice_subrange, slice_to_vec};
use vstd::string::StringExecFns;
use vstd::utf8::{decode_utf8, valid_utf8};

use crate::chunk_type::{all_ascii_letters, ChunkType};
use crate::error::PngError;
use crate::text::{
    ascii_chars_of, dec_bytes, lemma_ascii_bytes_decode, u32_to_decimal_string,
    utf8_string_from_bytes,
};

verus! {

/// The checksum that `crc::Crc::<u32>::new(&crc::CRC_32_ISO_HDLC)`
/// computes for a byte sequence. The algorithm is fixed, so the result
/// is a function of the bytes alone; nothing more is assumed of it.
pub uninterp spec fn crc32_of(bytes: Seq<u8>) -> u32;

/// Relies on `crc::Crc::<u32>::checksum` with the `CRC_32_ISO_HDLC`
/// algorithm: a pure function of the input bytes, named `crc32_of`.
#[verifier::external_body]
fn crc32_checksum(bytes: &[u8]) -> (r: u32)
    ensures
        r == crc32_of(bytes@),
{
    crc::Crc::<u32>::new(&crc::CRC_32_ISO_HDLC).checksum(bytes)
}

/// The big-endian 32-bit value stored in four bytes.
pub open spec fn spec_be32(b0: u8, b1: u8, b2: u8, b3: u8) -> u32 {
    ((b0 as u32) << 24) | ((b1 as u32) << 16) | ((b2 as u32) << 8) | (b3 as u32)
}

/// The four big-endian bytes of a 32-bit value.
pub open spec fn be32_bytes(n: u32) -> Seq<u8> {
    seq![
        ((n >> 24) & 0xff) as u8,
        ((n >> 16) & 0xff) as u8,
        ((n >> 8) & 0xff) as u8,
        (n & 0xff) as u8,
    ]
}

/// Reading back the four big-endian bytes of `n` gives `n` again.
pub proof fn lemma_be32_roundtrip(n: u32)
    ensures
        spec_be32(be32_bytes(n)[0], be32_bytes(n)[1], be32_bytes(n)[2], be32_bytes(n)[3]) == n,
{
    let b0 = ((n >> 24) & 0xff) as u8;
    let b1 = ((n >> 16) & 0xff) as u8;
    let b2 = ((n >> 8) & 0xff) as u8;
    let b3 = (n & 0xff) as u8;
    assert((((b0 as u32) << 24) | ((b1 as u32) << 16) | ((b2 as u32) << 8) | (b3 as u32))
        == n) by (bit_vector)
        requires
            b0 == ((n >> 24) & 0xff) as u8,
            b1 == ((n >> 16) & 0xff) as u8,
            b2 == ((n >> 8) & 0xff) as u8,
            b3 == (n & 0xff) as u8,
    ;
}

/// The abstract content of one chunk: its tag and payload bytes.
/// Length and checksum are derived, so they do not appear here.
#[verifier::ext_equal]
pub struct ChunkModel {
    pub tag: Seq<u8>,
    pub data: Seq<u8>,
}

impl ChunkModel {
    /// A representable chunk: a four-letter tag and a payload whose
    /// length fits the 32-bit length field.
    pub open spec fn wf(&self) -> bool {
        &&& self.tag.len() == 4
        &&& all_ascii_letters(self.tag)
        &&& self.data.len() <= u32::MAX
    }
}

/// The serialized form of a chunk with the given stored fields.
pub open spec fn spec_serialize_fields(length: u32, tag: Seq<u8>, data: Seq<u8>, crc: u32) -> Seq<
    u8,
> {
    be32_bytes(length) + tag + data + be32_bytes(crc)
}

/// The serialized form of a chunk model, its length and checksum
/// recomputed from tag and payload.
pub open spec fn spec_chunk_bytes(m: ChunkModel) -> Seq<u8> {
    spec_serialize_fields(m.data.len() as u32, m.tag, m.data, crc32_of(m.tag + m.data))
}

/// What parsing one serialized chunk record yields: the model on
/// success, and the exact failure otherwise.
pub open spec fn spec_parse_chunk(bytes: Seq<u8>) -> Result<ChunkModel, PngError> {
    if bytes.len() < 12 {
        Err(PngError::InsufficientBytes)
    } else {
        let length = spec_be32(bytes[0], bytes[1], bytes[2], bytes[3]) as int;
        if bytes.len() != 12 + length {
            Err(PngError::LengthMismatch)
        } else {
            let tag = bytes.subrange(4, 8);
            let data = bytes.subrange(8, 8 + length);
            let stored = spec_be32(
                bytes[8 + length],
                bytes[9 + length],
                bytes[10 + length],
                bytes[11 + length],
            );
            if !all_ascii_letters(tag) {
                Err(PngError::InvalidTagBytes)
            } else if stored != crc32_of(tag + data) {
                Err(PngError::ChecksumMismatch)
            } else {
                Ok(ChunkModel { tag, data })
            }
        }
    }
}

/// One checksummed record: a tag, a payload, and the derived length
/// and CRC-32 fields.
#[derive(Debug)]
pub struct Chunk {
    length: u32,
    chunk_type: ChunkType,
    data: Vec<u8>,
    crc: u32,
}

impl View for Chunk {
    type V = ChunkModel;

    closed spec fn view(&self) -> ChunkModel {
        ChunkModel { tag: self.chunk_type@, data: self.data@ }
    }
}

/// Appends a 32-bit value to `out` as four big-endian bytes.
fn push_be32(out: &mut Vec<u8>, n: u32)
    ensures
        final(out)@ == old(out)@ + be32_bytes(n),
{
    out.push(((n >> 24) & 0xff) as u8);
    out.push(((n >> 16) & 0xff) as u8);
    out.push(((n >> 8) & 0xff) as u8);
    out.push((n & 0xff) as u8);
    proof {
        assert(out@ =~= old(out)@ + be32_bytes(n));
    }
}

/// Appends a byte slice to `out`.
pub(crate) fn push_bytes(out: &mut Vec<u8>, src: &[u8])
    ensures
        final(out)@ == old(out)@ + src@,
{
    let mut i: usize = 0;
    while i < src.len()
        invariant
            i <= src.len(),
            out@ == old(out)@ + src@.subrange(0, i as int),
        decreases src.len() - i,
    {
        out.push(src[i]);
        i = i + 1;
        proof {
            assert(out@ =~= old(out)@ + src@.subrange(0, i as int));
        }
    }
    proof {
        assert(out@ =~= old(out)@ + src@);
    }
}

/// Reads the big-endian 32-bit value stored in four bytes.
pub(crate) fn u32_from_be(b0: u8, b1: u8, b2: u8, b3: u8) -> (r: u32)
    ensures
        r == spec_be32(b0, b1, b2, b3),
{
    ((b0 as u32) << 24) | ((b1 as u32) << 16) | ((b2 as u32) << 8) | (b3 as u32)
}

impl Chunk {
    /// A chunk whose stored length and checksum agree with its tag
    /// and payload.
    pub open spec fn wf(&self) -> bool {
        &&& self@.wf()
        &&& self.spec_length() == self@.data.len()
        &&& self.spec_crc() == crc32_of(self@.tag + self@.data)
    }

    /// The stored length field.
    pub closed spec fn spec_length(&self) -> u32 {
        self.length
    }

    /// The stored checksum field.
    pub closed spec fn spec_crc(&self) -> u32 {
        self.crc
    }

    /// A chunk's tag always holds exactly four bytes.
    pub proof fn lemma_tag_len(&self)
        ensures
            self@.tag.len() == 4,
    {
        self.chunk_type.lemma_view_len();
    }

    /// Builds a chunk from a tag and a payload, computing the length
    /// and checksum fields; this cannot fail.
    pub fn new(chunk_type: ChunkType, data: Vec<u8>) -> (c: Chunk)
        requires
            data@.len() <= u32::MAX,
        ensures
            c@.tag == chunk_type@,
            c@.data == data@,
            c.wf(),
    {
        proof {
            use_type_invariant(&chunk_type);
            chunk_type.lemma_view_len();
        }
        let length: u32 = data.len() as u32;
        let tag = chunk_type.bytes();
        let mut crc_input: Vec<u8> = Vec::new();
        crc_input.push(tag[0]);
        crc_input.push(tag[1]);
        crc_input.push(tag[2]);
        crc_input.push(tag[3]);
        push_bytes(&mut crc_input, data.as_slice());
        proof {
            assert(crc_input@ =~= chunk_type@ + data@);
        }
        let crc: u32 = crc32_checksum(crc_input.as_slice());
        Chunk { length, chunk_type, data, crc }
    }

    /// Parses one serialized chunk record, which must cover the whole
    /// slice; reports the exact failure otherwise.
    pub fn try_from_bytes(value: &[u8]) -> (r: Result<Chunk, PngError>)
        ensures
            match r {
                Ok(c) => spec_parse_chunk(value@) == Ok::<ChunkModel, PngError>(c@) && c.wf(),
                Err(e) => spec_parse_chunk(value@) == Err::<ChunkModel, PngError>(e),
            },
    {
        let n = value.len();
        if n < 12 {
            return Err(PngError::InsufficientBytes);
        }
        let length_u32: u32 = u32_from_be(value[0], value[1], value[2], value[3]);
        if (n as u64) != 12u64 + (length_u32 as u64) {
            return Err(PngError::LengthMismatch);
        }
        let tag_arr: [u8; 4] = [value[4], value[5], value[6], value[7]];
        proof {
            assert(tag_arr@ =~= value@.subrange(4, 8));
        }
        let chunk_type = match ChunkType::try_from_bytes(tag_arr) {
            Ok(t) => t,
            Err(e) => {
                return Err(e);
            },
        };
        let data_slice: &[u8] = slice_subrange(value, 8, n - 4);
        let data: Vec<u8> = slice_to_vec(data_slice);
        let stored: u32 = u32_from_be(value[n - 4], value[n - 3], value[n - 2], value[n - 1]);
        let mut crc_input: Vec<u8> = Vec::new();
        crc_input.push(tag_arr[0]);
        crc_input.push(tag_arr[1]);
        crc_input.push(tag_arr[2]);
        crc_input.push(tag_arr[3]);
        push_bytes(&mut crc_input, data_slice);
        proof {
            assert(crc_input@ =~= value@.subrange(4, 8) + value@.subrange(8, n as int - 4));
        }
        let computed: u32 = crc32_checksum(crc_input.as_slice());
        if computed != stored {
            return Err(PngError::ChecksumMismatch);
        }
        let c = Chunk { length: length_u32, chunk_type, data, crc: stored };
        proof {
            assert(c@.tag =~= value@.subrange(4, 8));
            assert(c@.data =~= value@.subrange(8, n as int - 4));
            assert(spec_parse_chunk(value@) == Ok::<ChunkModel, PngError>(c@));
        }
        Ok(c)
    }

    /// The payload's byte count, as stored in the length field.
    pub fn length(&self) -> (r: u32)
        ensures
            r == self.spec_length(),
    {
        self.length
    }

    /// The stored CRC-32 checksum.
    pub fn crc(&self) -> (r: u32)
        ensures
            r == self.spec_crc(),
    {
        self.crc
    }

    /// The chunk's tag.
    pub fn chunk_type(&self) -> (r: &ChunkType)
        ensures
            r@ == self@.tag,
    {
        &self.chunk_type
    }

    /// The raw payload bytes.
    pub fn data(&self) -> (r: &[u8])
        ensures
            r@ == self@.data,
    {
        self.data.as_slice()
    }

    /// The payload decoded as UTF-8 text; fails exactly when the
    /// payload is not valid UTF-8.
    pub fn data_as_string(&self) -> (r: Result<String, PngError>)
        ensures
            match r {
                Ok(s) => valid_utf8(self@.data) && s@ == decode_utf8(self@.data),
                Err(e) => e == PngError::NonTextPayload && !valid_utf8(self@.data),
            },
    {
        let v: Vec<u8> = slice_to_vec(self.data.as_slice());
        match utf8_string_from_bytes(v) {
            Some(s) => Ok(s),
            None => Err(PngError::NonTextPayload),
        }
    }

    /// The serialized record: length, tag, payload and checksum, in
    /// that order; for a well-formed chunk this is `spec_chunk_bytes`
    /// of its model.
    pub fn as_bytes(&self) -> (r: Vec<u8>)
        ensures
            r@ == spec_serialize_fields(self.spec_length(), self@.tag, self@.data, self.spec_crc()),
            self.wf() ==> r@ == spec_chunk_bytes(self@),
    {
        let mut out: Vec<u8> = Vec::new();
        push_be32(&mut out, self.length);
        let tag = self.chunk_type.bytes();
        out.push(tag[0]);
        out.push(tag[1]);
        out.push(tag[2]);
        out.push(tag[3]);
        push_bytes(&mut out, self.data.as_slice());
        push_be32(&mut out, self.crc);
        proof {
            self.chunk_type.lemma_view_len();
            assert(out@ =~= spec_serialize_fields(
                self.spec_length(),
                self@.tag,
                self@.data,
                self.spec_crc(),
            ));
        }
        out
    }

    /// The chunk rendered as text: its length, tag, payload and
    /// checksum, concatenated; fails exactly when the payload is not
    /// valid UTF-8 text.
    pub fn to_text(&self) -> (r: Result<String, PngError>)
        ensures
            match r {
                Ok(s) => valid_utf8(self@.data) && s@ == ascii_chars_of(
                    dec_bytes(self.spec_length() as nat),
                ) + ascii_chars_of(self@.tag) + decode_utf8(self@.data) + ascii_chars_of(
                    dec_bytes(self.spec_crc() as nat),
                ),
                Err(e) => e == PngError::NonTextPayload && !valid_utf8(self@.data),
            },
    {
        let payload = match self.data_as_string() {
            Ok(s) => s,
            Err(e) => {
                return Err(e);
            },
        };
        let mut out = u32_to_decimal_string(self.length);
        let tag_text = self.chunk_type.to_text();
        out.append(tag_text.as_str());
        out.append(payload.as_str());
        let crc_text = u32_to_decimal_string(self.crc);
        out.append(crc_text.as_str());
        Ok(out)
    }
}

/// Law: serializing a representable chunk and parsing the result
/// yields that chunk again — the same tag, payload and checksum.
pub proof fn lemma_chunk_round_trip(m: ChunkModel)
    requires
        m.wf(),
    ensures
        spec_parse_chunk(spec_chunk_bytes(m)) == Ok::<ChunkModel, PngError>(m),
{
    let len_field: u32 = m.data.len() as u32;
    let crc_field: u32 = crc32_of(m.tag + m.data);
    let bytes = spec_chunk_bytes(m);
    assert(bytes.len() == 12 + m.data.len());
    lemma_be32_roundtrip(len_field);
    assert(bytes[0] == be32_bytes(len_field)[0] && bytes[1] == be32_bytes(len_field)[1]
        && bytes[2] == be32_bytes(len_field)[2] && bytes[3] == be32_bytes(len_field)[3]);
    assert(spec_be32(bytes[0], bytes[1], bytes[2], bytes[3]) == len_field);
    let length = len_field as int;
    assert(bytes.subrange(4, 8) =~= m.tag);
    assert(bytes.subrange(8, 8 + length) =~= m.data);
    lemma_be32_roundtrip(crc_field);
    assert(bytes[8 + length] == be32_bytes(crc_field)[0] && bytes[9 + length] == be32_bytes(
        crc_field,
    )[1] && bytes[10 + length] == be32_bytes(crc_field)[2] && bytes[11 + length] == be32_bytes(
        crc_field,
    )[3]);
    assert(spec_be32(bytes[8 + length], bytes[9 + length], bytes[10 + length], bytes[11 + length])
        == crc_field);
    assert(spec_parse_chunk(bytes) == Ok::<ChunkModel, PngError>(
        ChunkModel { tag: bytes.subrange(4, 8), data: bytes.subrange(8, 8 + length) },
    ));
    assert(ChunkModel { tag: bytes.subrange(4, 8), data: bytes.subrange(8, 8 + length) } =~= m);
}

/// Law: a parsed record cannot be altered unnoticed. Changing any
/// byte of the tag or payload region while keeping the stored
/// checksum makes the parse fail: with an invalid-tag error when the
/// new tag leaves the letter ranges, and otherwise with a
/// checksum-mismatch error whenever the checksum of the altered
/// content differs from the original one.
pub proof fn lemma_corruption_detected(bytes: Seq<u8>, i: int, b: u8)
    requires
        spec_parse_chunk(bytes) is Ok,
        4 <= i < bytes.len() - 4,
        b != bytes[i],
    ensures
        ({
            let altered = bytes.update(i, b);
            let new_tag = altered.subrange(4, 8);
            let new_data = altered.subrange(8, altered.len() - 4);
            if !all_ascii_letters(new_tag) {
                spec_parse_chunk(altered) == Err::<ChunkModel, PngError>(PngError::InvalidTagBytes)
            } else {
                crc32_of(new_tag + new_data) != crc32_of(
                    bytes.subrange(4, 8) + bytes.subrange(8, bytes.len() - 4),
                ) ==> spec_parse_chunk(altered) == Err::<ChunkModel, PngError>(
                    PngError::ChecksumMismatch,
                )
            }
        }),
{
    let altered = bytes.update(i, b);
    assert(altered.len() == bytes.len());
    let length = spec_be32(bytes[0], bytes[1], bytes[2], bytes[3]) as int;
    assert(altered[0] == bytes[0] && altered[1] == bytes[1] && altered[2] == bytes[2] && altered[3]
        == bytes[3]);
    assert(bytes.len() == 12 + length);
    assert(altered[8 + length] == bytes[8 + length] && altered[9 + length] == bytes[9 + length]
        && altered[10 + length] == bytes[10 + length] && altered[11 + length] == bytes[11
        + length]);
    assert(bytes.subrange(8, bytes.len() - 4) =~= bytes.subrange(8, 8 + length));
    assert(altered.subrange(8, altered.len() - 4) =~= altered.subrange(8, 8 + length));
    let stored = spec_be32(bytes[8 + length], bytes[9 + length], bytes[10 + length], bytes[11
        + length]);
    assert(stored == crc32_of(bytes.subrange(4, 8) + bytes.subrange(8, 8 + length)));
}

} // verus!
