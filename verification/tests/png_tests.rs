use pngme::chunk::Chunk;
use pngme::chunk_type::ChunkType;
use pngme::error::PngError;
use pngme::png::Png;

const SIGNATURE: [u8; 8] = [137, 80, 78, 71, 13, 10, 26, 10];

fn chunk_from(tag: &str, payload: &[u8]) -> Chunk {
    let chunk_type = ChunkType::from_str(tag).unwrap();
    Chunk::new(chunk_type, payload.to_vec())
}

fn canonical_chunk_bytes() -> Vec<u8> {
    let data_length: u32 = 42;
    let chunk_type = "RuSt".as_bytes();
    let message_bytes = "This is where your secret message will be!".as_bytes();
    let crc: u32 = 2882656334;

    data_length
        .to_be_bytes()
        .iter()
        .chain(chunk_type.iter())
        .chain(message_bytes.iter())
        .chain(crc.to_be_bytes().iter())
        .copied()
        .collect()
}

#[test]
fn test_chunk_round_trip() {
    let original = chunk_from("teSt", b"some payload bytes");
    let bytes = original.as_bytes();
    assert_eq!(bytes.len(), 12 + original.length() as usize);
    let reparsed = Chunk::try_from_bytes(&bytes).unwrap();
    assert_eq!(reparsed.chunk_type().bytes(), original.chunk_type().bytes());
    assert_eq!(reparsed.data(), original.data());
    assert_eq!(reparsed.crc(), original.crc());
    assert_eq!(reparsed.length(), original.length());
}

#[test]
fn test_container_round_trip() {
    let mut png = Png::new();
    png.append_chunk(chunk_from("RuSt", b"first"));
    png.append_chunk(chunk_from("teSt", b""));
    png.append_chunk(chunk_from("abCd", b"third"));
    let bytes = png.as_bytes();
    let reparsed = Png::try_from_bytes(&bytes).unwrap();
    let chunks = reparsed.chunks();
    assert_eq!(chunks.len(), 3);
    assert_eq!(chunks[0].chunk_type().to_text(), "RuSt");
    assert_eq!(chunks[0].data(), b"first");
    assert_eq!(chunks[1].chunk_type().to_text(), "teSt");
    assert_eq!(chunks[1].data(), b"");
    assert_eq!(chunks[2].chunk_type().to_text(), "abCd");
    assert_eq!(chunks[2].data(), b"third");
    assert_eq!(reparsed.as_bytes(), bytes);
}

#[test]
fn test_checksum_sensitivity_bit_flips() {
    let bytes = canonical_chunk_bytes();
    assert!(Chunk::try_from_bytes(&bytes).is_ok());
    // Flip each bit of the tag and payload regions, holding the
    // stored checksum fixed; every altered record must be rejected.
    for pos in 4..bytes.len() - 4 {
        for bit in 0..8 {
            let mut altered = bytes.clone();
            altered[pos] ^= 1 << bit;
            let r = Chunk::try_from_bytes(&altered);
            assert!(r.is_err());
            let err = r.unwrap_err();
            assert!(
                err == PngError::ChecksumMismatch || (pos < 8 && err == PngError::InvalidTagBytes)
            );
        }
    }
}

#[test]
fn test_tag_validity_partition() {
    // Construction succeeds exactly when every byte is an ASCII
    // letter; probe every value in each byte position.
    for b in 0..=255u8 {
        let is_letter = (65..=90).contains(&b) || (97..=122).contains(&b);
        for pos in 0..4 {
            let mut tag = [82, 117, 83, 116];
            tag[pos] = b;
            assert_eq!(ChunkType::try_from_bytes(tag).is_ok(), is_letter);
        }
    }
    // The reserved bit never blocks construction: "Rust" builds but
    // reports itself as not fully valid.
    let lower_reserved = ChunkType::try_from_bytes(*b"Rust").unwrap();
    assert!(!lower_reserved.is_reserved_bit_valid());
    assert!(!lower_reserved.is_valid());
    let upper_reserved = ChunkType::try_from_bytes(*b"RuSt").unwrap();
    assert!(upper_reserved.is_reserved_bit_valid());
    assert!(upper_reserved.is_valid());
}

#[test]
fn test_removal_is_first_match_only() {
    let mut png = Png::new();
    png.append_chunk(chunk_from("IHDR", b"head"));
    png.append_chunk(chunk_from("abCd", b"first copy"));
    png.append_chunk(chunk_from("teSt", b"middle"));
    png.append_chunk(chunk_from("abCd", b"second copy"));
    let removed = png.remove_chunk("abCd").unwrap();
    assert_eq!(removed.data(), b"first copy");
    let chunks = png.chunks();
    assert_eq!(chunks.len(), 3);
    // The later duplicate survives at its original relative position.
    assert_eq!(chunks[0].chunk_type().to_text(), "IHDR");
    assert_eq!(chunks[1].chunk_type().to_text(), "teSt");
    assert_eq!(chunks[2].chunk_type().to_text(), "abCd");
    assert_eq!(chunks[2].data(), b"second copy");
}

#[test]
fn test_encode_then_decode() {
    let mut png = Png::new();
    assert_eq!(png.chunks().len(), 0);
    png.append_chunk(chunk_from("teSt", b"hello"));
    let bytes = png.as_bytes();
    let reparsed = Png::try_from_bytes(&bytes).unwrap();
    let found = reparsed.chunk_by_type("teSt").unwrap();
    assert_eq!(found.data_as_string().unwrap(), "hello");
}

#[test]
fn test_truncated_input() {
    let buffer = [0u8; 10];
    let r = Chunk::try_from_bytes(&buffer);
    assert_eq!(r.unwrap_err(), PngError::InsufficientBytes);
}

#[test]
fn test_corrupted_checksum() {
    let mut bytes = canonical_chunk_bytes();
    let n = bytes.len();
    bytes[n - 4..].copy_from_slice(&2882656333u32.to_be_bytes());
    let r = Chunk::try_from_bytes(&bytes);
    assert_eq!(r.unwrap_err(), PngError::ChecksumMismatch);
}

#[test]
fn test_length_mismatch() {
    // A record that declares one payload byte but carries none.
    let mut bytes = canonical_chunk_bytes();
    bytes[0..4].copy_from_slice(&1u32.to_be_bytes());
    let r = Chunk::try_from_bytes(&bytes);
    assert_eq!(r.unwrap_err(), PngError::LengthMismatch);
}

#[test]
fn test_invalid_tag_in_record() {
    let chunk = chunk_from("RuSt", b"payload");
    let mut bytes = chunk.as_bytes();
    bytes[4] = b'1';
    // Recompute the checksum so only the tag check can fail.
    let crc = crc::Crc::<u32>::new(&crc::CRC_32_ISO_HDLC).checksum(&bytes[4..bytes.len() - 4]);
    let n = bytes.len();
    bytes[n - 4..].copy_from_slice(&crc.to_be_bytes());
    let r = Chunk::try_from_bytes(&bytes);
    assert_eq!(r.unwrap_err(), PngError::InvalidTagBytes);
}

#[test]
fn test_invalid_signature() {
    let mut png = Png::new();
    png.append_chunk(chunk_from("teSt", b"x"));
    let mut bytes = png.as_bytes();
    bytes[0] = 136;
    let r = Png::try_from_bytes(&bytes);
    assert_eq!(r.unwrap_err(), PngError::InvalidSignature);
    let short = [137u8, 80];
    assert_eq!(
        Png::try_from_bytes(&short).unwrap_err(),
        PngError::InvalidSignature
    );
}

#[test]
fn test_container_propagates_chunk_error() {
    let mut bytes = SIGNATURE.to_vec();
    bytes.extend_from_slice(&canonical_chunk_bytes());
    let n = bytes.len();
    bytes[n - 4] ^= 0xff;
    let r = Png::try_from_bytes(&bytes);
    assert_eq!(r.unwrap_err(), PngError::ChecksumMismatch);
    bytes.truncate(SIGNATURE.len() + 5);
    let r = Png::try_from_bytes(&bytes);
    assert_eq!(r.unwrap_err(), PngError::InsufficientBytes);
}

#[test]
fn test_remove_missing_chunk() {
    let mut png = Png::new();
    png.append_chunk(chunk_from("RuSt", b"x"));
    let r = png.remove_chunk("teSt");
    assert_eq!(r.unwrap_err(), PngError::ChunkNotFound);
    assert_eq!(png.chunks().len(), 1);
}

#[test]
fn test_lookup_missing_chunk_is_absent() {
    let png = Png::new();
    assert!(png.chunk_by_type("teSt").is_none());
}

#[test]
fn test_wrong_tag_length_from_text() {
    assert_eq!(
        ChunkType::from_str("abc").unwrap_err(),
        PngError::WrongTagLength
    );
    assert_eq!(
        ChunkType::from_str("abcde").unwrap_err(),
        PngError::WrongTagLength
    );
}

#[test]
fn test_non_text_payload() {
    let chunk = chunk_from("teSt", &[0xff, 0xfe, 0x00]);
    assert_eq!(
        chunk.data_as_string().unwrap_err(),
        PngError::NonTextPayload
    );
    assert_eq!(chunk.to_text().unwrap_err(), PngError::NonTextPayload);
}

#[test]
fn test_chunk_rendered_text() {
    let bytes = canonical_chunk_bytes();
    let chunk = Chunk::try_from_bytes(&bytes).unwrap();
    assert_eq!(
        chunk.to_text().unwrap(),
        "42RuStThis is where your secret message will be!2882656334"
    );
}

#[test]
fn test_header_is_signature() {
    let png = Png::new();
    assert_eq!(png.header(), SIGNATURE);
    assert_eq!(png.as_bytes(), SIGNATURE.to_vec());
}

#[test]
fn test_crc_matches_known_vector() {
    // The canonical test vector pins the CRC-32 (ISO-HDLC) value, so
    // a wrapper that echoed its input or hashed the wrong range would
    // fail here.
    let chunk = chunk_from("RuSt", b"This is where your secret message will be!");
    assert_eq!(chunk.crc(), 2882656334);
    let empty = chunk_from("IEND", b"");
    assert_eq!(empty.length(), 0);
    assert_eq!(empty.as_bytes().len(), 12);
}
