//! The four-byte chunk tag and its bit-flag properties.

use vstd::prelude::*;
use vstd::string::StringSliceAdditionalSpecFns;

use crate::error::PngError;
use crate::text::{ascii_chars_of, lemma_ascii_bytes_decode, utf8_string_from_bytes};

verus! {

/// True when `b` is an ASCII letter, uppercase or lowercase.
pub open spec fn is_ascii_letter(b: u8) -> bool {
    (65 <= b && b <= 90) || (97 <= b && b <= 122)
}

/// True when every byte of `s` is an ASCII letter.
pub open spec fn all_ascii_letters(s: Seq<u8>) -> bool {
    forall|i: int| 0 <= i < s.len() ==> is_ascii_letter(#[trigger] s[i])
}

/// True when bit 5 (the `0x20` case bit) of `b` is clear.
pub open spec fn bit5_clear(b: u8) -> bool {
    b & 0x20 == 0
}

/// A validated four-byte chunk tag.
///
/// Construction succeeds exactly when all four bytes are ASCII
/// letters; the reserved-bit property is queried afterwards and never
/// blocks construction.
#[derive(Debug, PartialEq, Eq)]
pub struct ChunkType {
    value: [u8; 4],
}

impl View for ChunkType {
    type V = Seq<u8>;

    closed spec fn view(&self) -> Seq<u8> {
        self.value@
    }
}

impl ChunkType {
    /// Every tag that exists was constructed from four ASCII letters.
    #[verifier::type_invariant]
    pub open spec fn wf(&self) -> bool {
        all_ascii_letters(self@)
    }

    /// A tag's view always holds exactly four bytes.
    pub proof fn lemma_view_len(&self)
        ensures
            self@.len() == 4,
    {
    }

    /// Builds a tag from four raw bytes, accepting exactly the
    /// ASCII-letter tags.
    pub fn try_from_bytes(value: [u8; 4]) -> (r: Result<ChunkType, PngError>)
        ensures
            match r {
                Ok(t) => all_ascii_letters(value@) && t@ == value@,
                Err(e) => e == PngError::InvalidTagBytes && !all_ascii_letters(value@),
            },
    {
        if ChunkType::is_bytes_all_ascii(value) {
            Ok(ChunkType { value })
        } else {
            Err(PngError::InvalidTagBytes)
        }
    }

    /// True exactly when all four bytes are ASCII letters.
    pub fn is_bytes_all_ascii(value: [u8; 4]) -> (r: bool)
        ensures
            r == all_ascii_letters(value@),
    {
        let r = (65 <= value[0] && value[0] <= 90 || 97 <= value[0] && value[0] <= 122)
            && (65 <= value[1] && value[1] <= 90 || 97 <= value[1] && value[1] <= 122)
            && (65 <= value[2] && value[2] <= 90 || 97 <= value[2] && value[2] <= 122)
            && (65 <= value[3] && value[3] <= 90 || 97 <= value[3] && value[3] <= 122);
        proof {
            if r {
                assert forall|i: int| 0 <= i < value@.len() implies is_ascii_letter(
                    #[trigger] value@[i],
                ) by {
                    assert(value@[0] == value[0] && value@[1] == value[1] && value@[2] == value[2]
                        && value@[3] == value[3]);
                }
            }
        }
        r
    }

    /// True exactly when the third byte's bit 5 is clear.
    pub fn is_bytes_reserved_bit_valid(value: [u8; 4]) -> (r: bool)
        ensures
            r == bit5_clear(value@[2]),
    {
        let third_byte = value[2];
        let bit_5 = third_byte & 0x20;
        bit_5 == 0
    }

    /// The four raw bytes of the tag.
    pub fn bytes(&self) -> (r: [u8; 4])
        ensures
            r@ == self@,
    {
        self.value
    }

    /// True when the tag is ASCII-letter-composed and its reserved
    /// bit is clear.
    pub fn is_valid(&self) -> (r: bool)
        ensures
            r == (all_ascii_letters(self@) && bit5_clear(self@[2])),
    {
        ChunkType::is_bytes_all_ascii(self.value)
            && ChunkType::is_bytes_reserved_bit_valid(self.value)
    }

    /// True when byte 0's bit 5 is clear: the chunk is necessary for
    /// the image's display.
    pub fn is_critical(&self) -> (r: bool)
        ensures
            r == bit5_clear(self@[0]),
    {
        let first_byte = self.value[0];
        let bit_5 = first_byte & 0x20;
        bit_5 == 0
    }

    /// True when byte 1's bit 5 is clear: the tag belongs to the
    /// public registry.
    pub fn is_public(&self) -> (r: bool)
        ensures
            r == bit5_clear(self@[1]),
    {
        let second_byte = self.value[1];
        let bit_5 = second_byte & 0x20;
        bit_5 == 0
    }

    /// True when byte 2's bit 5 is clear, as the format reserves.
    pub fn is_reserved_bit_valid(&self) -> (r: bool)
        ensures
            r == bit5_clear(self@[2]),
    {
        ChunkType::is_bytes_reserved_bit_valid(self.value)
    }

    /// True when byte 3's bit 5 is set: editors may copy the chunk
    /// without understanding it.
    pub fn is_safe_to_copy(&self) -> (r: bool)
        ensures
            r == !bit5_clear(self@[3]),
    {
        let fourth_byte = self.value[3];
        let bit_5 = fourth_byte & 0x20;
        bit_5 != 0
    }

    /// Builds a tag from text, accepting exactly the strings that
    /// encode to four ASCII-letter bytes.
    pub fn from_str(s: &str) -> (r: Result<ChunkType, PngError>)
        ensures
            match r {
                Ok(t) => s.spec_bytes().len() == 4 && all_ascii_letters(s.spec_bytes()) && t@
                    == s.spec_bytes(),
                Err(e) => (e == PngError::WrongTagLength && s.spec_bytes().len() != 4) || (e
                    == PngError::InvalidTagBytes && s.spec_bytes().len() == 4
                    && !all_ascii_letters(s.spec_bytes())),
            },
    {
        let b: &[u8] = s.as_bytes();
        if b.len() != 4 {
            return Err(PngError::WrongTagLength);
        }
        let arr: [u8; 4] = [b[0], b[1], b[2], b[3]];
        proof {
            assert(arr@ =~= s.spec_bytes());
        }
        ChunkType::try_from_bytes(arr)
    }

    /// The tag rendered as text, one character per byte.
    pub fn to_text(&self) -> (s: String)
        ensures
            s@ == ascii_chars_of(self@),
            s@.len() == 4,
    {
        proof {
            use_type_invariant(self);
            self.lemma_view_len();
        }
        let b = self.bytes();
        let mut v: Vec<u8> = Vec::new();
        v.push(b[0]);
        v.push(b[1]);
        v.push(b[2]);
        v.push(b[3]);
        proof {
            assert(v@ =~= self@);
            lemma_ascii_bytes_decode(v@);
        }
        match utf8_string_from_bytes(v) {
            Some(s) => s,
            None => vstd::pervasive::unreached(),
        }
    }
}

} // verus!
