//! The optional textual form of the canonical encoding: `0x`-prefixed
//! lowercase hexadecimal, for interchange formats that need human-readable
//! values.

use vstd::prelude::*;
use vstd::string::{StringExecFns, StringSliceAdditionalSpecFns};

use crate::bitlist::Bitlist;
use crate::bits::encode_spec;
use crate::BitlistError;

verus! {

/// The lowercase hexadecimal digit character for a value below sixteen.
pub open spec fn hex_digit_char(n: u8) -> char {
    if n == 0 { '0' } else if n == 1 { '1' } else if n == 2 { '2' } else if n == 3 { '3' }
    else if n == 4 { '4' } else if n == 5 { '5' } else if n == 6 { '6' } else if n == 7 { '7' }
    else if n == 8 { '8' } else if n == 9 { '9' } else if n == 10 { 'a' } else if n == 11 { 'b' }
    else if n == 12 { 'c' } else if n == 13 { 'd' } else if n == 14 { 'e' } else { 'f' }
}

/// The ASCII code of the lowercase hexadecimal digit for a value below
/// sixteen: `'0'` through `'9'`, then `'a'` through `'f'`.
pub open spec fn hex_digit_ascii(n: u8) -> u8 {
    if n < 10 { (48 + n) as u8 } else { (87 + n) as u8 }
}

/// The lowercase hexadecimal rendering of bytes as characters, high nibble
/// first.
pub open spec fn hex_chars_of(bytes: Seq<u8>) -> Seq<char> {
    Seq::new((2 * bytes.len()) as nat, |i: int| if i % 2 == 0 {
        hex_digit_char(bytes[i / 2] >> 4u8)
    } else {
        hex_digit_char(bytes[i / 2] & 0xfu8)
    })
}

/// The lowercase hexadecimal rendering of bytes as ASCII codes, high
/// nibble first.
pub open spec fn hex_ascii_of(bytes: Seq<u8>) -> Seq<u8> {
    Seq::new((2 * bytes.len()) as nat, |i: int| if i % 2 == 0 {
        hex_digit_ascii(bytes[i / 2] >> 4u8)
    } else {
        hex_digit_ascii(bytes[i / 2] & 0xfu8)
    })
}

/// Relies on hex::encode: lowercase digits, two per byte, high nibble
/// first.
#[verifier::external_body]
fn hex_encode(bytes: &Vec<u8>) -> (r: String)
    ensures
        r@ == hex_chars_of(bytes@),
{
    hex::encode(bytes.as_slice())
}

/// Relies on hex::decode: it inverts hex::encode, refuses malformed
/// digits, and returns one byte per digit pair.
#[verifier::external_body]
fn hex_decode(digits: &[u8]) -> (r: Option<Vec<u8>>)
    ensures
        r is None ==> forall|b: Seq<u8>| digits@ != #[trigger] hex_ascii_of(b),
        r matches Some(v) ==> forall|b: Seq<u8>|
            digits@ == #[trigger] hex_ascii_of(b) ==> v@ == b,
        r matches Some(v) ==> digits@.len() == 2 * v@.len(),
{
    hex::decode(digits).ok()
}

impl<const N: usize> Bitlist<N> {
    /// The `0x`-prefixed lowercase hexadecimal form of the canonical
    /// encoding.
    pub fn to_hex_string(&self) -> (r: String)
        requires
            self.wf(),
        ensures
            r@ == seq!['0', 'x'] + hex_chars_of(encode_spec(self@)),
    {
        let mut buffer: Vec<u8> = Vec::new();
        let _ = self.serialize(&mut buffer);
        let digits = hex_encode(&buffer);
        let mut out: String = "0x".to_owned();
        proof {
            reveal_strlit("0x");
            assert(out@ =~= seq!['0', 'x']);
        }
        out.append(digits.as_str());
        out
    }

    /// Read a hexadecimal rendering of a canonical encoding back into a
    /// bit list. The first two bytes of the string (normally `0x`) are
    /// skipped; a string shorter than that prefix is rejected.
    pub fn from_hex_string(s: &str) -> (r: Result<Self, BitlistError>)
        ensures
            r matches Ok(b) ==> b.wf(),
            s.spec_bytes().len() < 2 ==> r == Err::<Self, BitlistError>(
                BitlistError::InputTooShort,
            ),
            forall|bits: Seq<bool>|
                (s.spec_bytes().len() >= 2 && s.spec_bytes().subrange(
                    2,
                    s.spec_bytes().len() as int,
                ) == #[trigger] hex_ascii_of(encode_spec(bits)) && bits.len() <= N) ==> (
                r matches Ok(b) && b@ == bits),
    {
        let bytes = s.as_bytes();
        if bytes.len() < 2 {
            return Err(BitlistError::InputTooShort);
        }
        let digits: &[u8] = &bytes[2..bytes.len()];
        match hex_decode(digits) {
            None => Err(BitlistError::InvalidHex),
            Some(raw) => {
                let r = Self::deserialize(raw.as_slice());
                proof {
                    assert forall|bits: Seq<bool>|
                        (s.spec_bytes().len() >= 2 && s.spec_bytes().subrange(
                            2,
                            s.spec_bytes().len() as int,
                        ) == #[trigger] hex_ascii_of(encode_spec(bits)) && bits.len() <= N)
                        implies (r matches Ok(b) && b@ == bits) by {
                        assert(digits@ == hex_ascii_of(encode_spec(bits)));
                        assert(raw@ == encode_spec(bits));
                        Self::lemma_round_trip_within_capacity(bits);
                    }
                }
                r
            },
        }
    }
}

} // verus!
