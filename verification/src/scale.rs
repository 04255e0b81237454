//! Interop with the length-prefixed boolean encoding that the legacy
//! byte-codec uses for a bit list: the values as one byte each, preceded by
//! a compact element count.

use vstd::prelude::*;

use crate::bitlist::Bitlist;
use crate::BitlistError;

verus! {

/// What the length-prefixed boolean encoding of a bit sequence is.
pub uninterp spec fn scale_of(bits: Seq<bool>) -> Seq<u8>;

/// Relies on parity_scale_codec's `Encode` for `Vec<bool>`: the encoding
/// is a function of the boolean values alone. The codec's compact length
/// prefix holds a 32-bit element count and panics on anything longer, so
/// such inputs are excluded here.
#[verifier::external_body]
fn scale_encode(bools: &Vec<bool>) -> (r: Vec<u8>)
    requires
        bools@.len() <= u32::MAX as nat,
    ensures
        r@ == scale_of(bools@),
{
    parity_scale_codec::Encode::encode(bools)
}

/// Relies on parity_scale_codec's `Decode` for `Vec<bool>`: decoding
/// inverts encoding.
#[verifier::external_body]
fn scale_decode(bytes: &[u8]) -> (r: Option<Vec<bool>>)
    ensures
        r is None ==> forall|s: Seq<bool>| bytes@ != #[trigger] scale_of(s),
        r matches Some(v) ==> forall|s: Seq<bool>|
            bytes@ == #[trigger] scale_of(s) ==> v@ == s,
{
    let mut input: &[u8] = bytes;
    <Vec<bool> as parity_scale_codec::Decode>::decode(&mut input).ok()
}

impl<const N: usize> Bitlist<N> {
    /// The length-prefixed boolean encoding of the list. Its compact
    /// element count is 32 bits wide, which bounds the lists it can carry.
    pub fn encode(&self) -> (r: Vec<u8>)
        requires
            self.wf(),
            self@.len() <= u32::MAX as nat,
        ensures
            r@ == scale_of(self@),
    {
        let bools = self.to_bools();
        scale_encode(&bools)
    }

    /// Read a length-prefixed boolean encoding back, refusing one whose
    /// value would exceed the capacity.
    pub fn decode(encoded: &[u8]) -> (r: Result<Self, BitlistError>)
        ensures
            r matches Ok(b) ==> b.wf(),
            forall|s: Seq<bool>|
                encoded@ == #[trigger] scale_of(s) ==> if s.len() <= N {
                    r matches Ok(b) && b@ == s
                } else {
                    r == Err::<Self, BitlistError>(BitlistError::CapacityExceeded)
                },
    {
        match scale_decode(encoded) {
            None => Err(BitlistError::InvalidScale),
            Some(bools) => {
                if bools.len() > N {
                    Err(BitlistError::CapacityExceeded)
                } else {
                    Ok(Bitlist::from_bools(&bools))
                }
            },
        }
    }
}

} // verus!
