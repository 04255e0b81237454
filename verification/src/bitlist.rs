//! A bounded, variable-length bit list with a canonical byte encoding.

use vstd::prelude::*;

use crate::bits::{
    bit_of_byte, bit_or_false, decoded_bits, encode_spec, high_bit, lemma_bit_and_clear,
    lemma_bit_mask_low, lemma_bit_or_mask, lemma_div8, lemma_div8_bound, lemma_high_bit,
    lemma_low_bytes, lemma_pack_exact, pack_spec,
};
use crate::merkle::{
    chunk_pad, merkleize, merkleize_spec, mix_in_length, mix_in_length_spec, pack_bytes,
    MerkleizationError, Node,
};
use crate::BitlistError;

verus! {

/// A homogenous collection of a variable number of boolean values, holding
/// at most `N` bits.
///
/// The bits are stored packed, least-significant-bit first within each byte,
/// and the unused high positions of the last byte are kept zero, so that a
/// value has exactly one in-memory representation.
#[derive(Debug)]
pub struct Bitlist<const N: usize> {
    data: Vec<u8>,
    len: usize,
}

impl<const N: usize> View for Bitlist<N> {
    type V = Seq<bool>;

    closed spec fn view(&self) -> Seq<bool> {
        Seq::new(self.len as nat, |j: int| bit_of_byte(self.data@[j / 8], j % 8))
    }
}

impl<const N: usize> Bitlist<N> {
    /// The representation invariant: the length respects the capacity, the
    /// byte buffer is exactly as long as the bits need, and every stored bit
    /// past the logical end is zero.
    pub closed spec fn wf(&self) -> bool {
        &&& self.len <= N
        &&& self.data@.len() == (self.len + 7) / 8
        &&& forall|j: int|
            self.len <= j < 8 * self.data@.len() ==> !bit_of_byte(
                #[trigger] self.data@[j / 8],
                j % 8,
            )
    }

    /// A well-formed bit list never exceeds its capacity.
    pub proof fn lemma_len_bounded(&self)
        requires
            self.wf(),
        ensures
            self@.len() <= N,
    {
    }

    /// The stored bytes of a well-formed bit list are exactly the packing of
    /// its bits.
    proof fn lemma_canonical(&self)
        requires
            self.wf(),
        ensures
            self.data@ == pack_spec(self@),
    {
        lemma_div8(self.len as int);
        lemma_pack_exact(self@, self.data@);
    }

    /// A bit list's encoding grows with its contents.
    pub fn is_variable_size() -> (r: bool)
        ensures
            r,
    {
        true
    }

    /// A variable-size value contributes nothing to a fixed-size layout.
    pub fn ssz_size_hint() -> (r: usize)
        ensures
            r == 0,
    {
        0
    }

    /// The category tag: a variable-length collection of booleans.
    pub fn ssz_type_class(&self) -> (r: crate::SszTypeClass)
        ensures
            r == crate::SszTypeClass::Bits(crate::ElementsType::List),
    {
        crate::SszTypeClass::Bits(crate::ElementsType::List)
    }

    /// The number of bits currently held.
    pub fn len(&self) -> (r: usize)
        ensures
            r == self@.len(),
    {
        self.len
    }

    /// Whether no bits are held.
    pub fn is_empty(&self) -> (r: bool)
        ensures
            r == (self@.len() == 0),
    {
        self.len == 0
    }

    /// Return the bit at `index`. `None` if `index` is out-of-bounds.
    pub fn get(&mut self, index: usize) -> (r: Option<bool>)
        requires
            old(self).wf(),
        ensures
            *final(self) == *old(self),
            index < old(self)@.len() ==> r == Some(old(self)@[index as int]),
            index >= old(self)@.len() ==> r is None,
    {
        if index < self.len {
            proof {
                lemma_div8(self.len as int);
            }
            let byte = self.data[index / 8];
            let m: u8 = (index % 8) as u8;
            Some(((byte >> m) & 1u8) == 1u8)
        } else {
            None
        }
    }

    /// Set the bit at `index` to `value`. Return the previous value, or
    /// `None` if `index` is out-of-bounds.
    pub fn set(&mut self, index: usize, value: bool) -> (r: Option<bool>)
        requires
            old(self).wf(),
        ensures
            final(self).wf(),
            index < old(self)@.len() ==> r == Some(old(self)@[index as int])
                && final(self)@ == old(self)@.update(index as int, value),
            index >= old(self)@.len() ==> r is None && *final(self) == *old(self),
    {
        if index < self.len {
            proof {
                lemma_div8(self.len as int);
            }
            let k = index / 8;
            let m: u8 = (index % 8) as u8;
            let b = self.data[k];
            let previous = ((b >> m) & 1u8) == 1u8;
            let nb: u8 = if value {
                b | (1u8 << m)
            } else {
                b & !(1u8 << m)
            };
            self.data.set(k, nb);
            proof {
                assert forall|i: u8| i < 8 implies
                    bit_of_byte(nb, i as int) == (if i == m { value } else {
                        bit_of_byte(b, i as int)
                    }) by {
                    if value {
                        lemma_bit_or_mask(b, m, i);
                        if i == m {
                            assert(bit_of_byte(nb, i as int));
                        }
                    } else {
                        lemma_bit_and_clear(b, m, i);
                    }
                }
                assert forall|j: int| 0 <= j < self.len implies
                    bit_of_byte(#[trigger] self.data@[j / 8], j % 8) == (if j == index {
                        value
                    } else {
                        bit_of_byte(old(self).data@[j / 8], j % 8)
                    }) by {
                    lemma_div8(j);
                    if j / 8 == k as int {
                        assert(bit_of_byte(nb, (j % 8) as u8 as int) == (if (j % 8) as u8 == m {
                            value
                        } else {
                            bit_of_byte(b, (j % 8) as u8 as int)
                        }));
                        assert(j == index <==> (j / 8 == k as int && (j % 8) as u8 == m));
                    }
                }
                assert forall|j: int| self.len <= j < 8 * self.data@.len() implies
                    !bit_of_byte(#[trigger] self.data@[j / 8], j % 8) by {
                    lemma_div8(j);
                    if j / 8 == k as int {
                        assert((j % 8) as u8 != m);
                        assert(bit_of_byte(nb, (j % 8) as u8 as int) == bit_of_byte(
                            b,
                            (j % 8) as u8 as int,
                        ));
                    }
                }
                assert(final(self)@ =~= old(self)@.update(index as int, value));
            }
            Some(previous)
        } else {
            None
        }
    }

    /// Append one bit at the end. The caller keeps the list within its
    /// capacity.
    pub fn push(&mut self, bit: bool)
        requires
            old(self).wf(),
            old(self)@.len() < N,
        ensures
            final(self).wf(),
            final(self)@ == old(self)@.push(bit),
    {
        proof {
            lemma_div8(self.len as int);
            lemma_div8(self.len as int + 1);
        }
        let m: u8 = (self.len % 8) as u8;
        if m == 0 {
            self.data.push(if bit { 1u8 } else { 0u8 });
        } else {
            let k = self.len / 8;
            let b = self.data[k];
            if bit {
                self.data.set(k, b | (1u8 << m));
            }
        }
        self.len = self.len + 1;
        proof {
            let old_view = old(self)@;
            let l = old(self).len as int;
            let last = self.data@.len() - 1;
            let new_byte = self.data@[last];
            assert forall|i: u8| i < 8 implies
                bit_of_byte(new_byte, i as int) == (if i as int == l % 8 {
                    bit
                } else {
                    bit_or_false(old_view, 8 * last + i)
                }) by {
                if m == 0 {
                    // a fresh byte was appended, holding only the new bit
                    lemma_low_bytes(i);
                    assert(8 * last + i >= l);
                } else {
                    let b = old(self).data@[last];
                    assert(8 * last + i < l ==> bit_or_false(old_view, 8 * last + i)
                        == bit_of_byte(b, i as int)) by {
                        lemma_div8(8 * last + i);
                    }
                    // positions at or past the old end were zero
                    vstd::arithmetic::div_mod::lemma_fundamental_div_mod_converse(
                        8 * last + i, 8, last, i as int,
                    );
                    assert(8 * last + i >= l ==> !bit_of_byte(b, i as int));
                    if bit {
                        lemma_bit_or_mask(b, m, i);
                        if i == m {
                            assert(bit_of_byte(new_byte, i as int));
                        }
                    }
                    lemma_div8(l);
                    assert(8 * last + m == l);
                }
            }
            assert forall|j: int| 0 <= j < self.len implies
                bit_of_byte(#[trigger] self.data@[j / 8], j % 8) == (if j < l {
                    old_view[j]
                } else {
                    bit
                }) by {
                lemma_div8(j);
                lemma_div8(l);
                if j / 8 < last {
                    assert(self.data@[j / 8] == old(self).data@[j / 8]);
                } else {
                    assert(j / 8 == last);
                    assert(((j % 8) as u8) < 8);
                    assert(j == l <==> j % 8 == l % 8);
                }
            }
            assert forall|j: int| self.len <= j < 8 * self.data@.len() implies
                !bit_of_byte(#[trigger] self.data@[j / 8], j % 8) by {
                lemma_div8(j);
                lemma_div8(l);
                assert(j / 8 == last);
                assert(((j % 8) as u8) < 8);
                assert(bit_or_false(old_view, j) == false);
            }
            assert(final(self)@ =~= old(self)@.push(bit));
        }
    }
}

impl<const N: usize> Bitlist<N> {
    /// The canonical encoding of a well-formed list is its stored bytes with
    /// the sentinel applied: a fresh `0x01` byte when the data is
    /// byte-aligned, otherwise the sentinel bit set inside the last byte.
    proof fn lemma_encode_bytes(&self)
        requires
            self.wf(),
        ensures
            encode_spec(self@).len() == self@.len() / 8 + 1,
            self.len % 8 == 0 ==> encode_spec(self@) == self.data@.push(1u8),
            self.len % 8 != 0 ==> self.data@.len() >= 1 && encode_spec(self@)
                == self.data@.update(
                self.data@.len() - 1,
                self.data@[self.data@.len() - 1] | (1u8 << ((self.len % 8) as u8)),
            ),
    {
        let l = self.len as int;
        let m = l % 8;
        let bits = self@;
        let ext = bits.push(true);
        lemma_div8(l);
        lemma_div8(l + 1);
        let target: Seq<u8> = if m == 0 {
            self.data@.push(1u8)
        } else {
            self.data@.update(
                self.data@.len() - 1,
                self.data@[self.data@.len() - 1] | (1u8 << (m as u8)),
            )
        };
        assert(target.len() == (ext.len() + 7) / 8);
        assert forall|j: int| 0 <= j < ext.len() implies
            ext[j] == bit_of_byte(#[trigger] target[j / 8], j % 8) by {
            lemma_div8(j);
            if m == 0 {
                if j < l {
                    lemma_div8_bound(j, self.data@.len() as int);
                    assert(target[j / 8] == self.data@[j / 8]);
                } else {
                    assert(j == l && j % 8 == 0 && j / 8 == self.data@.len() as int);
                    lemma_low_bytes((j % 8) as u8);
                }
            } else {
                let li = self.data@.len() - 1;
                let b = self.data@[li];
                if j / 8 < li {
                    assert(target[j / 8] == self.data@[j / 8]);
                    assert(j < 8 * li ==> j < l) by {
                        lemma_div8(l);
                    }
                } else {
                    assert(j / 8 == li);
                    lemma_bit_or_mask(b, m as u8, (j % 8) as u8);
                    assert(8 * li + m == l);
                    if j == l {
                        assert(j % 8 == m);
                        assert(bit_of_byte(target[li], m));
                    } else {
                        assert(j < l && j % 8 != m);
                        assert(bit_of_byte(target[li], j % 8) == bit_of_byte(b, j % 8));
                    }
                }
            }
        }
        assert forall|j: int| ext.len() <= j < 8 * target.len() implies
            !bit_of_byte(#[trigger] target[j / 8], j % 8) by {
            lemma_div8(j);
            lemma_div8(l);
            if m == 0 {
                assert(j / 8 == self.data@.len() as int);
                lemma_low_bytes((j % 8) as u8);
                assert(j % 8 != 0);
            } else {
                let li = self.data@.len() - 1;
                let b = self.data@[li];
                assert(j / 8 == li);
                lemma_bit_or_mask(b, m as u8, (j % 8) as u8);
                assert(j % 8 > m);
                assert(!bit_of_byte(b, j % 8));
            }
        }
        lemma_pack_exact(ext, target);
    }

    /// Write the canonical encoding of the list onto the end of `buffer`:
    /// the packed data bits, then one sentinel bit. Returns the number of
    /// bytes written, always `len / 8 + 1`.
    pub fn serialize(&self, buffer: &mut Vec<u8>) -> (r: Result<usize, BitlistError>)
        requires
            self.wf(),
        ensures
            r matches Ok(n) && n == self@.len() / 8 + 1,
            final(buffer)@ == old(buffer)@ + encode_spec(self@),
    {
        // a well-formed list cannot exceed its bound; the check is defensive
        if self.len > N {
            proof {
                assert(false);
            }
            return Err(BitlistError::CapacityExceeded);
        }
        let start_len = buffer.len();
        let mut i: usize = 0;
        while i < self.data.len()
            invariant
                i <= self.data@.len(),
                buffer@ == old(buffer)@ + self.data@.subrange(0, i as int),
            decreases self.data@.len() - i,
        {
            buffer.push(self.data[i]);
            i += 1;
            proof {
                assert(buffer@ =~= old(buffer)@ + self.data@.subrange(0, i as int));
            }
        }
        proof {
            assert(self.data@.subrange(0, self.data@.len() as int) =~= self.data@);
            self.lemma_encode_bytes();
            lemma_div8(self.len as int);
        }
        let m = self.len % 8;
        if m == 0 {
            buffer.push(1u8);
            proof {
                assert(buffer@ =~= old(buffer)@ + encode_spec(self@));
            }
        } else {
            let li = buffer.len() - 1;
            let b = buffer[li];
            buffer.set(li, b | (1u8 << (m as u8)));
            proof {
                assert(buffer@ =~= old(buffer)@ + encode_spec(self@));
            }
        }
        Ok(buffer.len() - start_len)
    }

    /// Read a canonical encoding back into a bit list.
    ///
    /// Fails with `InputTooShort` on an empty buffer (even an empty list
    /// needs its sentinel byte), `InputTooLong` on a buffer longer than any
    /// encoding the capacity allows, `MissingSentinel` when the final byte
    /// is zero, and `CapacityExceeded` when the encoded bit count exceeds
    /// the capacity; otherwise returns exactly the bits the buffer encodes.
    pub fn deserialize(encoding: &[u8]) -> (r: Result<Self, BitlistError>)
        ensures
            ({
                let bs = encoding@;
                let max = N / 8 + 1;
                &&& (r matches Ok(b) ==> b.wf() && b@ == decoded_bits(bs) && b@.len() == 8 * (
                bs.len() - 1) + high_bit(bs.last()))
                &&& (r is Ok <==> 1 <= bs.len() <= max && bs.last() != 0 && 8 * (bs.len() - 1)
                    + high_bit(bs.last()) <= N)
                &&& (r == Err::<Self, BitlistError>(BitlistError::InputTooShort) <==> bs.len()
                    == 0)
                &&& (r == Err::<Self, BitlistError>(BitlistError::InputTooLong) <==> bs.len()
                    > max)
                &&& (r == Err::<Self, BitlistError>(BitlistError::MissingSentinel) <==> 1
                    <= bs.len() <= max && bs.last() == 0)
                &&& (r == Err::<Self, BitlistError>(BitlistError::CapacityExceeded) <==> 1
                    <= bs.len() <= max && bs.last() != 0 && 8 * (bs.len() - 1) + high_bit(
                    bs.last(),
                ) > N)
            }),
    {
        let n = encoding.len();
        let max_len = N / 8 + 1;
        if n == 0 {
            return Err(BitlistError::InputTooShort);
        }
        if n > max_len {
            return Err(BitlistError::InputTooLong);
        }
        let last = encoding[n - 1];
        if last == 0 {
            return Err(BitlistError::MissingSentinel);
        }
        proof {
            lemma_high_bit(last);
            lemma_div8(N as int);
            // n - 1 <= N / 8, so the bit arithmetic below stays in bounds
            assert((n - 1) * 8 <= N / 8 * 8);
        }
        let base = (n - 1) * 8;
        let h = highest_bit(last);
        if h > N - base {
            return Err(BitlistError::CapacityExceeded);
        }
        let newlen = base + h;
        let mut data: Vec<u8> = Vec::new();
        let mut i: usize = 0;
        while i < n - 1
            invariant
                i <= n - 1,
                n == encoding@.len(),
                data@ == encoding@.subrange(0, i as int),
            decreases n - 1 - i,
        {
            data.push(encoding[i]);
            i += 1;
            proof {
                assert(data@ =~= encoding@.subrange(0, i as int));
            }
        }
        if h > 0 {
            proof {
                lemma_bit_mask_low(last, h as u8, 0u8);
            }
            let mask = (1u8 << (h as u8)) - 1;
            data.push(last & mask);
        }
        let result = Bitlist { data, len: newlen };
        proof {
            let bs = encoding@;
            let l = newlen as int;
            lemma_div8(l);
            if h == 0 {
                vstd::arithmetic::div_mod::lemma_fundamental_div_mod_converse(
                    l + 7, 8, n - 1, 7,
                );
            } else {
                vstd::arithmetic::div_mod::lemma_fundamental_div_mod_converse(
                    l + 7, 8, n as int, (h + 7 - 8) as int,
                );
            }
            assert(result.data@.len() == (l + 7) / 8);
            assert forall|j: int| l <= j < 8 * result.data@.len() implies
                !bit_of_byte(#[trigger] result.data@[j / 8], j % 8) by {
                lemma_div8(j);
                assert(h > 0);
                assert(j / 8 == n - 1);
                lemma_bit_mask_low(last, h as u8, (j % 8) as u8);
            }
            assert(result.wf());
            // the stored bits are exactly what the buffer encodes
            let dec = decoded_bits(bs);
            assert(dec.len() == l);
            assert forall|j: int| 0 <= j < l implies result@[j] == dec[j] by {
                lemma_div8(j);
                if j < 8 * (n - 1) {
                    lemma_div8_bound(j, n - 1);
                    assert(result.data@[j / 8] == bs.drop_last()[j / 8]);
                    assert(dec[j] == bit_of_byte(bs.drop_last()[j / 8], j % 8));
                } else {
                    assert(j / 8 == n - 1);
                    assert(h > 0);
                    lemma_bit_mask_low(last, h as u8, (j % 8) as u8);
                    assert(dec[j] == bit_of_byte(last, j - 8 * (n - 1)));
                    assert(j - 8 * (n - 1) == j % 8);
                }
            }
            assert(result@ =~= dec);
        }
        Ok(result)
    }
}

/// The hash tree root of a bit list: its bits packed and zero-padded to
/// whole chunks, merkleized under the capacity's chunk bound, with the
/// *bit* length mixed in afterwards. The data root comes first and the
/// length second; the opposite order would be a different digest.
pub open spec fn hash_tree_root_spec(bits: Seq<bool>, bound: int) -> Seq<u8> {
    mix_in_length_spec(
        merkleize_spec(chunk_pad(pack_spec(bits)), ((bound + 255) / 256) as nat),
        bits.len() as u64,
    )
}

impl<const N: usize> Bitlist<N> {
    /// The bits of the list, in order, as plain booleans.
    pub fn to_bools(&self) -> (r: Vec<bool>)
        requires
            self.wf(),
        ensures
            r@ == self@,
    {
        let mut out: Vec<bool> = Vec::new();
        let mut i: usize = 0;
        while i < self.len
            invariant
                i <= self.len,
                self.wf(),
                out@ == self@.subrange(0, i as int),
            decreases self.len - i,
        {
            proof {
                lemma_div8(self.len as int);
                lemma_div8_bound(i as int, self.data@.len() as int);
            }
            let byte = self.data[i / 8];
            let m: u8 = (i % 8) as u8;
            out.push(((byte >> m) & 1u8) == 1u8);
            i += 1;
            proof {
                assert(out@ =~= self@.subrange(0, i as int));
            }
        }
        proof {
            assert(self@.subrange(0, self.len as int) =~= self@);
        }
        out
    }

    /// Build a list from plain booleans, keeping only the first `N` values.
    /// This silent truncation is the accepted policy for bulk construction
    /// alone; decoding and serialization fail hard instead.
    pub fn from_bools(bools: &Vec<bool>) -> (r: Self)
        ensures
            r.wf(),
            bools@.len() <= N ==> r@ == bools@,
            bools@.len() > N ==> r@ == bools@.subrange(0, N as int),
    {
        let count = if bools.len() > N {
            N
        } else {
            bools.len()
        };
        let mut out: Bitlist<N> = Bitlist::default();
        let mut i: usize = 0;
        while i < count
            invariant
                i <= count,
                count <= bools@.len(),
                count <= N,
                out.wf(),
                out@ == bools@.subrange(0, i as int),
            decreases count - i,
        {
            out.push(bools[i]);
            i += 1;
            proof {
                assert(out@ =~= bools@.subrange(0, i as int));
            }
        }
        proof {
            if bools@.len() <= N {
                assert(bools@.subrange(0, count as int) =~= bools@);
            }
        }
        out
    }

    /// The packed data bits, without a sentinel, zero-padded up to a whole
    /// number of 32-byte chunks: the leaf input handed to the Merkle
    /// builder.
    pub(crate) fn pack_bits(&self) -> (r: Result<Vec<u8>, MerkleizationError>)
        requires
            self.wf(),
        ensures
            r matches Ok(v) && v@ == chunk_pad(pack_spec(self@)) && v@.len() % 32 == 0,
    {
        let mut out: Vec<u8> = Vec::new();
        let mut i: usize = 0;
        while i < self.data.len()
            invariant
                i <= self.data@.len(),
                out@ == self.data@.subrange(0, i as int),
            decreases self.data@.len() - i,
        {
            out.push(self.data[i]);
            i += 1;
            proof {
                assert(out@ =~= self.data@.subrange(0, i as int));
            }
        }
        proof {
            assert(self.data@.subrange(0, self.data@.len() as int) =~= self.data@);
            self.lemma_canonical();
            lemma_div8(self.len as int);
            vstd::arithmetic::div_mod::lemma_div_is_ordered(
                self.len as int + 7,
                usize::MAX as int + 7,
                8,
            );
            vstd::arithmetic::div_mod::lemma_hoist_over_denominator(
                usize::MAX as int,
                0,
                8,
            );
            assert((usize::MAX as int + 7) / 8 <= usize::MAX - 31) by {
                vstd::arithmetic::div_mod::lemma_fundamental_div_mod(usize::MAX as int + 7, 8);
            }
        }
        pack_bytes(&mut out);
        Ok(out)
    }

    /// Compute the hash tree root: pack the bits into chunks, merkleize
    /// them under the bound of `(N + 255) / 256` leaf chunks, then mix in
    /// the bit length.
    pub fn hash_tree_root(&mut self) -> (r: Result<Node, MerkleizationError>)
        requires
            old(self).wf(),
        ensures
            *final(self) == *old(self),
            r matches Ok(node) && node.wf() && node@ == hash_tree_root_spec(
                old(self)@,
                N as int,
            ),
    {
        let chunks = self.pack_bits().unwrap();
        let limit = if N == 0 {
            0
        } else {
            (N - 1) / 256 + 1
        };
        proof {
            if N > 0 {
                vstd::arithmetic::div_mod::lemma_fundamental_div_mod(N as int - 1, 256);
                vstd::arithmetic::div_mod::lemma_fundamental_div_mod_converse(
                    N as int + 255,
                    256,
                    (N as int - 1) / 256 + 1,
                    (N as int - 1) % 256,
                );
            }
            assert(limit as int == (N as int + 255) / 256);
            lemma_chunk_count(self.len as int, N as int);
            assert(chunks@.len() / 32 <= limit as int);
            // the chunk bound always fits the machine comfortably
            vstd::arithmetic::div_mod::lemma_div_is_ordered(
                N as int - 1,
                usize::MAX as int - 1,
                256,
            );
            assert((usize::MAX as int - 1) / 256 + 1 <= usize::MAX as int / 64) by {
                vstd::arithmetic::div_mod::lemma_fundamental_div_mod(
                    usize::MAX as int - 1,
                    256,
                );
                vstd::arithmetic::div_mod::lemma_fundamental_div_mod(usize::MAX as int, 64);
            }
        }
        let data_root = merkleize(&chunks, limit).unwrap();
        Ok(mix_in_length(&data_root, self.len))
    }

    /// Law: decoding inverts encoding. The canonical encoding of any bit
    /// sequence within capacity meets every decoding precondition and
    /// carries exactly the original bits, in `len / 8 + 1` bytes.
    pub proof fn lemma_round_trip_within_capacity(bits: Seq<bool>)
        requires
            bits.len() <= N,
        ensures
            encode_spec(bits).len() == bits.len() / 8 + 1,
            encode_spec(bits).len() <= N / 8 + 1,
            encode_spec(bits).last() != 0,
            8 * (encode_spec(bits).len() - 1) + high_bit(encode_spec(bits).last())
                == bits.len(),
            decoded_bits(encode_spec(bits)) == bits,
    {
        crate::bits::lemma_round_trip(bits);
        lemma_div8(bits.len() as int);
        vstd::arithmetic::div_mod::lemma_div_is_ordered(bits.len() as int, N as int, 8);
    }

    /// Law: the hash tree root is a pure function of the bits and the
    /// capacity — two equal bit lists of equal capacity always hash alike,
    /// however each was built.
    pub proof fn lemma_hash_pure(a: &Bitlist<N>, b: &Bitlist<N>)
        requires
            a@ == b@,
        ensures
            hash_tree_root_spec(a@, N as int) == hash_tree_root_spec(b@, N as int),
    {
    }

    /// Law: the leaf input handed to the Merkle builder, together with the
    /// mixed-in bit length, determines the bits: two distinct lists of
    /// equal length never produce identical padded leaf bytes, so the zero
    /// padding introduces no collisions of its own.
    pub proof fn lemma_no_padding_collision(b1: Seq<bool>, b2: Seq<bool>)
        requires
            b1.len() == b2.len(),
            chunk_pad(pack_spec(b1)) == chunk_pad(pack_spec(b2)),
        ensures
            b1 == b2,
    {
        assert(pack_spec(b1).len() == pack_spec(b2).len());
        assert(pack_spec(b1) =~= chunk_pad(pack_spec(b1)).subrange(
            0,
            pack_spec(b1).len() as int,
        ));
        assert(pack_spec(b2) =~= chunk_pad(pack_spec(b2)).subrange(
            0,
            pack_spec(b2).len() as int,
        ));
        crate::bits::lemma_pack_injective(b1, b2);
    }
}

/// The padded chunk count of a list never exceeds the capacity's chunk
/// bound.
proof fn lemma_chunk_count(l: int, bound: int)
    requires
        0 <= l <= bound,
    ensures
        ({
            let d0 = (l + 7) / 8;
            let padded = d0 + (32 - d0 % 32) % 32;
            padded / 32 <= (bound + 255) / 256
        }),
{
    let d0 = (l + 7) / 8;
    let padded = d0 + (32 - d0 % 32) % 32;
    lemma_div8(l);
    vstd::arithmetic::div_mod::lemma_fundamental_div_mod(d0, 32);
    assert(padded <= d0 + 31);
    vstd::arithmetic::div_mod::lemma_div_is_ordered(padded, d0 + 31, 32);
    vstd::arithmetic::div_mod::lemma_hoist_over_denominator(l + 7, 31, 8);
    assert(d0 + 31 == (l + 255) / 8);
    vstd::arithmetic::div_mod::lemma_div_denominator(l + 255, 8, 32);
    assert((d0 + 31) / 32 == (l + 255) / 256);
    vstd::arithmetic::div_mod::lemma_div_is_ordered(l + 255, bound + 255, 256);
}

impl<const N: usize> Bitlist<N> {
    /// The raw representation — packed bytes and bit count — for stating
    /// what `==` compares.
    pub closed spec fn repr(&self) -> (Seq<u8>, nat) {
        (self.data@, self.len as nat)
    }

    /// Law: the representation is canonical — on well-formed lists,
    /// equality of the stored bytes and length is exactly equality of the
    /// bits.
    pub proof fn lemma_repr_canonical(&self, other: &Bitlist<N>)
        requires
            self.wf(),
            other.wf(),
        ensures
            self.repr() == other.repr() <==> self@ == other@,
    {
        if self.repr() == other.repr() {
            assert(self@ =~= other@);
        }
        if self@ == other@ {
            self.lemma_canonical();
            other.lemma_canonical();
        }
    }
}

impl<const N: usize> PartialEq for Bitlist<N> {
    /// Two lists are equal when their bit counts and packed bytes are.
    fn eq(&self, other: &Self) -> (r: bool) {
        if self.len != other.len || self.data.len() != other.data.len() {
            return false;
        }
        let mut i: usize = 0;
        while i < self.data.len()
            invariant
                i <= self.data@.len(),
                self.data@.len() == other.data@.len(),
                self.len == other.len,
                forall|k: int| 0 <= k < i ==> self.data@[k] == other.data@[k],
            decreases self.data@.len() - i,
        {
            if self.data[i] != other.data[i] {
                return false;
            }
            i += 1;
        }
        proof {
            assert(self.data@ =~= other.data@);
        }
        true
    }
}

impl<const N: usize> vstd::std_specs::cmp::PartialEqSpecImpl for Bitlist<N> {
    open spec fn obeys_eq_spec() -> bool {
        true
    }

    open spec fn eq_spec(&self, other: &Self) -> bool {
        self.repr() == other.repr()
    }
}

impl<const N: usize> Clone for Bitlist<N> {
    /// A copy carries the same bits and the same packed bytes.
    fn clone(&self) -> (r: Self)
        ensures
            r.repr() == self.repr(),
            r@ == self@,
    {
        let mut data: Vec<u8> = Vec::new();
        let mut i: usize = 0;
        while i < self.data.len()
            invariant
                i <= self.data@.len(),
                data@ == self.data@.subrange(0, i as int),
            decreases self.data@.len() - i,
        {
            data.push(self.data[i]);
            i += 1;
            proof {
                assert(data@ =~= self.data@.subrange(0, i as int));
            }
        }
        proof {
            assert(self.data@.subrange(0, self.data@.len() as int) =~= self.data@);
        }
        Bitlist { data, len: self.len }
    }
}

/// The position of the highest set bit of a byte, matching `high_bit`.
fn highest_bit(b: u8) -> (h: usize)
    ensures
        h == high_bit(b),
        h < 8,
{
    if ((b >> 7u8) & 1u8) == 1u8 { 7 }
    else if ((b >> 6u8) & 1u8) == 1u8 { 6 }
    else if ((b >> 5u8) & 1u8) == 1u8 { 5 }
    else if ((b >> 4u8) & 1u8) == 1u8 { 4 }
    else if ((b >> 3u8) & 1u8) == 1u8 { 3 }
    else if ((b >> 2u8) & 1u8) == 1u8 { 2 }
    else if ((b >> 1u8) & 1u8) == 1u8 { 1 }
    else { 0 }
}

impl<const N: usize> Default for Bitlist<N> {
    /// The empty bit list.
    fn default() -> (r: Self)
        ensures
            r.wf(),
            r@ == Seq::<bool>::empty(),
    {
        let r = Bitlist { data: Vec::new(), len: 0 };
        proof {
            assert(r@ =~= Seq::<bool>::empty());
        }
        r
    }
}

} // verus!
