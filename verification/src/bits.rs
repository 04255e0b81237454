//! The mathematical model of least-significant-bit-first byte packing.
//!
//! A bit sequence is packed into bytes so that bit `j` of the sequence lands
//! in bit position `j % 8` (counting from the least-significant end) of byte
//! `j / 8`. The canonical encoding of a bit list is the packing of the list
//! followed by a single sentinel `true` bit.

use vstd::prelude::*;

verus! {

/// True when bit `i` (counting from the least-significant end) of `b` is set.
pub open spec fn bit_of_byte(b: u8, i: int) -> bool {
    ((b >> (i as u8)) & 1u8) == 1u8
}

/// Bit `j` of `bits`, reading `false` past either end.
pub open spec fn bit_or_false(bits: Seq<bool>, j: int) -> bool {
    0 <= j < bits.len() && bits[j]
}

/// The byte whose bit `i` is `b_i`, least-significant bit first.
pub open spec fn byte_of_bits(
    b0: bool, b1: bool, b2: bool, b3: bool,
    b4: bool, b5: bool, b6: bool, b7: bool,
) -> u8 {
    (if b0 { 1u8 } else { 0u8 })
    | (if b1 { 2u8 } else { 0u8 })
    | (if b2 { 4u8 } else { 0u8 })
    | (if b3 { 8u8 } else { 0u8 })
    | (if b4 { 16u8 } else { 0u8 })
    | (if b5 { 32u8 } else { 0u8 })
    | (if b6 { 64u8 } else { 0u8 })
    | (if b7 { 128u8 } else { 0u8 })
}

/// The byte that packs bits `8k .. 8k + 8` of `bits`, zero-filled past the end.
pub open spec fn pack_byte(bits: Seq<bool>, k: int) -> u8 {
    byte_of_bits(
        bit_or_false(bits, 8 * k),
        bit_or_false(bits, 8 * k + 1),
        bit_or_false(bits, 8 * k + 2),
        bit_or_false(bits, 8 * k + 3),
        bit_or_false(bits, 8 * k + 4),
        bit_or_false(bits, 8 * k + 5),
        bit_or_false(bits, 8 * k + 6),
        bit_or_false(bits, 8 * k + 7),
    )
}

/// `bits` packed into the fewest whole bytes, the unused high positions of
/// the last byte zero.
pub open spec fn pack_spec(bits: Seq<bool>) -> Seq<u8> {
    Seq::new(((bits.len() + 7) / 8) as nat, |k: int| pack_byte(bits, k))
}

/// The canonical encoding of a bit list: its bits followed by one sentinel
/// `true` bit, packed. The sentinel marks where the data ends, so trailing
/// `false` data bits are never lost.
pub open spec fn encode_spec(bits: Seq<bool>) -> Seq<u8> {
    pack_spec(bits.push(true))
}

/// Reading every bit of `bytes` back out, least-significant bit of each byte
/// first.
pub open spec fn bits_of_bytes(bytes: Seq<u8>) -> Seq<bool> {
    Seq::new((bytes.len() * 8) as nat, |j: int| bit_of_byte(bytes[j / 8], j % 8))
}

/// The position of the highest set bit of `b`, `0` for a zero byte.
pub open spec fn high_bit(b: u8) -> int {
    if bit_of_byte(b, 7) { 7 }
    else if bit_of_byte(b, 6) { 6 }
    else if bit_of_byte(b, 5) { 5 }
    else if bit_of_byte(b, 4) { 4 }
    else if bit_of_byte(b, 3) { 3 }
    else if bit_of_byte(b, 2) { 2 }
    else if bit_of_byte(b, 1) { 1 }
    else { 0 }
}

/// How setting the single bit `m` changes each bit of a byte.
pub proof fn lemma_bit_or_mask(b: u8, m: u8, i: u8)
    requires
        m < 8,
        i < 8,
    ensures
        bit_of_byte(b | (1u8 << m), i as int) == (i == m || bit_of_byte(b, i as int)),
{
    assert(((b | (1u8 << m)) >> i) & 1u8 == 1u8 <==> (i == m || ((b >> i) & 1u8 == 1u8)))
        by (bit_vector)
        requires m < 8 && i < 8;
    assert((i as int) as u8 == i);
}

/// How clearing the single bit `m` changes each bit of a byte.
pub proof fn lemma_bit_and_clear(b: u8, m: u8, i: u8)
    requires
        m < 8,
        i < 8,
    ensures
        bit_of_byte(b & !(1u8 << m), i as int) == (i != m && bit_of_byte(b, i as int)),
{
    assert(((b & !(1u8 << m)) >> i) & 1u8 == 1u8 <==> (i != m && ((b >> i) & 1u8 == 1u8)))
        by (bit_vector)
        requires m < 8 && i < 8;
    assert((i as int) as u8 == i);
}

/// Masking with `(1 << m) - 1` keeps exactly the bits below `m`.
pub proof fn lemma_bit_mask_low(b: u8, m: u8, i: u8)
    requires
        m < 8,
        i < 8,
    ensures
        bit_of_byte(b & (((1u8 << m) - 1) as u8), i as int) == (i < m && bit_of_byte(b, i as int)),
        (1u8 << m) >= 1,
{
    assert((1u8 << m) >= 1) by (bit_vector)
        requires m < 8;
    assert((((b & (((1u8 << m) - 1) as u8)) >> i) & 1u8 == 1u8) <==> (i < m && ((b >> i) & 1u8
        == 1u8)))
        by (bit_vector)
        requires m < 8 && i < 8;
    assert((i as int) as u8 == i);
}

/// The bits of the bytes `0` and `1`.
pub proof fn lemma_low_bytes(i: u8)
    requires
        i < 8,
    ensures
        !bit_of_byte(0u8, i as int),
        bit_of_byte(1u8, i as int) == (i == 0),
{
    assert(((0u8 >> i) & 1u8) != 1u8 && (((1u8 >> i) & 1u8 == 1u8) <==> i == 0))
        by (bit_vector)
        requires i < 8;
    assert((i as int) as u8 == i);
}

/// A non-zero byte has its highest set bit where `high_bit` says, and only
/// zeros above it.
pub proof fn lemma_high_bit(b: u8)
    requires
        b != 0,
    ensures
        0 <= high_bit(b) < 8,
        bit_of_byte(b, high_bit(b)),
        forall|i: int| high_bit(b) < i < 8 ==> !bit_of_byte(b, i),
{
    assert(((b >> 7) & 1u8 == 1u8) || ((b >> 6) & 1u8 == 1u8) || ((b >> 5) & 1u8 == 1u8)
        || ((b >> 4) & 1u8 == 1u8) || ((b >> 3) & 1u8 == 1u8) || ((b >> 2) & 1u8 == 1u8)
        || ((b >> 1) & 1u8 == 1u8) || ((b >> 0) & 1u8 == 1u8))
        by (bit_vector)
        requires b != 0;
    assert forall|i: int| high_bit(b) < i < 8 implies !bit_of_byte(b, i) by {
        assert(i == 1 || i == 2 || i == 3 || i == 4 || i == 5 || i == 6 || i == 7);
    }
}

/// Division-by-eight facts for packing lengths.
pub proof fn lemma_div8(l: int)
    requires
        l >= 0,
    ensures
        (l + 8) / 8 == l / 8 + 1,
        l % 8 == 0 ==> (l + 7) / 8 == l / 8,
        l % 8 != 0 ==> (l + 7) / 8 == l / 8 + 1,
        l / 8 * 8 + l % 8 == l,
        0 <= l % 8 < 8,
        8 * (l / 8) <= l,
{
    vstd::arithmetic::div_mod::lemma_fundamental_div_mod(l, 8);
    let q = l / 8;
    let r = l % 8;
    vstd::arithmetic::div_mod::lemma_fundamental_div_mod_converse(l + 8, 8, q + 1, r);
    if r == 0 {
        vstd::arithmetic::div_mod::lemma_fundamental_div_mod_converse(l + 7, 8, q, 7);
    } else {
        vstd::arithmetic::div_mod::lemma_fundamental_div_mod_converse(l + 7, 8, q + 1, r - 1);
    }
}

/// A quotient bound: `j < 8 * n` forces `j / 8 < n`.
pub proof fn lemma_div8_bound(j: int, n: int)
    requires
        0 <= j,
        j < 8 * n,
    ensures
        j / 8 < n,
{
    lemma_div8(j);
    assert(j / 8 < n) by (nonlinear_arith)
        requires
            j / 8 * 8 + j % 8 == j,
            0 <= j % 8 < 8,
            j < 8 * n,
    ;
}

/// The bits that a canonical encoding carries: every bit of the leading
/// bytes, then the bits of the final byte strictly below its sentinel (its
/// highest set bit).
pub open spec fn decoded_bits(bytes: Seq<u8>) -> Seq<bool> {
    bits_of_bytes(bytes.drop_last()) + bits_of_bytes(seq![bytes.last()]).take(
        high_bit(bytes.last()),
    )
}

/// Packing eight bits and reading them back is the identity, in both
/// directions.
pub proof fn lemma_byte_of_bits(
    b0: bool, b1: bool, b2: bool, b3: bool,
    b4: bool, b5: bool, b6: bool, b7: bool,
)
    ensures
        bit_of_byte(byte_of_bits(b0, b1, b2, b3, b4, b5, b6, b7), 0) == b0,
        bit_of_byte(byte_of_bits(b0, b1, b2, b3, b4, b5, b6, b7), 1) == b1,
        bit_of_byte(byte_of_bits(b0, b1, b2, b3, b4, b5, b6, b7), 2) == b2,
        bit_of_byte(byte_of_bits(b0, b1, b2, b3, b4, b5, b6, b7), 3) == b3,
        bit_of_byte(byte_of_bits(b0, b1, b2, b3, b4, b5, b6, b7), 4) == b4,
        bit_of_byte(byte_of_bits(b0, b1, b2, b3, b4, b5, b6, b7), 5) == b5,
        bit_of_byte(byte_of_bits(b0, b1, b2, b3, b4, b5, b6, b7), 6) == b6,
        bit_of_byte(byte_of_bits(b0, b1, b2, b3, b4, b5, b6, b7), 7) == b7,
{
    assert(
        bit_of_byte(byte_of_bits(b0, b1, b2, b3, b4, b5, b6, b7), 0) == b0
        && bit_of_byte(byte_of_bits(b0, b1, b2, b3, b4, b5, b6, b7), 1) == b1
        && bit_of_byte(byte_of_bits(b0, b1, b2, b3, b4, b5, b6, b7), 2) == b2
        && bit_of_byte(byte_of_bits(b0, b1, b2, b3, b4, b5, b6, b7), 3) == b3
        && bit_of_byte(byte_of_bits(b0, b1, b2, b3, b4, b5, b6, b7), 4) == b4
        && bit_of_byte(byte_of_bits(b0, b1, b2, b3, b4, b5, b6, b7), 5) == b5
        && bit_of_byte(byte_of_bits(b0, b1, b2, b3, b4, b5, b6, b7), 6) == b6
        && bit_of_byte(byte_of_bits(b0, b1, b2, b3, b4, b5, b6, b7), 7) == b7
    ) by (bit_vector);
}

/// A byte is the packing of its own bits.
pub proof fn lemma_byte_reassemble(b: u8)
    ensures
        byte_of_bits(
            bit_of_byte(b, 0), bit_of_byte(b, 1), bit_of_byte(b, 2), bit_of_byte(b, 3),
            bit_of_byte(b, 4), bit_of_byte(b, 5), bit_of_byte(b, 6), bit_of_byte(b, 7),
        ) == b,
{
    assert(byte_of_bits(
        bit_of_byte(b, 0), bit_of_byte(b, 1), bit_of_byte(b, 2), bit_of_byte(b, 3),
        bit_of_byte(b, 4), bit_of_byte(b, 5), bit_of_byte(b, 6), bit_of_byte(b, 7),
    ) == b) by (bit_vector);
}

/// Each bit of a packed byte is the corresponding source bit.
pub proof fn lemma_pack_byte_bit(bits: Seq<bool>, k: int, i: int)
    requires
        0 <= i < 8,
    ensures
        bit_of_byte(pack_byte(bits, k), i) == bit_or_false(bits, 8 * k + i),
{
    lemma_byte_of_bits(
        bit_or_false(bits, 8 * k),
        bit_or_false(bits, 8 * k + 1),
        bit_or_false(bits, 8 * k + 2),
        bit_or_false(bits, 8 * k + 3),
        bit_or_false(bits, 8 * k + 4),
        bit_or_false(bits, 8 * k + 5),
        bit_or_false(bits, 8 * k + 6),
        bit_or_false(bits, 8 * k + 7),
    );
}

/// A byte sequence that carries exactly the bits of `bits` in packed order,
/// with zeroed positions past the end, is `pack_spec(bits)`.
pub proof fn lemma_pack_exact(bits: Seq<bool>, bytes: Seq<u8>)
    requires
        bytes.len() == (bits.len() + 7) / 8,
        forall|j: int| 0 <= j < bits.len() ==> bits[j] == bit_of_byte(#[trigger] bytes[j / 8], j % 8),
        forall|j: int| bits.len() <= j < 8 * bytes.len() ==> !bit_of_byte(#[trigger] bytes[j / 8], j % 8),
    ensures
        pack_spec(bits) == bytes,
{
    assert forall|k: int| 0 <= k < bytes.len() implies pack_byte(bits, k) == bytes[k] by {
        assert forall|i: int| 0 <= i < 8 implies
            bit_or_false(bits, 8 * k + i) == bit_of_byte(bytes[k], i) by {
            let j = 8 * k + i;
            vstd::arithmetic::div_mod::lemma_fundamental_div_mod_converse(j, 8, k, i);
            if j < bits.len() {
                assert(bits[j] == bit_of_byte(bytes[j / 8], j % 8));
            } else {
                assert(j < 8 * bytes.len()) by (nonlinear_arith)
                    requires 0 <= i < 8 && 0 <= k < bytes.len() && j == 8 * k + i;
                assert(!bit_of_byte(bytes[j / 8], j % 8));
            }
        }
        lemma_byte_reassemble(bytes[k]);
        lemma_pack_byte_bit(bits, k, 0);
        lemma_pack_byte_bit(bits, k, 1);
        lemma_pack_byte_bit(bits, k, 2);
        lemma_pack_byte_bit(bits, k, 3);
        lemma_pack_byte_bit(bits, k, 4);
        lemma_pack_byte_bit(bits, k, 5);
        lemma_pack_byte_bit(bits, k, 6);
        lemma_pack_byte_bit(bits, k, 7);
    }
    assert(pack_spec(bits) =~= bytes);
}

/// Law: the packing determines the bits. Two bit sequences of equal
/// length with equal packed bytes are equal, so the zero fill of the last
/// byte never conflates distinct lists.
pub proof fn lemma_pack_injective(b1: Seq<bool>, b2: Seq<bool>)
    requires
        b1.len() == b2.len(),
        pack_spec(b1) == pack_spec(b2),
    ensures
        b1 == b2,
{
    assert forall|j: int| 0 <= j < b1.len() implies b1[j] == b2[j] by {
        lemma_div8(j);
        vstd::arithmetic::div_mod::lemma_fundamental_div_mod(b1.len() as int + 7, 8);
        lemma_div8_bound(j, ((b1.len() + 7) / 8) as int);
        lemma_pack_byte_bit(b1, j / 8, j % 8);
        lemma_pack_byte_bit(b2, j / 8, j % 8);
        assert(pack_spec(b1)[j / 8] == pack_byte(b1, j / 8));
        assert(pack_spec(b2)[j / 8] == pack_byte(b2, j / 8));
    }
    assert(b1 =~= b2);
}

/// The canonical encoding is minimal and reversible: it occupies exactly
/// `len / 8 + 1` bytes, its final byte is never zero, the sentinel sits at
/// bit position `len % 8` of that byte (the whole byte is `1` when the data
/// is byte-aligned), and reading the encoding back yields the original bits.
pub proof fn lemma_round_trip(bits: Seq<bool>)
    ensures
        encode_spec(bits).len() == bits.len() / 8 + 1,
        encode_spec(bits).last() != 0,
        high_bit(encode_spec(bits).last()) == bits.len() % 8,
        bits.len() % 8 == 0 ==> encode_spec(bits).last() == 1u8,
        decoded_bits(encode_spec(bits)) == bits,
{
    let l = bits.len() as int;
    let m = l % 8;
    let ext = bits.push(true);
    let enc = encode_spec(bits);
    lemma_div8(l);
    lemma_div8(l + 1);
    assert(enc.len() == l / 8 + 1);
    let nb = l / 8 + 1;
    let last = enc[nb - 1];
    assert(last == pack_byte(ext, l / 8));
    assert forall|i: int| 0 <= i < 8 implies
        bit_of_byte(last, i) == bit_or_false(ext, 8 * (l / 8) + i) by {
        lemma_pack_byte_bit(ext, l / 8, i);
    }
    // the sentinel is the highest set bit of the final byte
    assert(bit_of_byte(last, m));
    assert forall|i: int| m < i < 8 implies !bit_of_byte(last, i) by {
        assert(8 * (l / 8) + i > l);
    }
    assert(high_bit(last) == m);
    assert(last != 0) by {
        if last == 0 {
            lemma_low_bytes(m as u8);
            assert(!bit_of_byte(0u8, m));
        }
    }
    if m == 0 {
        lemma_byte_reassemble(last);
        lemma_low_bytes(0u8);
        assert(byte_of_bits(true, false, false, false, false, false, false, false) == 1u8)
            by (bit_vector);
        assert(last == 1u8) by {
            assert(bit_of_byte(last, 0));
            assert(forall|i: int| 0 < i < 8 ==> !bit_of_byte(last, i));
            assert(last == byte_of_bits(
                bit_of_byte(last, 0), bit_of_byte(last, 1), bit_of_byte(last, 2),
                bit_of_byte(last, 3), bit_of_byte(last, 4), bit_of_byte(last, 5),
                bit_of_byte(last, 6), bit_of_byte(last, 7),
            ));
        }
    }
    // reading the encoding back yields the original bits
    let prefix = enc.drop_last();
    assert(prefix.len() == nb - 1);
    let front = bits_of_bytes(prefix);
    assert(front.len() == 8 * (nb - 1));
    assert forall|j: int| 0 <= j < 8 * (nb - 1) implies front[j] == bits[j] by {
        lemma_div8(j);
        lemma_div8_bound(j, nb - 1);
        assert(prefix[j / 8] == pack_byte(ext, j / 8));
        lemma_pack_byte_bit(ext, j / 8, j % 8);
        assert(j < l);
    }
    let tail = bits_of_bytes(seq![enc.last()]).take(high_bit(enc.last()));
    assert(enc.last() == last);
    assert(tail.len() == m);
    assert forall|i: int| 0 <= i < m implies tail[i] == bits[8 * (nb - 1) + i] by {
        assert(tail[i] == bit_of_byte(last, i));
        assert(8 * (l / 8) + i < l);
    }
    assert(decoded_bits(enc) =~= bits);
}

} // verus!
