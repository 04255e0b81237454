//! Hash tree nodes and the Merkle services the bit list consumes: building
//! a root over 32-byte chunks under a leaf-count bound, padding a byte
//! buffer to whole chunks, and mixing a length into a root.

use vstd::prelude::*;

use sha2::{Digest, Sha256};
use vstd::arithmetic::div_mod::{
    lemma_fundamental_div_mod, lemma_fundamental_div_mod_converse, lemma_small_mod,
};
use vstd::arithmetic::power2::{lemma2_to64, lemma_pow2_pos, lemma_pow2_unfold, pow2};

verus! {

/// Why merkleization was refused.
#[derive(Debug, Clone, Copy, PartialEq, Eq, Structural)]
pub enum MerkleizationError {
    /// More chunks were supplied than the declared leaf bound allows.
    InputExceedsLimit,
}

/// What SHA-256 returns for a byte sequence.
pub uninterp spec fn sha256_of(input: Seq<u8>) -> Seq<u8>;

/// Relies on sha2's SHA-256: the digest is 32 bytes and depends on the
/// input bytes alone.
#[verifier::external_body]
fn sha256(input: &Vec<u8>) -> (r: Vec<u8>)
    ensures
        r@ == sha256_of(input@),
        r@.len() == 32,
{
    Sha256::digest(input.as_slice()).to_vec()
}

/// The 32 zero bytes: the contents of an absent chunk, and of the zero
/// sentinel node.
pub open spec fn zero_chunk() -> Seq<u8> {
    Seq::new(32, |i: int| 0u8)
}

/// A fixed-size 32-byte digest. The all-zero value is a distinguished
/// sentinel meaning "no digest computed".
#[derive(Debug)]
pub struct Node {
    bytes: Vec<u8>,
}

impl View for Node {
    type V = Seq<u8>;

    closed spec fn view(&self) -> Seq<u8> {
        self.bytes@
    }
}

impl Node {
    /// A node always holds exactly 32 bytes.
    pub open spec fn wf(&self) -> bool {
        self@.len() == 32
    }

    /// The zero sentinel.
    pub fn zero() -> (r: Self)
        ensures
            r.wf(),
            r@ == zero_chunk(),
    {
        let mut bytes: Vec<u8> = Vec::new();
        let mut i: usize = 0;
        while i < 32
            invariant
                i <= 32,
                bytes@.len() == i,
                forall|k: int| 0 <= k < i ==> bytes@[k] == 0u8,
            decreases 32 - i,
        {
            bytes.push(0u8);
            i += 1;
        }
        let r = Node { bytes };
        proof {
            assert(r@ =~= zero_chunk());
        }
        r
    }

    /// Wrap 32 raw bytes as a node.
    pub fn from_bytes(bytes: Vec<u8>) -> (r: Self)
        requires
            bytes@.len() == 32,
        ensures
            r.wf(),
            r@ == bytes@,
    {
        Node { bytes }
    }

    /// The raw bytes of the digest.
    pub fn as_bytes(&self) -> (r: &Vec<u8>)
        ensures
            r@ == self@,
    {
        &self.bytes
    }

    /// Whether this node is the zero sentinel.
    pub fn is_zero(&self) -> (r: bool)
        ensures
            r == (self@ == zero_chunk()),
    {
        if self.bytes.len() != 32 {
            return false;
        }
        let mut i: usize = 0;
        while i < 32
            invariant
                i <= 32,
                self.bytes@.len() == 32,
                forall|k: int| 0 <= k < i ==> self.bytes@[k] == 0u8,
            decreases 32 - i,
        {
            if self.bytes[i] != 0 {
                return false;
            }
            i += 1;
        }
        proof {
            assert(self@ =~= zero_chunk());
        }
        true
    }
}

impl Clone for Node {
    /// A copy carries the same digest bytes.
    fn clone(&self) -> (r: Self)
        ensures
            r@ == self@,
    {
        let mut bytes: Vec<u8> = Vec::new();
        let mut i: usize = 0;
        while i < self.bytes.len()
            invariant
                i <= self.bytes@.len(),
                bytes@ == self.bytes@.subrange(0, i as int),
            decreases self.bytes@.len() - i,
        {
            bytes.push(self.bytes[i]);
            i += 1;
            proof {
                assert(bytes@ =~= self.bytes@.subrange(0, i as int));
            }
        }
        proof {
            assert(self.bytes@.subrange(0, self.bytes@.len() as int) =~= self.bytes@);
        }
        Node { bytes }
    }
}

impl PartialEq for Node {
    /// Two nodes are equal when their digest bytes are.
    fn eq(&self, other: &Self) -> (r: bool) {
        if self.bytes.len() != other.bytes.len() {
            return false;
        }
        let mut i: usize = 0;
        while i < self.bytes.len()
            invariant
                i <= self.bytes@.len(),
                self.bytes@.len() == other.bytes@.len(),
                forall|k: int| 0 <= k < i ==> self.bytes@[k] == other.bytes@[k],
            decreases self.bytes@.len() - i,
        {
            if self.bytes[i] != other.bytes[i] {
                return false;
            }
            i += 1;
        }
        proof {
            assert(self.bytes@ =~= other.bytes@);
        }
        true
    }
}

impl vstd::std_specs::cmp::PartialEqSpecImpl for Node {
    open spec fn obeys_eq_spec() -> bool {
        true
    }

    open spec fn eq_spec(&self, other: &Node) -> bool {
        self@ == other@
    }
}

/// Chunk `i` of a chunk-aligned byte sequence, the zero chunk past the end.
pub open spec fn chunk_at(chunks: Seq<u8>, i: int) -> Seq<u8> {
    if 0 <= i && 32 * i + 32 <= chunks.len() {
        chunks.subrange(32 * i, 32 * i + 32)
    } else {
        zero_chunk()
    }
}

/// The root of the subtree of height `depth` whose leaves are chunks
/// `off .. off + 2^depth`.
pub open spec fn merkle_node_spec(chunks: Seq<u8>, depth: nat, off: int) -> Seq<u8>
    decreases depth,
{
    if depth == 0 {
        chunk_at(chunks, off)
    } else {
        sha256_of(
            merkle_node_spec(chunks, (depth - 1) as nat, off) + merkle_node_spec(
                chunks,
                (depth - 1) as nat,
                off + pow2((depth - 1) as nat),
            ),
        )
    }
}

/// The smallest tree depth whose leaf count reaches `n`.
pub open spec fn log2_ceil(n: nat) -> nat
    decreases n,
{
    if n <= 1 {
        0
    } else {
        (1 + log2_ceil(((n - 1) / 2 + 1) as nat)) as nat
    }
}

/// The root of the binary Merkle tree over the 32-byte chunks of `chunks`,
/// zero-padded to the power of two that covers a leaf bound of `limit`.
pub open spec fn merkleize_spec(chunks: Seq<u8>, limit: nat) -> Seq<u8> {
    merkle_node_spec(chunks, log2_ceil(limit), 0)
}

/// A depth whose leaf count reaches `n`, and whose predecessor's does not,
/// is `log2_ceil(n)`.
proof fn lemma_log2_ceil_char(n: nat, d: nat)
    requires
        pow2(d) >= n,
        d > 0 ==> pow2((d - 1) as nat) < n,
    ensures
        d == log2_ceil(n),
    decreases d,
{
    lemma2_to64();
    if d == 0 {
        assert(n <= 1);
    } else {
        lemma_pow2_pos((d - 1) as nat);
        assert(n >= 2);
        let m = ((n - 1) / 2 + 1) as nat;
        lemma_fundamental_div_mod(n as int - 1, 2);
        lemma_pow2_unfold(d);
        assert(pow2((d - 1) as nat) >= m);
        if d - 1 > 0 {
            lemma_pow2_unfold((d - 1) as nat);
            assert(pow2((d - 2) as nat) < m);
        }
        lemma_log2_ceil_char(m, (d - 1) as nat);
    }
}

/// Chunk index arithmetic under 32-byte alignment.
proof fn lemma_chunk_bound(off: int, len: int)
    requires
        0 <= off,
        0 <= len,
        len % 32 == 0,
    ensures
        off < len / 32 ==> 32 * off + 32 <= len,
        off >= len / 32 ==> 32 * off >= len,
{
    lemma_fundamental_div_mod(len, 32);
    assert((off < len / 32 ==> 32 * off + 32 <= len) && (off >= len / 32 ==> 32 * off >= len))
        by (nonlinear_arith)
        requires
            len == 32 * (len / 32),
            0 <= off,
    ;
}

/// The root of one subtree, computed recursively over the packed chunks.
fn merkle_node(chunks: &Vec<u8>, off: usize, depth: usize, width: usize) -> (r: Vec<u8>)
    requires
        chunks@.len() % 32 == 0,
        width == pow2(depth as nat),
        off as int + width as int <= usize::MAX as int,
    ensures
        r@ == merkle_node_spec(chunks@, depth as nat, off as int),
        r@.len() == 32,
    decreases depth,
{
    if depth == 0 {
        proof {
            lemma_chunk_bound(off as int, chunks@.len() as int);
        }
        if off < chunks.len() / 32 {
            let start = 32 * off;
            let mut out: Vec<u8> = Vec::new();
            let mut i: usize = 0;
            while i < 32
                invariant
                    i <= 32,
                    start == 32 * off,
                    start + 32 <= chunks@.len(),
                    out@ == chunks@.subrange(start as int, start as int + i),
                decreases 32 - i,
            {
                out.push(chunks[start + i]);
                i += 1;
                proof {
                    assert(out@ =~= chunks@.subrange(start as int, start as int + i));
                }
            }
            proof {
                assert(out@ =~= chunk_at(chunks@, off as int));
            }
            out
        } else {
            let mut out: Vec<u8> = Vec::new();
            let mut i: usize = 0;
            while i < 32
                invariant
                    i <= 32,
                    out@.len() == i,
                    forall|k: int| 0 <= k < i ==> out@[k] == 0u8,
                decreases 32 - i,
            {
                out.push(0u8);
                i += 1;
            }
            proof {
                assert(out@ =~= zero_chunk());
                assert(chunk_at(chunks@, off as int) == zero_chunk());
            }
            out
        }
    } else {
        proof {
            lemma_pow2_unfold(depth as nat);
            lemma_pow2_pos((depth - 1) as nat);
        }
        let half = width / 2;
        let left = merkle_node(chunks, off, depth - 1, half);
        let mut cat = left;
        let mut right = merkle_node(chunks, off + half, depth - 1, half);
        cat.append(&mut right);
        sha256(&cat)
    }
}

/// Build a binary Merkle tree over the 32-byte chunks of `chunks`,
/// zero-padding the leaf level up to the next power of two that covers
/// `limit` chunks. Fails when more chunks are supplied than `limit` allows.
pub fn merkleize(chunks: &Vec<u8>, limit: usize) -> (r: Result<Node, MerkleizationError>)
    requires
        chunks@.len() % 32 == 0,
        limit <= usize::MAX / 64,
    ensures
        r is Ok <==> chunks@.len() / 32 <= limit,
        r matches Ok(node) ==> node@ == merkleize_spec(chunks@, limit as nat) && node.wf(),
{
    if chunks.len() / 32 > limit {
        return Err(MerkleizationError::InputExceedsLimit);
    }
    let mut p: usize = 1;
    let mut d: usize = 0;
    proof {
        lemma2_to64();
    }
    while p < limit
        invariant
            p == pow2(d as nat),
            d > 0 ==> pow2((d - 1) as nat) < limit,
            limit <= usize::MAX / 64,
            1 <= p,
            d <= p,
        decreases 2 * limit - p,
    {
        proof {
            lemma_pow2_unfold((d + 1) as nat);
            lemma_pow2_pos(d as nat);
        }
        p = p * 2;
        d = d + 1;
    }
    proof {
        lemma_log2_ceil_char(limit as nat, d as nat);
    }
    let root_bytes = merkle_node(chunks, 0, d, p);
    Ok(Node::from_bytes(root_bytes))
}

/// `bytes` zero-padded up to the next whole 32-byte chunk.
pub open spec fn chunk_pad(bytes: Seq<u8>) -> Seq<u8> {
    bytes + Seq::new(((32 - bytes.len() % 32) % 32) as nat, |i: int| 0u8)
}

/// Pad a byte buffer with zeros, in place, to a 32-byte multiple.
pub fn pack_bytes(buffer: &mut Vec<u8>)
    requires
        old(buffer)@.len() <= usize::MAX - 31,
    ensures
        final(buffer)@ == chunk_pad(old(buffer)@),
        final(buffer)@.len() % 32 == 0,
{
    let rem = buffer.len() % 32;
    proof {
        lemma_fundamental_div_mod(old(buffer)@.len() as int, 32);
        if rem != 0 {
            lemma_small_mod((32 - rem) as nat, 32);
            lemma_fundamental_div_mod_converse(
                old(buffer)@.len() as int + (32 - rem),
                32,
                old(buffer)@.len() as int / 32 + 1,
                0,
            );
        } else {
            lemma_small_mod(0, 32);
        }
    }
    if rem != 0 {
        let pad = 32 - rem;
        let mut i: usize = 0;
        while i < pad
            invariant
                i <= pad,
                buffer@.len() == old(buffer)@.len() + i,
                buffer@ == old(buffer)@ + Seq::new(i as nat, |k: int| 0u8),
                pad == 32 - old(buffer)@.len() % 32,
                old(buffer)@.len() % 32 != 0,
                old(buffer)@.len() <= usize::MAX - 31,
            decreases pad - i,
        {
            buffer.push(0u8);
            i += 1;
            proof {
                assert(buffer@ =~= old(buffer)@ + Seq::new(i as nat, |k: int| 0u8));
            }
        }
    }
    proof {
        assert(final(buffer)@ =~= chunk_pad(old(buffer)@));
    }
}

/// The 32-byte chunk that carries a length: the count as a 64-bit
/// little-endian integer, zero-extended.
pub open spec fn length_chunk(len: u64) -> Seq<u8> {
    Seq::new(32, |i: int| if i < 8 {
        (((len >> ((8 * i) as u64)) & 0xffu64) as u8)
    } else {
        0u8
    })
}

/// A root with an element count folded in by one further hashing step, so
/// that values differing only in trailing padding are not confused.
pub open spec fn mix_in_length_spec(root: Seq<u8>, len: u64) -> Seq<u8> {
    sha256_of(root + length_chunk(len))
}

/// Fold `length` into a root via one additional hashing step.
pub fn mix_in_length(root: &Node, length: usize) -> (r: Node)
    requires
        root.wf(),
    ensures
        r.wf(),
        r@ == mix_in_length_spec(root@, length as u64),
{
    let rb = root.as_bytes();
    let mut buf: Vec<u8> = Vec::new();
    let mut i: usize = 0;
    while i < rb.len()
        invariant
            i <= rb@.len(),
            rb@ == root@,
            root@.len() == 32,
            buf@ == root@.subrange(0, i as int),
        decreases rb@.len() - i,
    {
        buf.push(rb[i]);
        i += 1;
        proof {
            assert(buf@ =~= root@.subrange(0, i as int));
        }
    }
    let len64: u64 = length as u64;
    let mut k: usize = 0;
    while k < 8
        invariant
            k <= 8,
            root@.len() == 32,
            buf@.len() == 32 + k,
            buf@.subrange(0, 32) == root@,
            forall|j: int| 0 <= j < k ==> #[trigger] buf@[32 + j] == (((len64 >> ((8 * j)
                as u64)) & 0xffu64) as u8),
        decreases 8 - k,
    {
        buf.push((((len64 >> ((8 * k) as u64)) & 0xffu64) as u8));
        k += 1;
        proof {
            assert(buf@.subrange(0, 32) =~= root@);
        }
    }
    let mut z: usize = 8;
    while z < 32
        invariant
            8 <= z <= 32,
            root@.len() == 32,
            buf@.len() == 32 + z,
            buf@.subrange(0, 32) == root@,
            forall|j: int| 0 <= j < 8 ==> #[trigger] buf@[32 + j] == (((len64 >> ((8 * j)
                as u64)) & 0xffu64) as u8),
            forall|j: int| 8 <= j < z ==> #[trigger] buf@[32 + j] == 0u8,
        decreases 32 - z,
    {
        buf.push(0u8);
        z += 1;
        proof {
            assert(buf@.subrange(0, 32) =~= root@);
        }
    }
    proof {
        assert(buf@.len() == 64);
        assert forall|i: int| 0 <= i < 64 implies buf@[i] == (root@ + length_chunk(len64))[i] by {
            if i < 32 {
                assert(buf@[i] == buf@.subrange(0, 32)[i]);
            } else {
                let j = i - 32;
                if j < 8 {
                    assert(buf@[32 + j] == (((len64 >> ((8 * j) as u64)) & 0xffu64) as u8));
                } else {
                    assert(buf@[32 + j] == 0u8);
                }
            }
        }
        assert(buf@ =~= root@ + length_chunk(len64));
    }
    Node::from_bytes(sha256(&buf))
}

} // verus!
