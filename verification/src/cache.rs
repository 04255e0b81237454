//! A dirty-leaf cache: reusable state that a composite, leaf-structured
//! value consults before re-invoking its expensive tree builder. It tracks
//! which Merkle leaves are stale after a mutation and whether a previously
//! computed root may still be trusted.

use vstd::prelude::*;

use crate::merkle::{zero_chunk, Node};

verus! {

/// The mathematical state of a dirty-leaf cache.
pub struct CacheModel {
    pub leaf_count: nat,
    pub dirty: Seq<bool>,
    pub root: Seq<u8>,
}

/// A cached root may be trusted only when the cache has leaves, the root is
/// not the zero sentinel, no leaf has been invalidated since the last
/// committed root, and the flag count still matches the leaf count (no
/// unresolved resize). Any staleness invalidates the whole root.
pub open spec fn valid_spec(c: CacheModel) -> bool {
    &&& c.leaf_count != 0
    &&& c.root != zero_chunk()
    &&& c.dirty.len() == c.leaf_count
    &&& forall|i: int| 0 <= i < c.dirty.len() ==> !c.dirty[i]
}

/// The state after sizing a cache: every leaf dirty, the sentinel root.
pub open spec fn with_leaves_spec(n: nat) -> CacheModel {
    CacheModel { leaf_count: n, dirty: Seq::new(n, |i: int| true), root: zero_chunk() }
}

/// The state after marking one leaf stale; out-of-range indices change
/// nothing.
pub open spec fn invalidate_spec(c: CacheModel, i: int) -> CacheModel {
    if 0 <= i < c.dirty.len() {
        CacheModel { dirty: c.dirty.update(i, true), ..c }
    } else {
        c
    }
}

/// The state after resizing the flag set; newly introduced leaves default
/// to dirty.
pub open spec fn resize_spec(c: CacheModel, bound: nat) -> CacheModel {
    CacheModel {
        dirty: if bound <= c.dirty.len() {
            c.dirty.take(bound as int)
        } else {
            c.dirty + Seq::new((bound - c.dirty.len()) as nat, |i: int| true)
        },
        ..c
    }
}

/// The state after committing a freshly computed root: the root is
/// replaced wholesale and every leaf is clean, since the new root reflects
/// every leaf at commit time.
pub open spec fn update_spec(c: CacheModel, root: Seq<u8>) -> CacheModel {
    CacheModel { root, dirty: Seq::new(c.dirty.len(), |i: int| false), ..c }
}

/// A dirty-leaf cache, owned exclusively by the composite value whose
/// merkleization it accelerates.
pub struct Cache {
    leaf_count: u64,
    dirty_leaves: Vec<bool>,
    root: Node,
}

impl View for Cache {
    type V = CacheModel;

    closed spec fn view(&self) -> CacheModel {
        CacheModel {
            leaf_count: self.leaf_count as nat,
            dirty: self.dirty_leaves@,
            root: self.root@,
        }
    }
}

impl Cache {
    /// The stored root always holds exactly 32 bytes.
    pub closed spec fn wf(&self) -> bool {
        self.root.wf()
    }

    /// Size the cache for `leaf_count` leaves: all leaves dirty, the root
    /// reset to the zero sentinel.
    pub fn with_leaves(leaf_count: usize) -> (r: Self)
        ensures
            r.wf(),
            r@ == with_leaves_spec(leaf_count as nat),
    {
        let mut dirty_leaves: Vec<bool> = Vec::new();
        let mut i: usize = 0;
        while i < leaf_count
            invariant
                i <= leaf_count,
                dirty_leaves@.len() == i,
                forall|k: int| 0 <= k < i ==> dirty_leaves@[k],
            decreases leaf_count - i,
        {
            dirty_leaves.push(true);
            i += 1;
        }
        let r = Cache { leaf_count: leaf_count as u64, dirty_leaves, root: Node::zero() };
        proof {
            assert(r@.dirty =~= with_leaves_spec(leaf_count as nat).dirty);
        }
        r
    }

    /// Whether the cached root may be trusted.
    pub fn valid(&self) -> (r: bool)
        ensures
            r == valid_spec(self@),
    {
        if self.leaf_count == 0 || self.root.is_zero() || self.dirty_leaves.len() == 0 {
            return false;
        }
        if self.leaf_count != self.dirty_leaves.len() as u64 {
            return false;
        }
        let mut i: usize = 0;
        while i < self.dirty_leaves.len()
            invariant
                i <= self.dirty_leaves@.len(),
                forall|k: int| 0 <= k < i ==> !self.dirty_leaves@[k],
            decreases self.dirty_leaves@.len() - i,
        {
            if self.dirty_leaves[i] {
                return false;
            }
            i += 1;
        }
        true
    }

    /// Mark one leaf stale. Out-of-range indices are silently ignored;
    /// callers are trusted to pass valid indices.
    pub fn invalidate(&mut self, leaf_index: usize)
        requires
            old(self).wf(),
        ensures
            final(self).wf(),
            final(self)@ == invalidate_spec(old(self)@, leaf_index as int),
    {
        if leaf_index < self.dirty_leaves.len() {
            self.dirty_leaves.set(leaf_index, true);
        }
    }

    /// Grow or shrink the flag set to `bound` entries; newly introduced
    /// leaves default to dirty.
    pub fn resize(&mut self, bound: usize)
        requires
            old(self).wf(),
        ensures
            final(self).wf(),
            final(self)@ == resize_spec(old(self)@, bound as nat),
    {
        if bound <= self.dirty_leaves.len() {
            self.dirty_leaves.truncate(bound);
            proof {
                assert(final(self)@.dirty =~= resize_spec(old(self)@, bound as nat).dirty);
            }
        } else {
            let mut i = self.dirty_leaves.len();
            while i < bound
                invariant
                    old(self)@.dirty.len() <= i <= bound,
                    self.dirty_leaves@.len() == i,
                    self.leaf_count == old(self).leaf_count,
                    self.root == old(self).root,
                    self.dirty_leaves@.subrange(0, old(self)@.dirty.len() as int)
                        == old(self)@.dirty,
                    forall|k: int| old(self)@.dirty.len() <= k < i ==> self.dirty_leaves@[k],
                decreases bound - i,
            {
                self.dirty_leaves.push(true);
                i += 1;
                proof {
                    assert(self.dirty_leaves@.subrange(0, old(self)@.dirty.len() as int)
                        =~= old(self)@.dirty);
                }
            }
            proof {
                assert(final(self)@.dirty =~= resize_spec(old(self)@, bound as nat).dirty);
            }
        }
    }

    /// Commit a freshly computed root. The root reflects every leaf at
    /// commit time, so all dirty flags are cleared.
    pub fn update(&mut self, root: Node)
        requires
            old(self).wf(),
            root.wf(),
        ensures
            final(self).wf(),
            final(self)@ == update_spec(old(self)@, root@),
    {
        self.root = root;
        let n = self.dirty_leaves.len();
        let mut i: usize = 0;
        while i < n
            invariant
                i <= n,
                n == self.dirty_leaves@.len(),
                self.leaf_count == old(self).leaf_count,
                self.root@ == root@,
                self.root.wf(),
                forall|k: int| 0 <= k < i ==> !self.dirty_leaves@[k],
            decreases n - i,
        {
            self.dirty_leaves.set(i, false);
            i += 1;
        }
        proof {
            assert(final(self)@.dirty =~= update_spec(old(self)@, root@).dirty);
        }
    }

    /// The last committed root, or the zero sentinel if none was.
    pub fn root(&self) -> (r: Node)
        requires
            self.wf(),
        ensures
            r@ == self@.root,
            r.wf(),
    {
        self.root.clone()
    }
}

/// Law: right after sizing, a cache never reports valid — either it has no
/// leaves, or every leaf starts dirty.
pub proof fn lemma_with_leaves_not_valid(n: nat)
    ensures
        !valid_spec(with_leaves_spec(n)),
{
    if n > 0 {
        assert(with_leaves_spec(n).dirty[0]);
    }
}

/// Law: committing a non-zero root to a populated cache whose flag count
/// matches its leaf count makes it valid.
pub proof fn lemma_update_valid(c: CacheModel, root: Seq<u8>)
    requires
        root != zero_chunk(),
        c.leaf_count != 0,
        c.dirty.len() == c.leaf_count,
    ensures
        valid_spec(update_spec(c, root)),
{
}

/// Law: invalidating any in-range leaf of a valid cache spoils its
/// validity.
pub proof fn lemma_invalidate_not_valid(c: CacheModel, i: int)
    requires
        valid_spec(c),
        0 <= i < c.dirty.len(),
    ensures
        !valid_spec(invalidate_spec(c, i)),
{
    assert(invalidate_spec(c, i).dirty[i]);
}

/// Law: growing the flag set past its current size spoils validity even if
/// the cache was valid before — the new leaves are dirty.
pub proof fn lemma_resize_grow_not_valid(c: CacheModel, bound: nat)
    requires
        bound > c.dirty.len(),
    ensures
        !valid_spec(resize_spec(c, bound)),
{
    assert(resize_spec(c, bound).dirty[c.dirty.len() as int]);
}

} // verus!
