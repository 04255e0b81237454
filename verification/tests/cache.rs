use ssz_bits::{Cache, Node};

fn some_root() -> Node {
    let mut bytes = vec![0u8; 32];
    bytes[0] = 0xab;
    bytes[31] = 0x01;
    Node::from_bytes(bytes)
}

#[test]
fn fresh_cache_is_not_valid() {
    let cache = Cache::with_leaves(4);
    assert!(!cache.valid());
    assert!(cache.root().is_zero());

    let empty = Cache::with_leaves(0);
    assert!(!empty.valid());
}

#[test]
fn committing_a_root_validates_the_cache() {
    let mut cache = Cache::with_leaves(4);
    cache.update(some_root());
    assert!(cache.valid());
    assert_eq!(cache.root(), some_root());

    // committing the zero sentinel never validates
    let mut cache = Cache::with_leaves(4);
    cache.update(Node::zero());
    assert!(!cache.valid());
}

#[test]
fn invalidation_spoils_a_valid_cache() {
    let mut cache = Cache::with_leaves(4);
    cache.update(some_root());
    assert!(cache.valid());

    cache.invalidate(2);
    assert!(!cache.valid());

    // a fresh commit reflects the leaves again
    cache.update(some_root());
    assert!(cache.valid());

    // out-of-range invalidation is silently ignored
    cache.invalidate(17);
    assert!(cache.valid());
}

#[test]
fn resizing_spoils_a_valid_cache() {
    let mut cache = Cache::with_leaves(4);
    cache.update(some_root());
    assert!(cache.valid());

    // growing introduces dirty leaves
    cache.resize(8);
    assert!(!cache.valid());

    let mut cache = Cache::with_leaves(4);
    cache.update(some_root());
    // shrinking leaves the flag count behind the leaf count
    cache.resize(2);
    assert!(!cache.valid());
}
