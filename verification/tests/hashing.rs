use ssz_bits::Bitlist;

const COUNT: usize = 256;

#[test]
fn empty_list_root_is_the_known_vector() {
    // one zero data chunk, with a zero bit count mixed in: the digest of
    // sixty-four zero bytes
    let mut value: Bitlist<COUNT> = Bitlist::default();
    let root = value.hash_tree_root().expect("can hash");
    let expected = hex::decode("f5a5fd42d16a20302798ef6ed309979b43003d2320d9f0e8ea9831a92759fb4b")
        .expect("test data correct");
    assert_eq!(root.as_bytes().as_slice(), expected.as_slice());
    assert!(!root.is_zero());
}

#[test]
fn equal_bit_lists_hash_alike() {
    let mut a: Bitlist<COUNT> = Bitlist::default();
    a.push(false);
    a.push(true);
    let mut b = Bitlist::<COUNT>::deserialize(&[0x06u8]).expect("can decode");
    assert_eq!(a.hash_tree_root().expect("can hash"), b.hash_tree_root().expect("can hash"));
}

#[test]
fn a_single_bit_changes_the_root() {
    let mut a: Bitlist<COUNT> = Bitlist::default();
    a.push(false);
    a.push(true);
    let mut b = a.clone();
    b.set(0, true);
    let ra = a.hash_tree_root().expect("can hash");
    let rb = b.hash_tree_root().expect("can hash");
    assert!(ra != rb);
}

#[test]
fn trailing_false_bits_change_the_root() {
    // the packed chunks agree; only the mixed-in length tells them apart
    let mut a: Bitlist<COUNT> = Bitlist::default();
    a.push(true);
    let mut b: Bitlist<COUNT> = Bitlist::default();
    b.push(true);
    b.push(false);
    let ra = a.hash_tree_root().expect("can hash");
    let rb = b.hash_tree_root().expect("can hash");
    assert!(ra != rb);
}
