use hash_tree::digest::{dir_hash, leaf_hash, metadata_hash};

fn unhex(s: &str) -> Vec<u8> {
    hex::decode(s).unwrap()
}

const ABC: &str = "cb00753f45a35e8bb5a03d699ac65007272c32ab0eded1631a8b605a43ff5bed8086072ba1e7cc2358baeca134c825a7";
const EMPTY: &str = "38b060a751ac96384cd9327eb1b1e36a21fdb71114be07434c0cc7bf63f6e1da274edebfe76f65fbd51ad2f14898b95b";

#[test]
fn metadata_hash_of_abc_is_the_known_sha384() {
    assert_eq!(metadata_hash(b"abc"), unhex(ABC));
}

#[test]
fn metadata_hash_of_nothing_is_the_known_sha384() {
    assert_eq!(metadata_hash(b""), unhex(EMPTY));
}

#[test]
fn metadata_hash_has_48_bytes() {
    assert_eq!(metadata_hash(b"root").len(), 48);
    assert_eq!(hash_tree::digest::DIGEST_LEN, 48);
}

#[test]
fn metadata_hash_is_deterministic() {
    assert_eq!(metadata_hash(b"same bytes"), metadata_hash(b"same bytes"));
    assert_ne!(metadata_hash(b"same bytes"), metadata_hash(b"other bytes"));
}

#[test]
fn leaf_hash_is_the_digest_of_both_digests_in_a_row() {
    // "a" ++ "bc" is "abc"
    assert_eq!(leaf_hash(b"a", b"bc"), unhex(ABC));
    let m = metadata_hash(b"name");
    let d = metadata_hash(b"content");
    let mut both = m.clone();
    both.extend_from_slice(&d);
    assert_eq!(leaf_hash(&m, &d), metadata_hash(&both));
}

#[test]
fn dir_hash_without_children_is_the_digest_of_the_metadata_digest() {
    let m = metadata_hash(b"docs");
    assert_eq!(dir_hash(&m, &vec![]), metadata_hash(&m));
    assert_eq!(dir_hash(b"abc", &vec![]), unhex(ABC));
}

#[test]
fn dir_hash_feeds_the_children_in_the_order_given() {
    assert_eq!(dir_hash(b"a", &vec![b"b".to_vec(), b"c".to_vec()]), unhex(ABC));
    assert_ne!(
        dir_hash(b"a", &vec![b"c".to_vec(), b"b".to_vec()]),
        unhex(ABC)
    );
}
