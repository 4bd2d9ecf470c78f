use toychain::block::{create_genesis_block, Block};

#[test]
fn fingerprint_deterministic() {
    let a = Block::new(3, 77, "some payload", "prevhash");
    let b = Block::new(3, 77, "some payload", "prevhash");
    assert_eq!(a.hash, b.hash);
    assert_eq!(a.index, 3);
    assert_eq!(a.timestamp, 77);
    assert_eq!(a.data, "some payload");
    assert_eq!(a.previous_hash, "prevhash");
}

#[test]
fn fingerprint_separates_different_content() {
    let a = Block::new(3, 77, "some payload", "prevhash");
    let b = Block::new(3, 77, "other payload", "prevhash");
    assert_ne!(a.hash, b.hash);
}

#[test]
fn fingerprint_is_hex_digest() {
    let a = Block::new(0, 0, "", "0");
    assert_eq!(a.hash.len(), 64);
    assert!(a.hash.chars().all(|c| c.is_ascii_hexdigit()));
}

#[test]
fn genesis_block_shape() {
    let g = create_genesis_block("hello", 123);
    assert_eq!(g.index, 0);
    assert_eq!(g.timestamp, 123);
    assert_eq!(g.data, "hello");
    assert_eq!(g.previous_hash, "0");
    assert_eq!(g.hash, Block::new(0, 123, "hello", "0").hash);
}
