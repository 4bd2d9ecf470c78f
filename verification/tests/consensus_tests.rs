use toychain::block::Block;
use toychain::consensus::resolve_longest_chain;

fn make_chain(tag: &str, n: usize) -> Vec<Block> {
    let mut chain = Vec::new();
    let mut prev = "0".to_string();
    for i in 0..n {
        let b = Block::new(i as i32, i as u64, tag, &prev);
        prev = b.hash.clone();
        chain.push(b);
    }
    chain
}

#[test]
fn consensus_prefers_strictly_longest() {
    let local = make_chain("local", 2);
    let fetched = vec![Some(make_chain("short", 1)), Some(make_chain("long", 5))];
    let r = resolve_longest_chain(&local, &fetched);
    assert_eq!(r.len(), 5);
    assert_eq!(r[0].data, "long");
}

#[test]
fn consensus_keeps_local_on_ties() {
    let local = make_chain("local", 3);
    let fetched = vec![Some(make_chain("peer_a", 3)), Some(make_chain("peer_b", 3))];
    let r = resolve_longest_chain(&local, &fetched);
    assert_eq!(r.len(), 3);
    assert_eq!(r[0].data, "local");
}

#[test]
fn consensus_prefers_first_of_equally_long_peers() {
    let local = make_chain("local", 2);
    let fetched = vec![Some(make_chain("peer_a", 4)), Some(make_chain("peer_b", 4))];
    let r = resolve_longest_chain(&local, &fetched);
    assert_eq!(r.len(), 4);
    assert_eq!(r[0].data, "peer_a");
}

#[test]
fn consensus_survives_failed_peers() {
    let local = make_chain("local", 2);
    let fetched = vec![None, Some(make_chain("alive", 4)), None];
    let r = resolve_longest_chain(&local, &fetched);
    assert_eq!(r.len(), 4);
    assert_eq!(r[0].data, "alive");
}

#[test]
fn consensus_falls_back_to_local() {
    let local = make_chain("local", 2);
    let r = resolve_longest_chain(&local, &vec![None, None]);
    assert_eq!(r.len(), 2);
    assert_eq!(r[0].data, "local");
    let r2 = resolve_longest_chain(&local, &Vec::new());
    assert_eq!(r2.len(), 2);
    assert_eq!(r2[0].data, "local");
}
