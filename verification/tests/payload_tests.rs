use toychain::errors::ChainError;
use toychain::payload::{decode_payload, encode_payload, parse_amount, BlockPayload, Transaction};

fn tx(from: &str, to: &str, amount: i32) -> Transaction {
    Transaction { from: from.to_string(), to: to.to_string(), amount }
}

#[test]
fn encode_empty_payload_is_canonical() {
    let p = BlockPayload { proof_of_work: 9, transactions: Vec::new() };
    assert_eq!(encode_payload(&p), "{\"proof_of_work\":9,\"transactions\":[]}");
}

#[test]
fn encode_one_transaction() {
    let p = BlockPayload { proof_of_work: 18, transactions: vec![tx("alice", "bob", 5)] };
    assert_eq!(
        encode_payload(&p),
        "{\"proof_of_work\":18,\"transactions\":[{\"from\":\"alice\",\"to\":\"bob\",\"amount\":5}]}"
    );
}

#[test]
fn round_trip_plain() {
    let p = BlockPayload {
        proof_of_work: 36,
        transactions: vec![tx("a", "b", 1), tx("c", "d", -20), tx("", "", 0)],
    };
    let text = encode_payload(&p);
    let q = decode_payload(&text).unwrap();
    assert_eq!(q.proof_of_work, 36);
    assert_eq!(q.transactions.len(), 3);
    for (x, y) in p.transactions.iter().zip(q.transactions.iter()) {
        assert_eq!(x.from, y.from);
        assert_eq!(x.to, y.to);
        assert_eq!(x.amount, y.amount);
    }
}

#[test]
fn round_trip_escapes_and_unicode() {
    let p = BlockPayload {
        proof_of_work: u64::MAX / 9,
        transactions: vec![
            tx("quote\"inside", "back\\slash", i32::MIN),
            tx("mixed\\\"both\"\\", "plain", i32::MAX),
            tx("caf\u{e9} \u{1f980}", "na\u{ef}ve", -1),
        ],
    };
    let text = encode_payload(&p);
    let q = decode_payload(&text).unwrap();
    assert_eq!(q.proof_of_work, p.proof_of_work);
    assert_eq!(q.transactions.len(), p.transactions.len());
    for (x, y) in p.transactions.iter().zip(q.transactions.iter()) {
        assert_eq!(x.from, y.from);
        assert_eq!(x.to, y.to);
        assert_eq!(x.amount, y.amount);
    }
}

#[test]
fn decode_rejects_malformed_text() {
    for bad in [
        "",
        "garbage",
        "{\"proof_of_work\":9,\"transactions\":[]",
        "{\"proof_of_work\":,\"transactions\":[]}",
        "{\"proof_of_work\":9,\"transactions\":[]}trailing",
        "{\"proof_of_work\":9,\"transactions\":[{\"from\":\"a\",\"to\":\"b\"}]}",
        "{\"proof_of_work\":99999999999999999999999999,\"transactions\":[]}",
    ] {
        assert_eq!(decode_payload(bad).unwrap_err(), ChainError::CorruptChainState);
    }
}

#[test]
fn parse_amount_accepts_integers() {
    assert_eq!(parse_amount("42").unwrap(), 42);
    assert_eq!(parse_amount("0").unwrap(), 0);
    assert_eq!(parse_amount("-7").unwrap(), -7);
    assert_eq!(parse_amount("2147483647").unwrap(), 2147483647);
    assert_eq!(parse_amount("-2147483648").unwrap(), -2147483648);
}

#[test]
fn parse_amount_rejects_everything_else() {
    for bad in ["", "abc", "12x", "--5", "2147483648", "-2147483649", " 5"] {
        assert_eq!(parse_amount(bad).unwrap_err(), ChainError::InvalidParameter);
    }
}

#[test]
fn error_messages_name_their_cause() {
    assert_eq!(ChainError::MissingParameter.message(), "missing parameter");
    assert_eq!(ChainError::InvalidParameter.message(), "invalid parameter");
    assert_eq!(ChainError::InvalidProof.message(), "invalid proof");
    assert_eq!(ChainError::CorruptChainState.message(), "corrupt chain state");
    assert_eq!(ChainError::PeerUnreachable.message(), "peer unreachable");
}
