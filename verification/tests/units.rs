use community_coin::codec::{encode_block, encode_wallet, parse_block, parse_wallet, block_key};
use community_coin::model::{Transaction, Block, Wallet, tx_wf_check, block_wf_check};
use community_coin::text::{fee_for, validate_address, validate_amount, u64_to_dec, bytes_to_hex};

#[test]
fn fee_is_one_percent_rounded_up_with_a_floor() {
    assert_eq!(fee_for(1), 1);
    assert_eq!(fee_for(99), 1);
    assert_eq!(fee_for(100), 1);
    assert_eq!(fee_for(101), 2);
    assert_eq!(fee_for(199), 2);
    assert_eq!(fee_for(10_000), 100);
    assert_eq!(fee_for(1_000_000_000_000), 10_000_000_000);
}

#[test]
fn addresses_are_validated() {
    assert!(validate_address("alice"));
    assert!(validate_address("user_42-x"));
    assert!(!validate_address(""));
    assert!(!validate_address("bad space"));
    assert!(!validate_address("quo\"te"));
    assert!(!validate_address("caf\u{e9}"));
    let long = "a".repeat(255);
    assert!(validate_address(&long));
    let too_long = "a".repeat(256);
    assert!(!validate_address(&too_long));
}

#[test]
fn amounts_are_validated() {
    assert!(!validate_amount(0));
    assert!(validate_amount(1));
    assert!(validate_amount(1_000_000_000_000));
    assert!(!validate_amount(1_000_000_000_001));
}

#[test]
fn decimal_and_hex_renderings() {
    assert_eq!(u64_to_dec(0), "0");
    assert_eq!(u64_to_dec(12345), "12345");
    assert_eq!(u64_to_dec(u64::MAX), "18446744073709551615");
    assert_eq!(bytes_to_hex(&[0xde, 0xad, 0xbe, 0xef]), "deadbeef");
    assert_eq!(bytes_to_hex(&[]), "");
    assert_eq!(bytes_to_hex(&[0x00, 0x0f]), "000f");
}

#[test]
fn block_keys_are_zero_padded() {
    assert_eq!(block_key(0), b"block:00000000000000000000".to_vec());
    assert_eq!(block_key(1), b"block:00000000000000000001".to_vec());
    assert_eq!(block_key(31), b"block:00000000000000000031".to_vec());
}

fn sample_tx() -> Transaction {
    Transaction {
        from: "alice".to_string(),
        to: "bob".to_string(),
        amount: 500,
        fee: 5,
        timestamp: 7,
        tx_id: "alice-bob-1-7".to_string(),
        signature: "QUJDRA==".to_string(),
        nonce: 1,
    }
}

fn sample_block() -> Block {
    Block {
        index: 1,
        timestamp: 9,
        transactions: vec![sample_tx()],
        prev_hash: "genesis".to_string(),
        hash: "abc123".to_string(),
        proposer: "miner".to_string(),
        state_root: "deadbeef".to_string(),
    }
}

#[test]
fn block_records_round_trip() {
    let block = sample_block();
    assert!(block_wf_check(&block));
    let bytes = encode_block(&block);
    let parsed = parse_block(&bytes).unwrap();
    assert_eq!(parsed.index, block.index);
    assert_eq!(parsed.timestamp, block.timestamp);
    assert_eq!(parsed.prev_hash, block.prev_hash);
    assert_eq!(parsed.hash, block.hash);
    assert_eq!(parsed.proposer, block.proposer);
    assert_eq!(parsed.state_root, block.state_root);
    assert_eq!(parsed.transactions.len(), 1);
    let pt = &parsed.transactions[0];
    let t = sample_tx();
    assert_eq!(pt.from, t.from);
    assert_eq!(pt.to, t.to);
    assert_eq!(pt.amount, t.amount);
    assert_eq!(pt.fee, t.fee);
    assert_eq!(pt.timestamp, t.timestamp);
    assert_eq!(pt.tx_id, t.tx_id);
    assert_eq!(pt.signature, t.signature);
    assert_eq!(pt.nonce, t.nonce);
}

#[test]
fn empty_block_records_round_trip() {
    let mut block = sample_block();
    block.transactions = Vec::new();
    let bytes = encode_block(&block);
    let parsed = parse_block(&bytes).unwrap();
    assert_eq!(parsed.index, block.index);
    assert!(parsed.transactions.is_empty());
}

#[test]
fn wallet_records_round_trip() {
    let wallet = Wallet {
        address: "alice".to_string(),
        public_key: (0u8..32).collect(),
        balance: 777,
        tx_count: 3,
        created_at: 11,
        last_updated: 12,
    };
    let bytes = encode_wallet(&wallet);
    let parsed = parse_wallet(&bytes).unwrap();
    assert_eq!(parsed.address, wallet.address);
    assert_eq!(parsed.public_key, wallet.public_key);
    assert_eq!(parsed.balance, wallet.balance);
    assert_eq!(parsed.tx_count, wallet.tx_count);
    assert_eq!(parsed.created_at, wallet.created_at);
    assert_eq!(parsed.last_updated, wallet.last_updated);
}

#[test]
fn garbage_records_are_rejected() {
    assert!(parse_block(&b"not json".to_vec()).is_none());
    assert!(parse_block(&Vec::new()).is_none());
    assert!(parse_wallet(&b"{\"address\":\"\"}".to_vec()).is_none());
    // a record with an unlawful fee is rejected even though it parses
    let mut block = sample_block();
    block.transactions[0].fee = 9;
    let bytes = encode_block(&block);
    assert!(parse_block(&bytes).is_none());
}

#[test]
fn transaction_well_formedness_is_checked() {
    assert!(tx_wf_check(&sample_tx()));
    let mut bad = sample_tx();
    bad.amount = 0;
    assert!(!tx_wf_check(&bad));
    let mut bad_fee = sample_tx();
    bad_fee.fee = 2;
    assert!(!tx_wf_check(&bad_fee));
    let mut bad_addr = sample_tx();
    bad_addr.from = "white space".to_string();
    assert!(!tx_wf_check(&bad_addr));
    let mut bad_nonce = sample_tx();
    bad_nonce.nonce = 0;
    assert!(!tx_wf_check(&bad_nonce));
}

#[test]
fn record_encoding_matches_the_persisted_layout() {
    let block = sample_block();
    let bytes = encode_block(&block);
    let text = String::from_utf8(bytes).unwrap();
    assert_eq!(
        text,
        "{\"index\":1,\"timestamp\":9,\"transactions\":[{\"from\":\"alice\",\"to\":\"bob\",\
         \"amount\":500,\"fee\":5,\"timestamp\":7,\"tx_id\":\"alice-bob-1-7\",\
         \"signature\":\"QUJDRA==\",\"nonce\":1}],\"prev_hash\":\"genesis\",\
         \"hash\":\"abc123\",\"proposer\":\"miner\",\"state_root\":\"deadbeef\"}"
    );
}
