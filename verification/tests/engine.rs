use community_coin::blockchain::CommunityBlockchain;
use community_coin::errors::ChainError;

fn fresh(path: &str) {
    let db = sled::open(path).unwrap();
    db.clear().unwrap();
    db.flush().unwrap();
}

fn initial(pairs: &[(&str, u64)]) -> Vec<(String, u64)> {
    let mut v: Vec<(String, u64)> = Vec::new();
    for (a, b) in pairs {
        v.push((a.to_string(), *b));
    }
    v
}

#[test]
fn test_full_transaction_and_mining_flow() {
    let db_path = "/tmp/test_db_full_flow";
    fresh(db_path);
    let initial_wallets = initial(&[("alice", 1000), ("bob", 500)]);
    let mut blockchain = CommunityBlockchain::new(&initial_wallets, db_path).unwrap();

    let tx_id = blockchain
        .create_transaction("alice".to_string(), "bob".to_string(), 100)
        .unwrap();
    assert!(!tx_id.is_empty());

    let pending_txs = blockchain.get_pending();
    assert_eq!(pending_txs.len(), 1);
    assert_eq!(pending_txs[0].tx_id, tx_id);

    let block = blockchain.mine_block("miner".to_string()).unwrap();
    blockchain.add_block(block).unwrap();

    let alice_balance = blockchain.get_balance("alice").unwrap();
    let bob_balance = blockchain.get_balance("bob").unwrap();
    assert_eq!(alice_balance, 899);
    assert_eq!(bob_balance, 600);

    let pending_txs_after_mining = blockchain.get_pending();
    assert!(pending_txs_after_mining.is_empty());
}

#[test]
fn test_signature_verification_after_reload() {
    let db_path = "/tmp/test_db_sig_reload";
    fresh(db_path);
    let initial_wallets = initial(&[("alice", 1000)]);

    {
        let mut blockchain = CommunityBlockchain::new(&initial_wallets, db_path).unwrap();
        blockchain
            .create_transaction("alice".to_string(), "bob".to_string(), 100)
            .unwrap();

        let block = blockchain.mine_block("miner1".to_string()).unwrap();
        blockchain.add_block(block).unwrap();
    }

    let mut blockchain = CommunityBlockchain::load(db_path).unwrap();

    let tx_id = blockchain
        .create_transaction("alice".to_string(), "charlie".to_string(), 50)
        .unwrap();

    let pending_txs = blockchain.get_pending();
    let tx = pending_txs.iter().find(|t| t.tx_id == tx_id).unwrap();
    assert!(blockchain.verify_signature(tx));
}

#[test]
fn basic_transfer_settles_fee_and_balances() {
    let db_path = "/tmp/test_db_s1";
    fresh(db_path);
    let mut bc = CommunityBlockchain::new(&initial(&[("alice", 1000), ("bob", 500)]), db_path)
        .unwrap();
    bc.create_transaction("alice".to_string(), "bob".to_string(), 100)
        .unwrap();
    let pending = bc.get_pending();
    assert_eq!(pending.len(), 1);
    assert_eq!(pending[0].fee, 1);
    assert_eq!(pending[0].nonce, 1);
    let block = bc.mine_block("miner".to_string()).unwrap();
    bc.add_block(block).unwrap();
    assert_eq!(bc.get_balance("alice").unwrap(), 899);
    assert_eq!(bc.get_balance("bob").unwrap(), 600);
    let stats = bc.get_stats();
    assert_eq!(stats.total_coins, 1499);
    assert!(stats.is_valid);
}

#[test]
fn hundred_transfers_consume_consecutive_nonces() {
    let db_path = "/tmp/test_db_s2";
    fresh(db_path);
    let mut bc = CommunityBlockchain::new(&initial(&[("alice", 1000)]), db_path).unwrap();
    let mut i = 0u64;
    while i < 100 {
        bc.create_transaction("alice".to_string(), "bob".to_string(), 1)
            .unwrap();
        i += 1;
    }
    let block = bc.mine_block("miner".to_string()).unwrap();
    assert_eq!(block.transactions.len(), 100);
    for (k, tx) in block.transactions.iter().enumerate() {
        assert_eq!(tx.nonce, (k as u64) + 1);
    }
    bc.add_block(block).unwrap();
    assert_eq!(bc.get_balance("alice").unwrap(), 800);
    assert_eq!(bc.get_balance("bob").unwrap(), 100);
    assert_eq!(bc.get_user_transactions("alice").len(), 100);
}

#[test]
fn leaderboard_orders_by_balance() {
    let db_path = "/tmp/test_db_s3";
    fresh(db_path);
    let bc = CommunityBlockchain::new(
        &initial(&[("alice", 1000), ("bob", 500), ("charlie", 750)]),
        db_path,
    )
    .unwrap();
    let board = bc.get_leaderboard();
    assert_eq!(board.len(), 3);
    assert_eq!(board[0].address, "alice");
    assert_eq!(board[1].address, "charlie");
    assert_eq!(board[2].address, "bob");
}

#[test]
fn zero_amount_is_rejected_without_side_effect() {
    let db_path = "/tmp/test_db_s4";
    fresh(db_path);
    let mut bc = CommunityBlockchain::new(&initial(&[("alice", 1000), ("bob", 500)]), db_path)
        .unwrap();
    let r = bc.create_transaction("alice".to_string(), "bob".to_string(), 0);
    assert_eq!(r.unwrap_err(), ChainError::InvalidAmount);
    assert!(bc.get_pending().is_empty());
}

#[test]
fn unfunded_transfer_is_rejected() {
    let db_path = "/tmp/test_db_s5";
    fresh(db_path);
    let mut bc = CommunityBlockchain::new(&initial(&[("alice", 10)]), db_path).unwrap();
    let r = bc.create_transaction("alice".to_string(), "bob".to_string(), 11);
    assert_eq!(r.unwrap_err(), ChainError::InsufficientFunds);
    assert!(bc.get_pending().is_empty());
}

#[test]
fn reload_preserves_balances_and_signing() {
    let db_path = "/tmp/test_db_s6";
    fresh(db_path);
    {
        let mut bc = CommunityBlockchain::new(&initial(&[("alice", 1000), ("bob", 500)]), db_path)
            .unwrap();
        bc.create_transaction("alice".to_string(), "bob".to_string(), 100)
            .unwrap();
        let block = bc.mine_block("miner".to_string()).unwrap();
        bc.add_block(block).unwrap();
        assert_eq!(bc.get_balance("alice").unwrap(), 899);
    }
    let mut bc = CommunityBlockchain::load(db_path).unwrap();
    assert_eq!(bc.get_balance("alice").unwrap(), 899);
    assert_eq!(bc.get_balance("bob").unwrap(), 600);
    let tx_id = bc
        .create_transaction("alice".to_string(), "charlie".to_string(), 50)
        .unwrap();
    let pending = bc.get_pending();
    let tx = pending.iter().find(|t| t.tx_id == tx_id).unwrap();
    assert!(bc.verify_signature(tx));
}

#[test]
fn tampered_block_fails_verification() {
    let db_path = "/tmp/test_db_s7";
    fresh(db_path);
    {
        let mut bc = CommunityBlockchain::new(&initial(&[("alice", 1000), ("bob", 500)]), db_path)
            .unwrap();
        bc.create_transaction("alice".to_string(), "bob".to_string(), 100)
            .unwrap();
        let block = bc.mine_block("miner".to_string()).unwrap();
        bc.add_block(block).unwrap();
        assert!(bc.verify_chain());
    }
    // flip one hexadecimal digit of the stored hash of block one
    {
        let db = sled::open(db_path).unwrap();
        let key = "block:00000000000000000001";
        let value = db.get(key).unwrap().unwrap();
        let mut bytes = value.to_vec();
        let marker = b"\"hash\":\"";
        let pos = bytes
            .windows(marker.len())
            .position(|w| w == marker)
            .unwrap();
        let target = pos + marker.len();
        bytes[target] = if bytes[target] == b'0' { b'1' } else { b'0' };
        db.insert(key, bytes).unwrap();
        db.flush().unwrap();
    }
    let bc = CommunityBlockchain::load(db_path).unwrap();
    assert!(!bc.verify_chain());
}

#[test]
fn stale_blocks_are_rejected() {
    let db_path = "/tmp/test_db_reject";
    fresh(db_path);
    let mut bc = CommunityBlockchain::new(&initial(&[("alice", 1000), ("bob", 500)]), db_path)
        .unwrap();
    bc.create_transaction("alice".to_string(), "bob".to_string(), 100)
        .unwrap();
    let block = bc.mine_block("miner".to_string()).unwrap();

    let mut bad_index = block.clone();
    bad_index.index = 7;
    assert_eq!(bc.add_block(bad_index).unwrap_err(), ChainError::BadIndex);

    let mut bad_link = block.clone();
    bad_link.prev_hash = "somewhere_else".to_string();
    assert_eq!(bc.add_block(bad_link).unwrap_err(), ChainError::BadLink);

    let mut bad_hash = block.clone();
    bad_hash.timestamp = bad_hash.timestamp.wrapping_add(1);
    assert_eq!(bc.add_block(bad_hash).unwrap_err(), ChainError::BadHash);

    bc.add_block(block).unwrap();
    assert!(bc.verify_chain());
    assert_eq!(bc.get_balance("alice").unwrap(), 899);
}

#[test]
fn unknown_sender_and_wallet_are_reported() {
    let db_path = "/tmp/test_db_unknown";
    fresh(db_path);
    let mut bc = CommunityBlockchain::new(&initial(&[("alice", 1000)]), db_path).unwrap();
    let r = bc.create_transaction("nobody".to_string(), "alice".to_string(), 5);
    assert_eq!(r.unwrap_err(), ChainError::UnknownSender);
    assert_eq!(bc.get_balance("ghost").unwrap_err(), ChainError::UnknownWallet);
    assert!(matches!(bc.get_wallet("ghost"), Err(ChainError::UnknownWallet)));
}

#[test]
fn empty_mempool_cannot_mine() {
    let db_path = "/tmp/test_db_empty";
    fresh(db_path);
    let mut bc = CommunityBlockchain::new(&initial(&[("alice", 1000)]), db_path).unwrap();
    assert!(matches!(
        bc.mine_block("miner".to_string()),
        Err(ChainError::EmptyBlock)
    ));
}

#[test]
fn rejected_transactions_return_to_the_mempool() {
    let db_path = "/tmp/test_db_kept";
    fresh(db_path);
    let mut bc = CommunityBlockchain::new(&initial(&[("alice", 10000)]), db_path).unwrap();
    // the second transfer exceeds the shadow balance left by the first
    bc.create_transaction("alice".to_string(), "bob".to_string(), 9000)
        .unwrap();
    bc.create_transaction("alice".to_string(), "bob".to_string(), 901)
        .unwrap();
    let block = bc.mine_block("miner".to_string()).unwrap();
    assert_eq!(block.transactions.len(), 1);
    assert_eq!(block.transactions[0].amount, 9000);
    let kept = bc.get_pending();
    assert_eq!(kept.len(), 1);
    assert_eq!(kept[0].amount, 901);
    bc.add_block(block).unwrap();
    assert_eq!(bc.get_balance("alice").unwrap(), 10000 - 9000 - 90);
}

#[test]
fn signature_transport_is_base64_of_a_real_signature() {
    let db_path = "/tmp/test_db_sigshape";
    fresh(db_path);
    let mut bc = CommunityBlockchain::new(&initial(&[("alice", 1000)]), db_path).unwrap();
    bc.create_transaction("alice".to_string(), "bob".to_string(), 10)
        .unwrap();
    let pending = bc.get_pending();
    let tx = &pending[0];
    // 64 signature bytes carry to 88 base64 characters
    assert_eq!(tx.signature.len(), 88);
    assert_ne!(tx.signature, tx.tx_id);
    assert!(bc.verify_signature(tx));
    // a different message must not verify under the same signature
    let mut other = tx.clone();
    other.tx_id = format!("{}x", tx.tx_id);
    assert!(!bc.verify_signature(&other));
}

#[test]
fn sealed_blocks_carry_hex_digests() {
    let db_path = "/tmp/test_db_digests";
    fresh(db_path);
    let mut bc = CommunityBlockchain::new(&initial(&[("alice", 1000)]), db_path).unwrap();
    bc.create_transaction("alice".to_string(), "bob".to_string(), 10)
        .unwrap();
    let block = bc.mine_block("miner".to_string()).unwrap();
    assert_eq!(block.hash.len(), 64);
    assert_eq!(block.state_root.len(), 64);
    assert!(block.hash.chars().all(|c| c.is_ascii_hexdigit()));
    assert!(block.state_root.chars().all(|c| c.is_ascii_hexdigit()));
    assert_ne!(block.hash, block.state_root);
    assert_eq!(block.prev_hash, "genesis");
    assert_eq!(block.index, 1);
}

#[test]
fn inapplicable_block_is_rejected_as_insufficient_funds() {
    // a sealed block mined on a rich chain cannot be applied to a chain
    // that never knew its sender: index, link and hash all pass (both
    // chains share the literal genesis), yet application must fail
    let rich_path = "/tmp/test_db_inapplicable_rich";
    let poor_path = "/tmp/test_db_inapplicable_poor";
    fresh(rich_path);
    fresh(poor_path);
    let mut rich = CommunityBlockchain::new(&initial(&[("alice", 1000)]), rich_path).unwrap();
    rich.create_transaction("alice".to_string(), "bob".to_string(), 100)
        .unwrap();
    let block = rich.mine_block("miner".to_string()).unwrap();

    let mut poor = CommunityBlockchain::new(&initial(&[("carol", 5)]), poor_path).unwrap();
    let r = poor.add_block(block);
    assert_eq!(r.unwrap_err(), ChainError::InsufficientFunds);
    assert_eq!(poor.get_chain().len(), 1);
    assert_eq!(poor.get_balance("carol").unwrap(), 5);
}
