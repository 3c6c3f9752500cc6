//! Tests of the store, the codec, the chain engine and transaction
//! admission.

use jab::admission::{TransactionHelper, TransactionOptions, TransactionRejected};
use jab::amount::Amount;
use jab::block::{Block, Header, Timestamp, Version};
use jab::chain::Chain;
use jab::codec::{emit_block, parse_block};
use jab::database::{BlockchainDatabase, BlockchainError};
use jab::keys::BlockKey;
use jab::merkle::JabMerkleTree;
use jab::messages::{Msg, TransactionErrorCode, TransactionStatus, WalletQueryResult};
use jab::mining::{Miner, MiningDatabase};
use jab::protocol::Outbound;
use jab::store::KvStore;
use jab::transaction::{Transaction, TransactionBuilder, TransactionVersion};
use jab::wallet::Wallet;

const GENESIS_ADDRESS: &str = "jabbe2cce18177f64c3eb2cc51f0bd640dec8b22668";
const GENESIS_SIG: &str = "3045022100a6a9106ecbef322e967438dbc8f1bf0ea8f5ee75cd3519f55e2bb90693d67ee3022042ecad494ead5fd441814201e8ae915a934c29644984cfc3624e48290054a155";

fn genesis_transaction() -> Transaction {
    Chain::genesis_transaction(TransactionVersion::V1, GENESIS_ADDRESS, Amount::new(5000, 1))
        .finish(GENESIS_SIG)
}

/// A transaction announcing a wallet: zero moved, `credit` paid to it.
fn announce(addr: &str, credit: Amount) -> Transaction {
    TransactionBuilder::new(TransactionVersion::V1)
        .input(addr, Amount::zero())
        .output(addr, credit)
        .finish("0")
}

#[test]
fn should_open_leveldb() {
    let _ = KvStore::new();
}

#[test]
fn should_put_and_get_keys() {
    let mut store = KvStore::new();
    store.put(vec![30], String::from("one"));
    assert_eq!(store.get(&vec![30]).unwrap().as_str(), "one");
    assert!(store.get(&vec![10]).is_none());
}

#[test]
fn should_delete_key_from_database() {
    let mut store = KvStore::new();
    store.put(vec![30], String::from("one"));
    store.delete(&vec![30]);
    assert!(store.get(&vec![30]).is_none());
}

#[test]
fn should_put_blocks_in_the_leveldb() {
    let mut database = BlockchainDatabase::new();
    let block = Block::new(
        0,
        Header::new(
            Version::V010,
            None,
            String::from("cafebabe"),
            Timestamp::now(),
        ),
        genesis_transaction(),
    );
    assert!(database.put_block(&block).is_ok());
    assert_eq!(database.get_block(0).unwrap().unwrap(), block);
    assert!(database.get_block(1).unwrap().is_none());
}

#[test]
fn block_json_round_trips() {
    let block = Block::new(
        7,
        Header::new(
            Version::V010,
            Some(String::from("parenthash")),
            String::from("roothash"),
            Timestamp { secs: 1700000000, nanos: 123456789 },
        ),
        TransactionBuilder::new(TransactionVersion::V1)
            .input("alice", Amount::new(1052, 2))
            .output("bob", Amount::new(1050, 2))
            .output("miner", Amount::new(2, 2))
            .finish("sig-goes-here"),
    );
    let text = emit_block(&block);
    let back = parse_block(text.as_str()).unwrap();
    assert_eq!(back, block);
    // the text is a single JSON object other readers accept
    let value: serde_json::Value = serde_json::from_str(text.as_str()).unwrap();
    assert_eq!(value["index"], serde_json::Value::from(7u64));
    assert_eq!(value["txns"]["inputs"][0]["amount"], serde_json::Value::from("10.52"));
}

#[test]
fn parse_rejects_garbage() {
    assert!(parse_block("garbage").is_none());
    assert!(parse_block("").is_none());
    assert!(parse_block("{\"index\":true}").is_none());
}

#[test]
fn genesis_bootstrap_matches_the_constants() {
    let mut chain = Chain::new();
    let genesis = chain.get_genesis_block().unwrap();
    assert_eq!(genesis.index(), 0);
    assert!(genesis.header().previous_block_header_hash().is_none());
    assert_eq!(genesis.header.created_at, Timestamp { secs: 0, nanos: 0 });
    assert_eq!(genesis.transaction().signature(), GENESIS_SIG);
    let tree = JabMerkleTree::new(vec![genesis_transaction()]);
    assert_eq!(genesis.header().merkle_root_hash(), tree.root_hash().as_str());
}

#[test]
fn invalid_successor_is_rejected() {
    let mut chain = Chain::new();
    let bad = Block::new(
        1,
        Header::new(Version::V010, Some(String::from("0")), String::from("m1"), Timestamp::now()),
        announce("alice", Amount::new(10, 0)),
    );
    assert_eq!(chain.add_block(bad), Err(BlockchainError::InvalidBlock));
    assert!(chain.get_block(1).unwrap().is_none());
    assert_eq!(chain.get_latest_block().unwrap().index(), 0);
}

#[test]
fn valid_successor_is_stored() {
    let mut chain = Chain::new();
    let parent_hash = chain.get_genesis_block().unwrap().header.merkle_root_hash.clone();
    let good = Block::new(
        1,
        Header::new(Version::V010, Some(parent_hash), String::from("m1"), Timestamp::now()),
        announce("alice", Amount::new(10, 0)),
    );
    assert!(chain.add_block(good.clone()).is_ok());
    assert_eq!(chain.get_block(1).unwrap().unwrap(), good);
    assert_eq!(chain.get_latest_block().unwrap(), good);
}

#[test]
fn adding_the_same_block_twice_is_rejected() {
    let mut chain = Chain::new();
    let parent_hash = chain.get_genesis_block().unwrap().header.merkle_root_hash.clone();
    let good = Block::new(
        1,
        Header::new(Version::V010, Some(parent_hash), String::from("m1"), Timestamp::now()),
        announce("alice", Amount::new(10, 0)),
    );
    assert!(chain.add_block(good.clone()).is_ok());
    assert_eq!(chain.add_block(good), Err(BlockchainError::InvalidBlock));
}

#[test]
fn corrupt_entries_are_deleted_on_read() {
    let mut chain = Chain::new();
    let parent_hash = chain.get_genesis_block().unwrap().header.merkle_root_hash.clone();
    let good = Block::new(
        1,
        Header::new(Version::V010, Some(parent_hash), String::from("m1"), Timestamp::now()),
        announce("alice", Amount::new(10, 0)),
    );
    assert!(chain.add_block(good).is_ok());
    chain
        .blockchain
        .store
        .put(BlockKey::new(1).as_slice(), String::from("not a block"));
    assert_eq!(chain.get_block(1), Err(BlockchainError::Codec));
    assert!(chain.get_block(1).unwrap().is_none());
}

#[test]
fn balances_follow_the_first_input_scan() {
    let mut chain = Chain::new();
    let parent_hash = chain.get_genesis_block().unwrap().header.merkle_root_hash.clone();
    let b1 = Block::new(
        1,
        Header::new(Version::V010, Some(parent_hash), String::from("m1"), Timestamp::now()),
        announce("alice", Amount::new(10, 0)),
    );
    assert!(chain.add_block(b1).is_ok());
    let alice = chain.wallet_amount("alice").unwrap().unwrap();
    assert!(alice.same_value(&Amount::new(10, 0)));
    assert!(chain.wallet_exists("alice").unwrap());
    assert!(chain.wallet_amount("nobody").unwrap().is_none());
    assert!(!chain.wallet_exists("nobody").unwrap());
}

#[test]
fn balance_sums_beyond_the_range_surface_an_overflow() {
    let mut chain = Chain::new();
    let huge = Amount::new(1_000_000_000_000_000_000, 0);
    let mut parent_hash = chain.get_genesis_block().unwrap().header.merkle_root_hash.clone();
    for i in 1..=2u64 {
        let b = Block::new(
            i,
            Header::new(
                Version::V010,
                Some(parent_hash),
                format!("m{}", i),
                Timestamp::now(),
            ),
            TransactionBuilder::new(TransactionVersion::V1)
                .input("alice", huge)
                .output("alice", huge)
                .finish("0"),
        );
        assert!(chain.add_block(b).is_ok());
        parent_hash = format!("m{}", i);
    }
    assert_eq!(
        chain.wallet_amount("alice"),
        Err(BlockchainError::AmountOverflow)
    );
}

#[test]
fn admission_rejects_insufficient_funds() {
    let mut chain = Chain::new();
    let host = Wallet::new();
    let parent_hash = chain.get_genesis_block().unwrap().header.merkle_root_hash.clone();
    let b1 = Block::new(
        1,
        Header::new(Version::V010, Some(parent_hash), String::from("m1"), Timestamp::now()),
        announce("alice", Amount::new(10, 0)),
    );
    assert!(chain.add_block(b1).is_ok());
    let tip_before = chain.get_latest_block().unwrap();
    let opts = TransactionOptions::new("alice", "bob")
        .amount(Amount::new(15, 0))
        .fee(Amount::new(2, 2))
        .signature("00")
        .public_key("00");
    let rejected = TransactionHelper::create_transaction(opts, &host, &mut chain);
    assert!(matches!(rejected, Err(TransactionRejected::InsufficientBalance)));
    assert_eq!(chain.get_latest_block().unwrap(), tip_before);
}

#[test]
fn admission_rejects_unknown_wallets() {
    let mut chain = Chain::new();
    let host = Wallet::new();
    let opts = TransactionOptions::new("nobody", "bob")
        .amount(Amount::new(1, 0))
        .fee(Amount::new(2, 2))
        .signature("00")
        .public_key("00");
    let rejected = TransactionHelper::create_transaction(opts, &host, &mut chain);
    assert!(matches!(rejected, Err(TransactionRejected::InputWalletNotFound)));
}

#[test]
fn admission_rejects_unknown_output_wallets() {
    let mut chain = Chain::new();
    let host = Wallet::new();
    let parent_hash = chain.get_genesis_block().unwrap().header.merkle_root_hash.clone();
    let b1 = Block::new(
        1,
        Header::new(Version::V010, Some(parent_hash), String::from("m1"), Timestamp::now()),
        announce("alice", Amount::new(10, 0)),
    );
    assert!(chain.add_block(b1).is_ok());
    let opts = TransactionOptions::new("alice", "nobody")
        .amount(Amount::new(1, 0))
        .fee(Amount::new(2, 2))
        .signature("00")
        .public_key("00");
    let rejected = TransactionHelper::create_transaction(opts, &host, &mut chain);
    assert!(matches!(rejected, Err(TransactionRejected::OutputWalletNotFound)));
}

#[test]
fn admission_rejects_bad_signatures() {
    let mut chain = Chain::new();
    let host = Wallet::new();
    let issuer = Wallet::new();
    let parent_hash = chain.get_genesis_block().unwrap().header.merkle_root_hash.clone();
    let b1 = Block::new(
        1,
        Header::new(Version::V010, Some(parent_hash), String::from("m1"), Timestamp::now()),
        announce("alice", Amount::new(10, 0)),
    );
    assert!(chain.add_block(b1).is_ok());
    // a real signature, but over the wrong digest
    let signature = issuer.sign(&[0xab; 32]).unwrap();
    let opts = TransactionOptions::new("alice", "alice")
        .amount(Amount::new(100, 2))
        .fee(Amount::new(2, 2))
        .signature(&signature)
        .public_key(&issuer.public_key());
    let rejected = TransactionHelper::create_transaction(opts, &host, &mut chain);
    assert!(matches!(rejected, Err(TransactionRejected::InvalidSignature)));
}

#[test]
fn admission_happy_path_appends_a_block() {
    let mut chain = Chain::new();
    let host = Wallet::new();
    let issuer = Wallet::new();
    let g_hash = chain.get_genesis_block().unwrap().header.merkle_root_hash.clone();
    let b1 = Block::new(
        1,
        Header::new(Version::V010, Some(g_hash), String::from("m1"), Timestamp::now()),
        announce("alice", Amount::new(10, 0)),
    );
    assert!(chain.add_block(b1).is_ok());
    let b2 = Block::new(
        2,
        Header::new(
            Version::V010,
            Some(String::from("m1")),
            String::from("m2"),
            Timestamp::now(),
        ),
        announce("bob", Amount::zero()),
    );
    assert!(chain.add_block(b2).is_ok());
    // sign over exactly the transaction the node will build
    let to_sign = TransactionBuilder::new(TransactionVersion::V1)
        .input("alice", Amount::new(100, 2))
        .output("bob", Amount::new(98, 2))
        .output(host.address(), Amount::new(2, 2))
        .sign_with_wallet(&issuer)
        .unwrap();
    let opts = TransactionOptions::new("alice", "bob")
        .amount(Amount::new(100, 2))
        .fee(Amount::new(2, 2))
        .signature(to_sign.signature())
        .public_key(&issuer.public_key());
    let transaction = TransactionHelper::create_transaction(opts, &host, &mut chain).unwrap();
    assert_eq!(transaction.inputs.len(), 1);
    assert_eq!(transaction.inputs[0].address.as_str(), "alice");
    assert_eq!(transaction.inputs[0].amount, Amount::new(100, 2));
    assert_eq!(transaction.outputs[0].address.as_str(), "bob");
    assert_eq!(transaction.outputs[0].amount, Amount::new(98, 2));
    assert_eq!(transaction.outputs[1].address.as_str(), host.address());
    assert_eq!(transaction.outputs[1].amount, Amount::new(2, 2));
    let new_block = chain.generate_next_block(transaction).unwrap();
    assert_eq!(new_block.index(), 3);
    assert_eq!(
        new_block.header().previous_block_header_hash().unwrap(),
        "m2"
    );
    // the balance scan counts blocks whose first input is the address:
    // spending raises the recorded figure by the spent amount
    let alice = chain.wallet_amount("alice").unwrap().unwrap();
    assert!(alice.same_value(&Amount::new(1100, 2)));
    let bob = chain.wallet_amount("bob").unwrap().unwrap();
    assert!(bob.same_value(&Amount::zero()));
}

#[test]
fn generated_blocks_carry_the_chain_merkle_root() {
    let mut chain = Chain::new();
    let host = Wallet::new();
    let issuer = Wallet::new();
    let g_hash = chain.get_genesis_block().unwrap().header.merkle_root_hash.clone();
    let b1 = Block::new(
        1,
        Header::new(Version::V010, Some(g_hash), String::from("m1"), Timestamp::now()),
        announce("alice", Amount::new(10, 0)),
    );
    assert!(chain.add_block(b1.clone()).is_ok());
    let to_sign = TransactionBuilder::new(TransactionVersion::V1)
        .input("alice", Amount::new(100, 2))
        .output("alice", Amount::new(98, 2))
        .output(host.address(), Amount::new(2, 2))
        .sign_with_wallet(&issuer)
        .unwrap();
    let opts = TransactionOptions::new("alice", "alice")
        .amount(Amount::new(100, 2))
        .fee(Amount::new(2, 2))
        .signature(to_sign.signature())
        .public_key(&issuer.public_key());
    let transaction = TransactionHelper::create_transaction(opts, &host, &mut chain).unwrap();
    let new_block = chain.generate_next_block(transaction).unwrap();
    let expected = JabMerkleTree::new(vec![
        genesis_transaction(),
        b1.transaction().clone(),
    ])
    .root_hash();
    assert_eq!(new_block.header().merkle_root_hash(), expected.as_str());
}

#[test]
fn strings_with_quotes_round_trip() {
    let block = Block::new(
        3,
        Header::new(
            Version::V010,
            Some(String::from("pa\"re\\nt")),
            String::from("ro\"ot"),
            Timestamp { secs: 5, nanos: 6 },
        ),
        TransactionBuilder::new(TransactionVersion::V1)
            .input("al\"ice\\", Amount::new(1, 0))
            .output("b\\ob", Amount::new(1, 0))
            .finish("si\"g\\nature"),
    );
    let text = emit_block(&block);
    assert_eq!(parse_block(text.as_str()).unwrap(), block);
    let value: serde_json::Value = serde_json::from_str(text.as_str()).unwrap();
    assert_eq!(
        value["txns"]["signature"],
        serde_json::Value::from("si\"g\\nature")
    );
}

#[test]
fn successors_with_quoted_strings_are_accepted() {
    let mut chain = Chain::new();
    let parent_hash = chain.get_genesis_block().unwrap().header.merkle_root_hash.clone();
    let good = Block::new(
        1,
        Header::new(Version::V010, Some(parent_hash), String::from("m\"1"), Timestamp::now()),
        announce("al\"ice", Amount::new(10, 0)),
    );
    assert!(chain.add_block(good.clone()).is_ok());
    assert_eq!(chain.get_block(1).unwrap().unwrap(), good);
}

#[test]
fn wallet_balance_folds_over_all_transactions() {
    let ts = vec![
        TransactionBuilder::new(TransactionVersion::V1)
            .input("alice", Amount::new(200, 2))
            .output("bob", Amount::new(150, 2))
            .output("alice", Amount::new(50, 2))
            .finish("0"),
        TransactionBuilder::new(TransactionVersion::V1)
            .input("bob", Amount::new(100, 2))
            .output("alice", Amount::new(100, 2))
            .finish("0"),
    ];
    // alice: (0.50 received + 2.00 spent) + 1.00 received = 3.50
    let alice = jab::chain::wallet_balance(&ts, "alice").unwrap();
    assert!(alice.same_value(&Amount::new(350, 2)));
    let bob = jab::chain::wallet_balance(&ts, "bob").unwrap();
    assert!(bob.same_value(&Amount::new(250, 2)));
    let nobody = jab::chain::wallet_balance(&ts, "nobody").unwrap();
    assert!(nobody.same_value(&Amount::zero()));
}

#[test]
fn amounts_parse_back_from_their_text() {
    for a in [
        Amount::new(5000, 1),
        Amount::new(-1052, 2),
        Amount::new(0, 0),
        Amount::new(98, 2),
    ] {
        assert_eq!(jab::codec::parse_amount(a.to_string().as_str()), Some(a));
    }
    assert!(jab::codec::parse_amount("not a number").is_none());
}

#[test]
fn dispatch_admits_and_broadcasts_a_transaction() {
    let mut chain = Chain::new();
    let host = Wallet::new();
    let issuer = Wallet::new();
    let mut miners = MiningDatabase::new(Miner::new(host.address()));
    let g_hash = chain.get_genesis_block().unwrap().header.merkle_root_hash.clone();
    let b1 = Block::new(
        1,
        Header::new(Version::V010, Some(g_hash), String::from("m1"), Timestamp::now()),
        announce("alice", Amount::new(10, 0)),
    );
    assert!(chain.add_block(b1).is_ok());
    let b2 = Block::new(
        2,
        Header::new(
            Version::V010,
            Some(String::from("m1")),
            String::from("m2"),
            Timestamp::now(),
        ),
        announce("bob", Amount::zero()),
    );
    assert!(chain.add_block(b2).is_ok());
    let to_sign = TransactionBuilder::new(TransactionVersion::V1)
        .input("alice", Amount::new(100, 2))
        .output("bob", Amount::new(98, 2))
        .output(host.address(), Amount::new(2, 2))
        .sign_with_wallet(&issuer)
        .unwrap();
    let msg = Msg::transaction(
        "peer-7",
        "alice",
        "bob",
        Amount::new(100, 2),
        &issuer.public_key(),
        to_sign.signature(),
    );
    let out = jab::protocol::handle_message(&mut chain, &mut miners, &host, msg);
    assert_eq!(out.len(), 2);
    match &out[0] {
        Outbound::Send(peer, Msg::TransactionResult(tr)) => {
            assert_eq!(peer.as_str(), "peer-7");
            assert_eq!(tr.status, TransactionStatus::Okay);
            assert!(tr.error.is_none());
        }
        other => panic!("unexpected reply: {:?}", other),
    }
    match &out[1] {
        Outbound::Publish(Msg::Block(b)) => {
            assert_eq!(b.block.index(), 3);
            assert_eq!(b.block.transaction().inputs[0].address.as_str(), "alice");
        }
        other => panic!("unexpected broadcast: {:?}", other),
    }
    assert_eq!(chain.get_latest_block().unwrap().index(), 3);
}

#[test]
fn dispatch_rejects_and_names_the_code() {
    let mut chain = Chain::new();
    let host = Wallet::new();
    let mut miners = MiningDatabase::new(Miner::new(host.address()));
    let tip_before = chain.get_latest_block().unwrap();
    let msg = Msg::transaction("peer-9", "nobody", "bob", Amount::new(1, 0), "00", "00");
    let out = jab::protocol::handle_message(&mut chain, &mut miners, &host, msg);
    assert_eq!(out.len(), 1);
    match &out[0] {
        Outbound::Send(peer, Msg::TransactionResult(tr)) => {
            assert_eq!(peer.as_str(), "peer-9");
            assert_eq!(tr.status, TransactionStatus::Nok);
            let error = tr.error.as_ref().unwrap();
            assert_eq!(error.code, TransactionErrorCode::InputWalletNotFound);
            assert!(!error.description.is_empty());
        }
        other => panic!("unexpected reply: {:?}", other),
    }
    assert_eq!(chain.get_latest_block().unwrap(), tip_before);
}

#[test]
fn dispatch_answers_wallet_queries() {
    let mut chain = Chain::new();
    let host = Wallet::new();
    let mut miners = MiningDatabase::new(Miner::new(host.address()));
    let g_hash = chain.get_genesis_block().unwrap().header.merkle_root_hash.clone();
    let b1 = Block::new(
        1,
        Header::new(Version::V010, Some(g_hash), String::from("m1"), Timestamp::now()),
        announce("alice", Amount::new(10, 0)),
    );
    assert!(chain.add_block(b1).is_ok());
    let out = jab::protocol::handle_message(
        &mut chain,
        &mut miners,
        &host,
        Msg::wallet_details("peer-3", "alice"),
    );
    assert_eq!(out.len(), 1);
    match &out[0] {
        Outbound::Send(peer, Msg::WalletDetailsResult(WalletQueryResult::Okay(d))) => {
            assert_eq!(peer.as_str(), "peer-3");
            assert_eq!(d.address.as_str(), "alice");
            assert_eq!(d.transactions.len(), 1);
            // received 10, spent 0: the fold gives 10
            assert!(d.balance.same_value(&Amount::new(10, 0)));
        }
        other => panic!("unexpected reply: {:?}", other),
    }
    let out2 = jab::protocol::handle_message(
        &mut chain,
        &mut miners,
        &host,
        Msg::wallet_details("peer-3", "nobody"),
    );
    match &out2[0] {
        Outbound::Send(_, Msg::WalletDetailsResult(WalletQueryResult::Error(e))) => {
            assert_eq!(*e, jab::messages::WalletQueryError::WalletNotFound);
        }
        other => panic!("unexpected reply: {:?}", other),
    }
}
