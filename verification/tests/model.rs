//! Tests of the data model: amounts, keys, inputs, outputs, transactions.

use jab::amount::Amount;
use jab::hashing::to_hex;
use jab::keys::BlockKey;
use jab::transaction::{LockOutput, TransactionBuilder, TransactionVersion, UnlockInput};

#[test]
fn should_create_a_new_input() {
    let input = UnlockInput::new("jab0930f5dfeba62bd8929846bbf0f1a08e995e37f1", Amount::new(1, 0));
    assert_eq!(
        input.address.as_str(),
        "jab0930f5dfeba62bd8929846bbf0f1a08e995e37f1"
    );
    assert_eq!(input.amount.to_string().as_str(), "1");
}

#[test]
fn should_create_a_new_output() {
    let output = LockOutput::new("jab0930f5dfeba62bd8929846bbf0f1a08e995e37f1", Amount::new(1, 0));
    assert_eq!(
        output.address.as_str(),
        "jab0930f5dfeba62bd8929846bbf0f1a08e995e37f1"
    );
    assert_eq!(output.amount.to_string().as_str(), "1");
}

#[test]
fn should_build_a_transaction() {
    let transaction = TransactionBuilder::new(TransactionVersion::V1)
        .input("alice", Amount::new(1052, 2))
        .output("bob", Amount::new(1050, 2))
        .output("miner", Amount::new(2, 2))
        .finish("aaa");
    assert_eq!(transaction.version, TransactionVersion::V1);
    assert_eq!(transaction.inputs.len(), 1);
    assert_eq!(transaction.outputs.len(), 2);
}

#[test]
fn should_correctly_calculate_input_amount() {
    let transaction = TransactionBuilder::new(TransactionVersion::V1)
        .input("alice", Amount::new(60, 1))
        .input("alice", Amount::new(452, 2))
        .output("bob", Amount::new(1050, 2))
        .output("miner", Amount::new(2, 2))
        .finish("aaa");
    assert_eq!(transaction.amount_spent("alice"), Amount::new(-1052, 2));
    assert_eq!(transaction.amount_spent("bob"), Amount::zero());
    assert_eq!(transaction.amount_spent("miner"), Amount::zero());
}

#[test]
fn should_correctly_calculate_output_amount() {
    let transaction = TransactionBuilder::new(TransactionVersion::V1)
        .input("alice", Amount::new(60, 1))
        .input("alice", Amount::new(452, 2))
        .output("bob", Amount::new(1050, 2))
        .output("miner", Amount::new(2, 2))
        .finish("aaa");
    assert_eq!(transaction.amount_received("alice"), Amount::zero());
    assert_eq!(transaction.amount_received("bob"), Amount::new(1050, 2));
    assert_eq!(transaction.amount_received("miner"), Amount::new(2, 2));
}

#[test]
fn should_be_able_to_use_u64_as_key() {
    let key = BlockKey::new(0xcafebabedeadbeef);
    assert_eq!(key.index(), 0xcafebabedeadbeef);
    assert_eq!(
        key.as_slice(),
        vec![0xca, 0xfe, 0xba, 0xbe, 0xde, 0xad, 0xbe, 0xef]
    );
    assert_eq!(
        BlockKey::from_u8(&[0xca, 0xfe, 0xba, 0xbe, 0xde, 0xad, 0xbe, 0xef]).index(),
        0xcafebabedeadbeef
    );
}

#[test]
fn key_encoding_keeps_numeric_order() {
    let samples: Vec<u64> = vec![0, 1, 9, 10, 255, 256, 65535, 1 << 32, u64::MAX - 1, u64::MAX];
    for &a in &samples {
        for &b in &samples {
            let ka = BlockKey::new(a).as_slice();
            let kb = BlockKey::new(b).as_slice();
            assert_eq!(a < b, ka < kb);
            assert_eq!(BlockKey::from_u8(&ka).index(), a);
        }
    }
}

#[test]
fn amount_strings_keep_their_scale() {
    assert_eq!(Amount::new(5000, 1).to_string().as_str(), "500.0");
    assert_eq!(Amount::new(-1052, 2).to_string().as_str(), "-10.52");
    assert_eq!(Amount::new(0, 0).to_string().as_str(), "0");
    assert_eq!(Amount::new(98, 2).to_string().as_str(), "0.98");
}

#[test]
fn amount_arithmetic_is_exact() {
    let ten = Amount::new(10, 0);
    let one = Amount::new(100, 2);
    let sum = ten.checked_add(&one).unwrap();
    assert_eq!(sum, Amount::new(1100, 2));
    let diff = ten.checked_sub(&one).unwrap();
    assert_eq!(diff, Amount::new(900, 2));
    assert!(one.lt(&ten));
    assert!(!ten.lt(&one));
    assert!(Amount::new(10, 0).same_value(&Amount::new(1000, 2)));
}

#[test]
fn hex_encoding_is_lowercase_pairs() {
    assert_eq!(to_hex(&[0xca, 0xfe, 0x00, 0x1b]).as_str(), "cafe001b");
    assert_eq!(to_hex(&[]).as_str(), "");
}
