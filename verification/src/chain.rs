//! The chain engine.
//!
//! A chain is a persistent, append-only map from block index to block over
//! the byte-keyed store. Opening an empty store materializes the genesis
//! block. A block is accepted only when its index rises above the tip and
//! its parent hash is the tip's Merkle root.

use crate::amount::{amount_units, amount_wf, pow10, Amount};
use crate::block::{block_wf, ts_wf, Block, Header, Timestamp, Version};
use crate::codec::{block_view, lemma_block_view_wf, BlockView, EntryView};
use crate::database::{
    db_block, db_corrupt, db_text, BlockchainDatabase, BlockchainError, BlockchainResult,
};
use crate::hashing::hex_of;
use crate::merkle::{merkle_root, tx_digest_bytes_v, JabMerkleTree};
use crate::transaction::{tx_digest_bytes, tx_wf, Transaction, TransactionBuilder, TransactionVersion};
use vstd::prelude::*;

verus! {

/// The text stored under an index of the chain.
pub open spec fn chain_text(c: Chain, i: u64) -> Option<Seq<char>> {
    db_text(c.blockchain, i)
}

/// The block stored under an index of the chain, when it reads back.
pub open spec fn chain_block(c: Chain, i: u64) -> Option<BlockView> {
    db_block(c.blockchain, i)
}

/// Whether the text under an index does not read back.
pub open spec fn chain_corrupt(c: Chain, i: u64) -> bool {
    db_corrupt(c.blockchain, i)
}

/// The first index at or after `i` with nothing stored under it. The probe
/// gives up at the largest index.
pub open spec fn scan_end(c: Chain, i: u64) -> u64
    decreases u64::MAX - i,
{
    if i == u64::MAX || chain_text(c, i) is None {
        i
    } else {
        scan_end(c, (i + 1) as u64)
    }
}

pub proof fn lemma_scan_end_ge(c: Chain, i: u64)
    ensures
        scan_end(c, i) >= i,
    decreases u64::MAX - i,
{
    if !(i == u64::MAX || chain_text(c, i) is None) {
        lemma_scan_end_ge(c, (i + 1) as u64);
    }
}

/// Where the probe ends: at the first missing index.
pub proof fn lemma_scan_end_at(c: Chain, a: u64, b: u64)
    requires
        a <= b,
        forall|i: u64| a <= i < b ==> #[trigger] chain_text(c, i) is Some,
        b == u64::MAX || chain_text(c, b) is None,
    ensures
        scan_end(c, a) == b,
    decreases b - a,
{
    if a < b {
        lemma_scan_end_at(c, (a + 1) as u64, b);
    }
}

/// The probe's end is the largest index or a gap.
pub proof fn lemma_scan_end_prop(c: Chain, a: u64)
    ensures
        scan_end(c, a) == u64::MAX || chain_text(c, scan_end(c, a)) is None,
    decreases u64::MAX - a,
{
    if !(a == u64::MAX || chain_text(c, a) is None) {
        lemma_scan_end_prop(c, (a + 1) as u64);
    }
}

/// Everything below the probe's end is stored.
pub proof fn lemma_scan_end_some(c: Chain, a: u64, i: u64)
    requires
        a <= i < scan_end(c, a),
    ensures
        chain_text(c, i) is Some,
    decreases i - a,
{
    lemma_scan_end_ge(c, a);
    if a < i {
        if a == u64::MAX || chain_text(c, a) is None {
            assert(scan_end(c, a) == a);
        } else {
            lemma_scan_end_some(c, (a + 1) as u64, i);
        }
    } else {
        if chain_text(c, a) is None {
            assert(scan_end(c, a) == a);
        }
    }
}

/// The index of the chain's tip: one before the first gap above genesis.
pub open spec fn latest_index(c: Chain) -> u64 {
    (scan_end(c, 1) - 1) as u64
}

/// The view of the chain's tip.
pub open spec fn latest_view(c: Chain) -> Option<BlockView> {
    chain_block(c, latest_index(c))
}

/// A chain is ready when genesis is present and everything stored up to the
/// first gap reads back.
pub open spec fn chain_ready(c: Chain) -> bool {
    &&& chain_text(c, 0) is Some
    &&& !chain_corrupt(c, 0)
    &&& forall|i: u64| 1 <= i < scan_end(c, 1) ==> !#[trigger] chain_corrupt(c, i)
}

/// Deletions only ever hit corrupt entries, and a hit entry is gone.
pub open spec fn only_corrupt_deleted(old_c: Chain, new_c: Chain) -> bool {
    &&& forall|j: u64|
        !chain_corrupt(old_c, j) ==> #[trigger] chain_text(new_c, j) == chain_text(old_c, j)
    &&& forall|j: u64|
        chain_corrupt(old_c, j) ==> #[trigger] chain_text(new_c, j) == chain_text(old_c, j)
            || chain_text(new_c, j) is None
}

/// The one output of the genesis transaction.
pub open spec fn genesis_output_view() -> EntryView {
    EntryView {
        address: "jabbe2cce18177f64c3eb2cc51f0bd640dec8b22668"@,
        amount: Amount { mantissa: 5000 as i128, scale: 1 as u32 },
    }
}

/// The pre-computed genesis signature.
pub open spec fn genesis_signature() -> Seq<char> {
    "3045022100a6a9106ecbef322e967438dbc8f1bf0ea8f5ee75cd3519f55e2bb90693d67ee3022042ecad494ead5fd441814201e8ae915a934c29644984cfc3624e48290054a155"@
}

/// The view of the genesis block: index 0, no parent, the epoch timestamp,
/// and the Merkle root over its own single transaction.
pub open spec fn genesis_view() -> BlockView {
    BlockView {
        index: 0,
        prev: None,
        merkle: hex_of(
            merkle_root(
                seq![
                    crate::hashing::sha256_of(
                        tx_digest_bytes_v(Seq::empty(), seq![genesis_output_view()]),
                    ),
                ],
            ),
        ),
        created: Timestamp { secs: 0, nanos: 0 },
        inputs: Seq::empty(),
        outputs: seq![genesis_output_view()],
        signature: genesis_signature(),
    }
}

/// The chain.
pub struct Chain {
    pub blockchain: BlockchainDatabase,
}

impl Chain {
    /// Compose the genesis transaction: one output paying `amount` to
    /// `address`, waiting for a signature.
    pub fn genesis_transaction(version: TransactionVersion, address: &str, amount: Amount) -> (r:
        TransactionBuilder)
        ensures
            r.inputs@.len() == 0,
            r.outputs@.len() == 1,
            r.outputs@[0].address@ == address@,
            r.outputs@[0].amount == amount,
            r.version == version,
    {
        let b = TransactionBuilder::new(version).output(address, amount);
        proof {
            assert(b.outputs@.last() == b.outputs@[0]);
        }
        b
    }

    /// Build the genesis block with its fixed constants.
    fn genesis_block() -> (r: Block)
        ensures
            block_wf(r),
            block_view(r) == genesis_view(),
    {
        proof {
            reveal_with_fuel(pow10, 38);
        }
        let amount = Amount::new(5000, 1);
        let genesis_transaction = Self::genesis_transaction(
            TransactionVersion::V1,
            "jabbe2cce18177f64c3eb2cc51f0bd640dec8b22668",
            amount,
        ).finish(
            "3045022100a6a9106ecbef322e967438dbc8f1bf0ea8f5ee75cd3519f55e2bb90693d67ee3022042ecad494ead5fd441814201e8ae915a934c29644984cfc3624e48290054a155",
        );
        proof {
            assert(tx_wf(genesis_transaction)) by {
                assert(forall|i: int|
                    0 <= i < genesis_transaction.outputs@.len()
                        ==> #[trigger] genesis_transaction.outputs@[i]
                        == genesis_transaction.outputs@[0]);
            }
        }
        let tree = JabMerkleTree::new(vec![genesis_transaction.clone()]);
        proof {
            assert(tree.transactions@[0] == tree.transactions@.last());
            assert(forall|i: int|
                0 <= i < tree.transactions@.len() ==> #[trigger] tree.transactions@[i]
                    == tree.transactions@[0]);
            assert(tx_wf(tree.transactions@[0]));
        }
        let root = tree.root_hash();
        let block = Block::new(
            0,
            Header::new(Version::V010, None, root, Timestamp::epoch()),
            genesis_transaction,
        );
        proof {
            let v = block_view(block);
            crate::merkle::lemma_tx_digest_view(block.txns);
            assert(crate::codec::input_views(block.txns.inputs@) =~= Seq::<EntryView>::empty());
            assert(crate::codec::output_views(block.txns.outputs@) =~= seq![genesis_output_view()])
                by {
                reveal_strlit("jabbe2cce18177f64c3eb2cc51f0bd640dec8b22668");
            }
            assert(tree.transactions@[0].inputs@ == block.txns.inputs@);
            assert(tree.transactions@[0].outputs@ == block.txns.outputs@);
            assert(tx_digest_bytes(tree.transactions@[0]) == tx_digest_bytes(block.txns));
            assert(crate::merkle::tx_leaves(tree.transactions@) =~= seq![
                crate::hashing::sha256_of(
                    tx_digest_bytes_v(Seq::empty(), seq![genesis_output_view()]),
                ),
            ]);
            assert(v.merkle == genesis_view().merkle);
            assert(v =~~= genesis_view()) by {
                reveal_strlit("jabbe2cce18177f64c3eb2cc51f0bd640dec8b22668");
                reveal_strlit(
                    "3045022100a6a9106ecbef322e967438dbc8f1bf0ea8f5ee75cd3519f55e2bb90693d67ee3022042ecad494ead5fd441814201e8ae915a934c29644984cfc3624e48290054a155",
                );
            }
        }
        block
    }

    /// A fresh chain over an empty store, with genesis materialized.
    pub fn new() -> (r: Self)
        ensures
            chain_ready(r),
            chain_block(r, 0) == Some(genesis_view()),
            chain_text(r, 1) is None,
            scan_end(r, 1) == 1,
            chain_indexed(r),
    {
        let mut database = BlockchainDatabase::new();
        let g = Self::genesis_block();
        let res = database.put_block(&g);
        let c = Chain { blockchain: database };
        proof {
            lemma_block_view_wf(g);
            crate::codec::lemma_block_round_trip(block_view(g));
            assert(chain_block(c, 0) == Some(genesis_view()));
            assert(chain_text(c, 1) is None);
            lemma_scan_end_at(c, 1, 1);
            assert forall|i: u64| #[trigger] chain_block(c, i) is Some implies chain_block(
                c,
                i,
            )->Some_0.index == i by {
                if i != 0 {
                    assert(chain_text(c, i) is None);
                }
            }
            assert(chain_indexed(c));
        }
        c
    }

    /// Open a chain over an existing database, materializing genesis if the
    /// store has nothing under index 0. A corrupt genesis entry is deleted
    /// and surfaces its error.
    pub fn from_database(database: BlockchainDatabase) -> (r: BlockchainResult<Chain>)
        ensures
            db_corrupt(database, 0) ==> r == Err::<Chain, BlockchainError>(BlockchainError::Codec),
            db_block(database, 0) matches Some(v) ==> (r matches Ok(c) && (forall|j: u64|
                #[trigger] chain_text(c, j) == db_text(database, j))),
            db_text(database, 0) is None ==> (r matches Ok(c) && chain_block(c, 0) == Some(
                genesis_view(),
            ) && (forall|j: u64| j != 0 ==> #[trigger] chain_text(c, j) == db_text(database, j))),
            r matches Ok(c) ==> chain_text(c, 0) is Some && !chain_corrupt(c, 0),
    {
        let mut database = database;
        let first = database.get_block(0);
        match first {
            Err(e) => Err(e),
            Ok(Some(_)) => {
                let c = Chain { blockchain: database };
                Ok(c)
            },
            Ok(None) => {
                let g = Self::genesis_block();
                let res = database.put_block(&g);
                let c = Chain { blockchain: database };
                proof {
                    lemma_block_view_wf(g);
                    crate::codec::lemma_block_round_trip(block_view(g));
                }
                Ok(c)
            },
        }
    }

    /// The genesis block, which every chain holds.
    pub fn get_genesis_block(&mut self) -> (r: BlockchainResult<Block>)
        requires
            chain_text(*old(self), 0) is Some,
        ensures
            chain_block(*old(self), 0) matches Some(v) ==> *final(self) == *old(self) && (
            r matches Ok(b) && block_view(b) == v && block_wf(b)),
            chain_corrupt(*old(self), 0) ==> r == Err::<Block, BlockchainError>(
                BlockchainError::Codec,
            ),
            only_corrupt_deleted(*old(self), *final(self)),
    {
        match self.blockchain.get_block(0) {
            Ok(Some(b)) => Ok(b),
            Ok(None) => Err(BlockchainError::Codec),
            Err(e) => Err(e),
        }
    }

    /// The block under `index`, if one is stored and reads back.
    pub fn get_block(&mut self, index: u64) -> (r: BlockchainResult<Option<Block>>)
        ensures
            chain_text(*old(self), index) is None ==> *final(self) == *old(self) && (
            r matches Ok(x) && x is None),
            chain_block(*old(self), index) matches Some(v) ==> *final(self) == *old(self) && (
            r matches Ok(x) && (x matches Some(b) && block_view(b) == v && block_wf(b))),
            chain_corrupt(*old(self), index) ==> r == Err::<Option<Block>, BlockchainError>(
                BlockchainError::Codec,
            ) && chain_text(*final(self), index) is None,
            only_corrupt_deleted(*old(self), *final(self)),
    {
        self.blockchain.get_block(index)
    }

    /// The chain's tip: the last block before the first gap above genesis.
    #[verifier::rlimit(100)]
    #[verifier::spinoff_prover]
    pub fn get_latest_block(&mut self) -> (r: BlockchainResult<Block>)
        requires
            chain_text(*old(self), 0) is Some,
        ensures
            chain_ready(*old(self)) ==> *final(self) == *old(self) && (r matches Ok(b) && Some(
                block_view(b),
            ) == latest_view(*old(self)) && block_wf(b)),
            !chain_ready(*old(self)) ==> r == Err::<Block, BlockchainError>(
                BlockchainError::Codec,
            ),
            only_corrupt_deleted(*old(self), *final(self)),
    {
        let ghost c0 = *self;
        let mut block = match self.get_genesis_block() {
            Ok(b) => b,
            Err(e) => {
                return Err(e);
            },
        };
        proof {
            assert(!chain_corrupt(c0, 0));
            assert(chain_block(c0, 0) is Some);
            assert(*self == c0);
        }
        let mut index: u64 = 1;
        proof {
            lemma_scan_end_ge(c0, 1);
            lemma_scan_end_prop(c0, 1);
        }
        loop
            invariant
                c0 == *old(self),
                *self == c0,
                chain_text(c0, 0) is Some,
                !chain_corrupt(c0, 0),
                1 <= index,
                index <= scan_end(c0, 1),
                scan_end(c0, 1) == u64::MAX || chain_text(c0, scan_end(c0, 1)) is None,
                forall|i: u64| 1 <= i < index ==> #[trigger] chain_text(c0, i) is Some,
                forall|i: u64| 1 <= i < index ==> !#[trigger] chain_corrupt(c0, i),
                chain_ready(c0) ==> (chain_block(c0, (index - 1) as u64) matches Some(v)
                    && block_view(block) == v),
                block_wf(block),
            decreases u64::MAX - index,
        {
            if index == u64::MAX {
                proof {
                    lemma_scan_end_at(c0, 1, u64::MAX);
                    assert(chain_ready(c0));
                }
                return Ok(block);
            }
            match self.get_block(index) {
                Err(e) => {
                    proof {
                        assert(chain_corrupt(c0, index));
                        if chain_ready(c0) {
                            if index < scan_end(c0, 1) {
                                assert(!chain_corrupt(c0, index));
                            } else {
                                assert(index == scan_end(c0, 1));
                                assert(chain_text(c0, index) is None);
                            }
                            assert(false);
                        }
                    }
                    return Err(e);
                },
                Ok(None) => {
                    proof {
                        lemma_scan_end_at(c0, 1, index);
                        assert(chain_ready(c0));
                    }
                    return Ok(block);
                },
                Ok(Some(b)) => {
                    block = b;
                    proof {
                        if index >= scan_end(c0, 1) {
                            assert(index == scan_end(c0, 1));
                            assert(chain_text(c0, index) is None);
                            assert(false);
                        }
                        assert(!chain_corrupt(c0, index));
                    }
                },
            }
            index = index + 1;
        }
    }

    /// Accept `b` when its index rises above the tip and its parent hash is
    /// the tip's Merkle root; otherwise reject it as invalid. A block whose
    /// strings cannot be stored exactly is rejected as invalid too.
    #[verifier::rlimit(100)]
    #[verifier::spinoff_prover]
    pub fn add_block(&mut self, b: Block) -> (r: BlockchainResult<()>)
        requires
            chain_text(*old(self), 0) is Some,
            block_wf(b),
        ensures
            chain_ready(*old(self)) && (latest_view(*old(self)) matches Some(lv) && b.index
                > lv.index && (block_view(b).prev matches Some(h) && h == lv.merkle)) ==> r is Ok
                && chain_block(
                *final(self),
                b.index,
            ) == Some(block_view(b)) && (forall|j: u64|
                j != b.index ==> #[trigger] chain_text(*final(self), j) == chain_text(
                    *old(self),
                    j,
                )),
            chain_ready(*old(self)) && !(latest_view(*old(self)) matches Some(lv) && b.index
                > lv.index && (block_view(b).prev matches Some(h) && h == lv.merkle)) ==> r
                == Err::<(), BlockchainError>(
                BlockchainError::InvalidBlock,
            ) && *final(self) == *old(self),
            !chain_ready(*old(self)) ==> r is Err,
            r is Err ==> only_corrupt_deleted(*old(self), *final(self)),
            chain_indexed(*old(self)) ==> chain_indexed(*final(self)),
    {
        let ghost c0 = *self;
        let previous_block = match self.get_latest_block() {
            Ok(p) => p,
            Err(e) => {
                proof {
                    if chain_indexed(c0) {
                        lemma_indexed_only_corrupt(c0, *self);
                    }
                }
                return Err(e);
            },
        };
        let linked = match b.header.previous_block_header_hash() {
            Some(h) => {
                let prev_root = previous_block.header.merkle_root_hash.clone();
                let h_owned = h.to_owned();
                h_owned == prev_root
            },
            None => false,
        };
        if previous_block.index() < b.index() && linked {
            proof {
                lemma_block_view_wf(b);
                crate::codec::lemma_block_round_trip(block_view(b));
            }
            let stored = self.blockchain.put_block(&b);
            proof {
                if chain_indexed(c0) {
                    lemma_indexed_after_put(c0, *self, block_view(b), b.index);
                }
            }
            match stored {
                Ok(u) => Ok(u),
                Err(e) => Err(e),
            }
        } else {
            Err(BlockchainError::InvalidBlock)
        }
    }
}


/// Everything a list of entries spends from `addr`, negated, as plain
/// values.
pub open spec fn spent_v(es: Seq<EntryView>, addr: Seq<char>) -> int
    decreases es.len(),
{
    if es.len() == 0 {
        0
    } else {
        spent_v(es.drop_last(), addr) - (if es.last().address == addr {
            amount_units(es.last().amount)
        } else {
            0
        })
    }
}

/// Everything a list of entries pays to `addr`, as plain values.
pub open spec fn received_v(es: Seq<EntryView>, addr: Seq<char>) -> int
    decreases es.len(),
{
    if es.len() == 0 {
        0
    } else {
        received_v(es.drop_last(), addr) + (if es.last().address == addr {
            amount_units(es.last().amount)
        } else {
            0
        })
    }
}

pub proof fn lemma_spent_view(s: Seq<crate::transaction::UnlockInput>, addr: Seq<char>)
    ensures
        crate::transaction::spec_amount_spent(s, addr) == spent_v(
            crate::codec::input_views(s),
            addr,
        ),
    decreases s.len(),
{
    if s.len() > 0 {
        lemma_spent_view(s.drop_last(), addr);
        assert(crate::codec::input_views(s).drop_last() =~= crate::codec::input_views(
            s.drop_last(),
        ));
        assert(crate::codec::input_views(s).last() == (EntryView {
            address: s.last().address@,
            amount: s.last().amount,
        }));
    } else {
        assert(crate::codec::input_views(s).len() == 0);
    }
}

pub proof fn lemma_received_view(s: Seq<crate::transaction::LockOutput>, addr: Seq<char>)
    ensures
        crate::transaction::spec_amount_received(s, addr) == received_v(
            crate::codec::output_views(s),
            addr,
        ),
    decreases s.len(),
{
    if s.len() > 0 {
        lemma_received_view(s.drop_last(), addr);
        assert(crate::codec::output_views(s).drop_last() =~= crate::codec::output_views(
            s.drop_last(),
        ));
        assert(crate::codec::output_views(s).last() == (EntryView {
            address: s.last().address@,
            amount: s.last().amount,
        }));
    } else {
        assert(crate::codec::output_views(s).len() == 0);
    }
}

/// Whether a block's transaction is spent by `addr`: its first input
/// carries that address.
pub open spec fn first_input_matches(v: BlockView, addr: Seq<char>) -> bool {
    v.inputs.len() > 0 && v.inputs[0].address == addr
}

/// What one block adds to the balance of `addr`: what its transaction pays
/// to the address minus what it spends from it, counted only when the
/// transaction's first input carries the address.
pub open spec fn block_contrib(v: BlockView, addr: Seq<char>) -> int {
    if first_input_matches(v, addr) {
        received_v(v.outputs, addr) - spent_v(v.inputs, addr)
    } else {
        0
    }
}

/// The balance of `addr` over the stored blocks from `i` up to the first
/// gap.
pub open spec fn wallet_sum(c: Chain, addr: Seq<char>, i: u64) -> int
    decreases u64::MAX - i,
{
    if i == u64::MAX || chain_text(c, i) is None {
        0
    } else {
        (match chain_block(c, i) {
            Some(v) => block_contrib(v, addr),
            None => 0,
        }) + wallet_sum(c, addr, (i + 1) as u64)
    }
}

/// Whether any stored block from `i` up to the first gap is spent by
/// `addr`.
pub open spec fn wallet_found(c: Chain, addr: Seq<char>, i: u64) -> bool
    decreases u64::MAX - i,
{
    if i == u64::MAX || chain_text(c, i) is None {
        false
    } else {
        (match chain_block(c, i) {
            Some(v) => first_input_matches(v, addr),
            None => false,
        }) || wallet_found(c, addr, (i + 1) as u64)
    }
}

/// Whether every stored entry below the first gap reads back.
pub open spec fn scan_clean(c: Chain) -> bool {
    forall|i: u64| i < scan_end(c, 0) ==> !#[trigger] chain_corrupt(c, i)
}

impl Chain {
    /// Whether a wallet exists: some stored block's transaction has `addr`
    /// as its first input.
    #[verifier::rlimit(100)]
    #[verifier::spinoff_prover]
    pub fn wallet_exists(&mut self, addr: &str) -> (r: BlockchainResult<bool>)
        ensures
            scan_clean(*old(self)) ==> *final(self) == *old(self) && (r matches Ok(e) && e
                == wallet_found(*old(self), addr@, 0)),
            !scan_clean(*old(self)) ==> r is Err || r == Ok::<bool, BlockchainError>(true),
            only_corrupt_deleted(*old(self), *final(self)),
    {
        let ghost c0 = *self;
        proof {
            lemma_scan_end_ge(c0, 0);
            lemma_scan_end_prop(c0, 0);
        }
        let mut index: u64 = 0;
        loop
            invariant
                c0 == *old(self),
                *self == c0,
                index <= scan_end(c0, 0),
                scan_end(c0, 0) == u64::MAX || chain_text(c0, scan_end(c0, 0)) is None,
                forall|i: u64| i < index ==> #[trigger] chain_text(c0, i) is Some,
                forall|i: u64| i < index ==> !#[trigger] chain_corrupt(c0, i),
                wallet_found(c0, addr@, 0) == wallet_found(c0, addr@, index),
            decreases u64::MAX - index,
        {
            if index == u64::MAX {
                return Ok(false);
            }
            match self.get_block(index) {
                Err(e) => {
                    proof {
                        assert(chain_corrupt(c0, index));
                        if scan_clean(c0) {
                            if index < scan_end(c0, 0) {
                                assert(!chain_corrupt(c0, index));
                            } else {
                                assert(index == scan_end(c0, 0));
                                assert(chain_text(c0, index) is None);
                            }
                            assert(false);
                        }
                    }
                    return Err(e);
                },
                Ok(None) => {
                    proof {
                        lemma_scan_end_at(c0, 0, index);
                        assert(scan_clean(c0));
                    }
                    return Ok(false);
                },
                Ok(Some(b)) => {
                    proof {
                        if index >= scan_end(c0, 0) {
                            assert(index == scan_end(c0, 0));
                            assert(chain_text(c0, index) is None);
                            assert(false);
                        }
                        assert(!chain_corrupt(c0, index));
                    }
                    let hit = match b.transaction().input_address() {
                        Some(a) => {
                            let a_owned = a.to_owned();
                            let wanted = addr.to_owned();
                            a_owned == wanted
                        },
                        None => false,
                    };
                    proof {
                        let v = chain_block(c0, index)->Some_0;
                        assert(v == crate::codec::block_view(b));
                        assert(first_input_matches(v, addr@) == hit);
                    }
                    if hit {
                        return Ok(true);
                    }
                },
            }
            index = index + 1;
        }
    }
}


impl Chain {
    /// The balance of `addr`: over every stored block whose transaction's
    /// first input carries the address, what was received minus what was
    /// spent. `None` when no such block exists. Sums beyond the supported
    /// range surface as an overflow error.
    #[verifier::rlimit(100)]
    #[verifier::spinoff_prover]
    pub fn wallet_amount(&mut self, addr: &str) -> (r: BlockchainResult<Option<Amount>>)
        ensures
            scan_clean(*old(self)) ==> *final(self) == *old(self) && ((r matches Ok(x) && (
            wallet_found(*old(self), addr@, 0) ==> (x matches Some(a) && amount_wf(a)
                && amount_units(a) == wallet_sum(*old(self), addr@, 0) && amount_units(a) >= 0))
                && (!wallet_found(*old(self), addr@, 0) ==> x is None)) || r == Err::<
                Option<Amount>,
                BlockchainError,
            >(BlockchainError::AmountOverflow)),
            scan_clean(*old(self)) && wallet_sum(*old(self), addr@, 0) <= pow10(36) ==> r is Ok,
            !scan_clean(*old(self)) ==> r is Err,
            only_corrupt_deleted(*old(self), *final(self)),
    {
        let ghost c0 = *self;
        proof {
            lemma_scan_end_ge(c0, 0);
            lemma_scan_end_prop(c0, 0);
        }
        let mut index: u64 = 0;
        let mut wallet_amount = Amount::zero();
        let mut wallet_found_flag = false;
        loop
            invariant
                c0 == *old(self),
                *self == c0,
                index <= scan_end(c0, 0),
                scan_end(c0, 0) == u64::MAX || chain_text(c0, scan_end(c0, 0)) is None,
                forall|i: u64| i < index ==> #[trigger] chain_text(c0, i) is Some,
                forall|i: u64| i < index ==> !#[trigger] chain_corrupt(c0, i),
                wallet_found(c0, addr@, 0) == (wallet_found_flag || wallet_found(
                    c0,
                    addr@,
                    index,
                )),
                amount_wf(wallet_amount),
                amount_units(wallet_amount) >= 0,
                wallet_sum(c0, addr@, 0) == amount_units(wallet_amount) + wallet_sum(
                    c0,
                    addr@,
                    index,
                ),
            decreases u64::MAX - index,
        {
            if index == u64::MAX {
                if wallet_found_flag {
                    return Ok(Some(wallet_amount));
                } else {
                    return Ok(None);
                }
            }
            match self.get_block(index) {
                Err(e) => {
                    proof {
                        assert(chain_corrupt(c0, index));
                        if scan_clean(c0) {
                            if index < scan_end(c0, 0) {
                                assert(!chain_corrupt(c0, index));
                            } else {
                                assert(index == scan_end(c0, 0));
                                assert(chain_text(c0, index) is None);
                            }
                            assert(false);
                        }
                    }
                    return Err(e);
                },
                Ok(None) => {
                    proof {
                        lemma_scan_end_at(c0, 0, index);
                        assert(scan_clean(c0));
                    }
                    if wallet_found_flag {
                        return Ok(Some(wallet_amount));
                    } else {
                        return Ok(None);
                    }
                },
                Ok(Some(b)) => {
                    proof {
                        if index >= scan_end(c0, 0) {
                            assert(index == scan_end(c0, 0));
                            assert(chain_text(c0, index) is None);
                            assert(false);
                        }
                        assert(!chain_corrupt(c0, index));
                    }
                    let hit = match b.transaction().input_address() {
                        Some(a) => {
                            let a_owned = a.to_owned();
                            let wanted = addr.to_owned();
                            a_owned == wanted
                        },
                        None => false,
                    };
                    let ghost v = chain_block(c0, index)->Some_0;
                    proof {
                        assert(v == crate::codec::block_view(b));
                        assert(first_input_matches(v, addr@) == hit);
                        lemma_spent_view(b.txns.inputs@, addr@);
                        lemma_received_view(b.txns.outputs@, addr@);
                    }
                    if hit {
                        proof {
                            if scan_clean(c0) {
                                lemma_chain_block_wf(c0, index);
                                lemma_received_v_nonneg(v.outputs, addr@);
                                lemma_spent_v_nonpos(v.inputs, addr@);
                                lemma_wallet_sum_nonneg(c0, addr@, (index + 1) as u64);
                            }
                        }
                        let received = match b.transaction().amount_received_checked(addr) {
                            Some(a) => a,
                            None => {
                                proof {
                                    if scan_clean(c0) {
                                        lemma_chain_block_wf(c0, index);
                                        lemma_spent_v_nonpos(v.inputs, addr@);
                                        lemma_wallet_sum_nonneg(c0, addr@, (index + 1) as u64);
                                        assert(wallet_sum(c0, addr@, 0) > pow10(36));
                                    }
                                }
                                return Err(BlockchainError::AmountOverflow);
                            },
                        };
                        let spent = match b.transaction().amount_spent_checked(addr) {
                            Some(a) => a,
                            None => {
                                proof {
                                    if scan_clean(c0) {
                                        lemma_chain_block_wf(c0, index);
                                        lemma_received_v_nonneg(v.outputs, addr@);
                                        lemma_wallet_sum_nonneg(c0, addr@, (index + 1) as u64);
                                        assert(wallet_sum(c0, addr@, 0) > pow10(36));
                                    }
                                }
                                return Err(BlockchainError::AmountOverflow);
                            },
                        };
                        let step1 = match wallet_amount.checked_add(&received) {
                            Some(a) => a,
                            None => {
                                proof {
                                    if scan_clean(c0) {
                                        lemma_chain_block_wf(c0, index);
                                        lemma_spent_v_nonpos(v.inputs, addr@);
                                        lemma_wallet_sum_nonneg(c0, addr@, (index + 1) as u64);
                                        assert(wallet_sum(c0, addr@, 0) > pow10(36));
                                    }
                                }
                                return Err(BlockchainError::AmountOverflow);
                            },
                        };
                        let step2 = match step1.checked_sub(&spent) {
                            Some(a) => a,
                            None => {
                                proof {
                                    if scan_clean(c0) {
                                        lemma_chain_block_wf(c0, index);
                                        lemma_wallet_sum_nonneg(c0, addr@, (index + 1) as u64);
                                        assert(wallet_sum(c0, addr@, 0) > pow10(36));
                                    }
                                }
                                return Err(BlockchainError::AmountOverflow);
                            },
                        };
                        wallet_amount = step2;
                        wallet_found_flag = true;
                    }
                },
            }
            index = index + 1;
        }
    }
}


/// The Merkle leaves of every stored transaction below the first gap.
pub open spec fn chain_tx_leaves(c: Chain, i: u64) -> Seq<Seq<u8>>
    decreases u64::MAX - i,
{
    if i == u64::MAX || chain_text(c, i) is None {
        Seq::empty()
    } else {
        (match chain_block(c, i) {
            Some(v) => seq![
                crate::hashing::sha256_of(tx_digest_bytes_v(v.inputs, v.outputs)),
            ],
            None => Seq::empty(),
        }) + chain_tx_leaves(c, (i + 1) as u64)
    }
}


impl Chain {
    /// Produce the next block: one past the tip, linked to the tip's Merkle
    /// root, carrying `transaction`, with the Merkle root over every stored
    /// transaction so far. The block is added and the new tip returned.
    #[verifier::rlimit(100)]
    #[verifier::spinoff_prover]
    pub fn generate_next_block(&mut self, transaction: Transaction) -> (r: BlockchainResult<Block>)
        requires
            chain_text(*old(self), 0) is Some,
            tx_wf(transaction),
        ensures
            (chain_ready(*old(self)) && scan_clean(*old(self)) && (latest_view(*old(self))
                matches Some(lv) && lv.index < 0xffff_ffff_ffff_fffe && lv.index + 1 == scan_end(
                *old(self),
                1,
            ) && chain_text(*old(self), (lv.index + 2) as u64) is None)) ==> (r matches Ok(nb) && block_view(nb).inputs
                == crate::codec::input_views(transaction.inputs@) && block_view(nb).outputs
                == crate::codec::output_views(transaction.outputs@) && block_view(nb).signature
                == transaction.signature@ && nb.index
                == latest_index(*old(self)) + 1 && block_view(nb).prev == Some(
                latest_view(*old(self))->Some_0.merkle,
            ) && block_view(nb).merkle == hex_of(merkle_root(chain_tx_leaves(*old(self), 0)))
                && ts_wf(nb.header.created_at) && chain_block(*final(self), nb.index) == Some(
                block_view(nb),
            ) && (forall|j: u64|
                j != nb.index ==> #[trigger] chain_text(*final(self), j) == chain_text(
                    *old(self),
                    j,
                ))),
            chain_indexed(*old(self)) ==> chain_indexed(*final(self)),
    {
        let ghost c0 = *self;
        let previous_block = match self.get_latest_block() {
            Ok(b) => b,
            Err(e) => {
                proof {
                    if chain_indexed(c0) {
                        lemma_indexed_only_corrupt(c0, *self);
                    }
                }
                return Err(e);
            },
        };
        proof {
            lemma_scan_end_ge(c0, 0);
            lemma_scan_end_prop(c0, 0);
        }
        let mut transactions: Vec<Transaction> = Vec::new();
        let mut index: u64 = 0;
        proof {
            assert(crate::merkle::tx_leaves(transactions@) =~= Seq::<Seq<u8>>::empty());
        }
        loop
            invariant
                c0 == *old(self),
                *self == c0,
                chain_text(c0, 0) is Some,
                index <= scan_end(c0, 0),
                scan_end(c0, 0) == u64::MAX || chain_text(c0, scan_end(c0, 0)) is None,
                forall|i: u64| i < index ==> #[trigger] chain_text(c0, i) is Some,
                forall|i: u64| i < index ==> !#[trigger] chain_corrupt(c0, i),
                crate::merkle::txs_wf(transactions@),
                chain_tx_leaves(c0, 0) == crate::merkle::tx_leaves(transactions@)
                    + chain_tx_leaves(c0, index),
            ensures
                c0 == *old(self),
                *self == c0,
                index <= scan_end(c0, 0),
                forall|i: u64| i < index ==> #[trigger] chain_text(c0, i) is Some,
                forall|i: u64| i < index ==> !#[trigger] chain_corrupt(c0, i),
                crate::merkle::txs_wf(transactions@),
                chain_tx_leaves(c0, 0) == crate::merkle::tx_leaves(transactions@)
                    + chain_tx_leaves(c0, index),
                index == u64::MAX || chain_text(c0, index) is None,
            decreases u64::MAX - index,
        {
            if index == u64::MAX {
                break ;
            }
            match self.get_block(index) {
                Err(e) => {
                    proof {
                        assert(chain_corrupt(c0, index));
                        if scan_clean(c0) {
                            if index < scan_end(c0, 0) {
                                assert(!chain_corrupt(c0, index));
                            } else {
                                assert(index == scan_end(c0, 0));
                                assert(chain_text(c0, index) is None);
                            }
                            assert(false);
                        }
                        if chain_indexed(c0) {
                            lemma_indexed_only_corrupt(c0, *self);
                        }
                    }
                    return Err(e);
                },
                Ok(None) => {
                    proof {
                        lemma_scan_end_at(c0, 0, index);
                    }
                    break ;
                },
                Ok(Some(b)) => {
                    proof {
                        if index >= scan_end(c0, 0) {
                            assert(index == scan_end(c0, 0));
                            assert(chain_text(c0, index) is None);
                            assert(false);
                        }
                        assert(!chain_corrupt(c0, index));
                    }
                    let ghost v = chain_block(c0, index)->Some_0;
                    let ghost prev_txs = transactions@;
                    let tx = b.transaction().clone();
                    transactions.push(tx);
                    proof {
                        assert(v == crate::codec::block_view(b));
                        crate::merkle::lemma_tx_digest_view(b.txns);
                        let t = transactions@.last();
                        assert(t.inputs@ == b.txns.inputs@);
                        assert(t.outputs@ == b.txns.outputs@);
                        assert(tx_digest_bytes(t) == tx_digest_bytes(b.txns));
                        assert(crate::merkle::tx_leaves(transactions@)
                            =~= crate::merkle::tx_leaves(prev_txs) + seq![
                            crate::hashing::sha256_of(tx_digest_bytes_v(v.inputs, v.outputs)),
                        ]);
                        assert(chain_tx_leaves(c0, 0) =~= crate::merkle::tx_leaves(transactions@)
                            + chain_tx_leaves(c0, (index + 1) as u64));
                    }
                },
            }
            index = index + 1;
        }
        proof {
            assert(chain_tx_leaves(c0, index) =~= Seq::<Seq<u8>>::empty());
            assert(chain_tx_leaves(c0, 0) =~= crate::merkle::tx_leaves(transactions@));
        }
        let tree = JabMerkleTree::new(transactions);
        let next_merkle = tree.root_hash();
        if previous_block.index() == 0xffff_ffff_ffff_ffffu64 {
            return Err(BlockchainError::InvalidBlock);
        }
        let next_index = previous_block.index() + 1;
        let prev_hash = previous_block.header().merkle_root_hash().to_owned();
        let new_block = Block::new(
            next_index,
            Header::new(Version::V010, Some(prev_hash), next_merkle, Timestamp::now()),
            transaction,
        );
        let stored = new_block.clone();
        proof {
            assert(block_view(stored) == block_view(new_block));
            assert(tx_wf(stored.txns)) by {
                assert(stored.txns.inputs@ == new_block.txns.inputs@);
                assert(stored.txns.outputs@ == new_block.txns.outputs@);
            }
        }
        match self.add_block(stored) {
            Ok(_) => {},
            Err(e) => {
                return Err(e);
            },
        }
        let ghost c1 = *self;
        proof {
            assert(chain_indexed(c0) ==> chain_indexed(c1));
        }
        proof {
            if chain_ready(c0) && scan_clean(c0) && (latest_view(c0) matches Some(lv) && lv.index
                < 0xffff_ffff_ffff_fffe && lv.index + 1 == scan_end(c0, 1) && chain_text(
                c0,
                (lv.index + 2) as u64,
            ) is None) {
                assert(chain_block(c1, next_index) == Some(block_view(new_block)));
                assert forall|i: u64| 1 <= i < next_index + 1 implies #[trigger] chain_text(
                    c1,
                    i,
                ) is Some by {
                    if i < next_index {
                        assert(chain_text(c1, i) == chain_text(c0, i));
                        lemma_scan_end_some(c0, 1, i);
                    } else {
                        assert(chain_block(c1, next_index) is Some);
                    }
                }
                assert(chain_text(c1, (next_index + 1) as u64) == chain_text(
                    c0,
                    (next_index + 1) as u64,
                ));
                lemma_scan_end_at(c1, 1, (next_index + 1) as u64);
                assert(latest_index(c1) == next_index);
                assert(chain_ready(c1)) by {
                    assert forall|i: u64| 1 <= i < scan_end(c1, 1) implies !#[trigger]
                    chain_corrupt(c1, i) by {
                        if i < next_index {
                            assert(chain_text(c1, i) == chain_text(c0, i));
                            assert(!chain_corrupt(c0, i));
                        } else {
                            assert(chain_block(c1, next_index) is Some);
                        }
                    }
                }
            }
        }
        let tip = match self.get_latest_block() {
            Ok(b) => b,
            Err(e) => {
                proof {
                    if chain_indexed(c0) {
                        lemma_indexed_only_corrupt(c1, *self);
                    }
                }
                return Err(e);
            },
        };
        proof {
            if chain_indexed(c0) {
                lemma_indexed_only_corrupt(c1, *self);
            }
            if chain_ready(c0) && scan_clean(c0) && (latest_view(c0) matches Some(lv) && lv.index
                < 0xffff_ffff_ffff_fffe && lv.index + 1 == scan_end(c0, 1) && chain_text(
                c0,
                (lv.index + 2) as u64,
            ) is None) {
                assert(Some(block_view(tip)) == latest_view(c1));
                assert(latest_view(c1) == chain_block(c1, next_index));
                assert(block_view(tip) == block_view(new_block));
            }
        }
        Ok(tip)
    }
}


/// Whether the block under `i` is linked to its parent: it carries the
/// parent's Merkle root as its previous hash, sits under its own index,
/// and the parent's index is smaller.
pub open spec fn linked_at(c: Chain, i: u64) -> bool {
    chain_block(c, i) matches Some(v) && (chain_block(c, (i - 1) as u64) matches Some(p)
        && v.prev == Some(p.merkle) && v.index == i && p.index < v.index)
}

/// Every stored block above genesis, up to the first gap, is linked to its
/// parent.
pub open spec fn chain_linked(c: Chain) -> bool {
    forall|i: u64| 1 <= i < scan_end(c, 1) ==> #[trigger] linked_at(c, i)
}

/// Accepting a block at the tip preserves the chain's linkage: the new
/// block points at the old tip's Merkle root and extends the indices by
/// one.
/// One stored index stays linked after the tip gains a block.
#[verifier::rlimit(100)]
#[verifier::spinoff_prover]
proof fn lemma_link_at(c0: Chain, c1: Chain, b: BlockView, i: u64)
    requires
        chain_ready(c0),
        chain_linked(c0),
        chain_indexed(c0),
        latest_view(c0) matches Some(lv) && b.index == lv.index + 1 && b.prev == Some(lv.merkle)
            && lv.index < 0xffff_ffff_ffff_fffe,
        chain_block(c1, b.index) == Some(b),
        forall|j: u64| j != b.index ==> #[trigger] chain_text(c1, j) == chain_text(c0, j),
        1 <= i <= b.index,
    ensures
        linked_at(c1, i),
{
    lemma_scan_end_ge(c0, 1);
    assert(chain_block(c0, latest_index(c0)) is Some);
    assert(latest_view(c0)->Some_0.index == latest_index(c0));
    assert(b.index == scan_end(c0, 1));
    if i < b.index {
        assert(linked_at(c0, i));
        assert(chain_text(c1, i) == chain_text(c0, i));
        assert(chain_text(c1, (i - 1) as u64) == chain_text(c0, (i - 1) as u64));
    } else {
        assert(chain_block(c1, i) == Some(b));
        assert(chain_text(c1, (i - 1) as u64) == chain_text(c0, (i - 1) as u64));
        assert(chain_block(c1, (i - 1) as u64) == chain_block(c0, latest_index(c0)));
    }
}

/// Accepting a block at the tip preserves the chain's linkage: the new
/// block points at the old tip's Merkle root and extends the indices by
/// one.
#[verifier::rlimit(100)]
#[verifier::spinoff_prover]
pub proof fn lemma_add_block_preserves_links(c0: Chain, c1: Chain, b: BlockView)
    requires
        chain_ready(c0),
        chain_linked(c0),
        chain_indexed(c0),
        latest_view(c0) matches Some(lv) && b.index == lv.index + 1 && b.prev == Some(lv.merkle)
            && lv.index < 0xffff_ffff_ffff_fffe,
        chain_text(c0, (b.index + 1) as u64) is None,
        chain_block(c1, b.index) == Some(b),
        forall|j: u64| j != b.index ==> #[trigger] chain_text(c1, j) == chain_text(c0, j),
    ensures
        chain_linked(c1),
        scan_end(c1, 1) == scan_end(c0, 1) + 1,
        latest_view(c1) == Some(b),
{
    lemma_scan_end_ge(c0, 1);
    assert(chain_block(c0, latest_index(c0)) is Some);
    assert(latest_view(c0)->Some_0.index == latest_index(c0));
    assert(b.index == scan_end(c0, 1));
    assert forall|i: u64| 1 <= i < b.index + 1 implies #[trigger] chain_text(c1, i) is Some by {
        if i < b.index {
            lemma_scan_end_some(c0, 1, i);
        } else {
            assert(chain_block(c1, b.index) is Some);
        }
    }
    lemma_scan_end_at(c1, 1, (b.index + 1) as u64);
    assert forall|i: u64| 1 <= i < scan_end(c1, 1) implies #[trigger] linked_at(c1, i) by {
        lemma_link_at(c0, c1, b, i);
    }
}

/// After a block is accepted at the tip, the tip sits at that block's own
/// index, so offering any block at the same or a lower index is rejected:
/// the chain's indices never fall.
pub proof fn lemma_readd_block_rejected(c0: Chain, c1: Chain, b: BlockView)
    requires
        chain_ready(c0),
        chain_indexed(c0),
        latest_view(c0) matches Some(lv) && b.index == lv.index + 1 && lv.index
            < 0xffff_ffff_ffff_fffe,
        chain_text(c0, (b.index + 1) as u64) is None,
        chain_block(c1, b.index) == Some(b),
        forall|j: u64| j != b.index ==> #[trigger] chain_text(c1, j) == chain_text(c0, j),
    ensures
        latest_view(c1) matches Some(nl) && !(b.index > nl.index),
{
    lemma_scan_end_ge(c0, 1);
    assert(chain_block(c0, latest_index(c0)) is Some);
    assert(latest_view(c0)->Some_0.index == latest_index(c0));
    assert(b.index == scan_end(c0, 1));
    assert forall|i: u64| 1 <= i < b.index + 1 implies #[trigger] chain_text(c1, i) is Some by {
        if i < b.index {
            lemma_scan_end_some(c0, 1, i);
        } else {
            assert(chain_block(c1, b.index) is Some);
        }
    }
    lemma_scan_end_at(c1, 1, (b.index + 1) as u64);
    assert(latest_index(c1) == b.index);
    assert(latest_view(c1) == Some(b));
}


/// Whether some entry in `es` carries `addr`.
pub open spec fn entries_mention(es: Seq<EntryView>, addr: Seq<char>) -> bool {
    exists|i: int| 0 <= i < es.len() && (#[trigger] es[i]).address == addr
}

/// Whether a block's transaction references `addr` on any input or output.
pub open spec fn tx_mentions(v: BlockView, addr: Seq<char>) -> bool {
    entries_mention(v.inputs, addr) || entries_mention(v.outputs, addr)
}

/// The stored blocks from `i` up to the first gap whose transaction
/// references `addr`, in order.
pub open spec fn wallet_tx_views(c: Chain, addr: Seq<char>, i: u64) -> Seq<BlockView>
    decreases u64::MAX - i,
{
    if i == u64::MAX || chain_text(c, i) is None {
        Seq::empty()
    } else {
        (match chain_block(c, i) {
            Some(v) => if tx_mentions(v, addr) {
                seq![v]
            } else {
                Seq::empty()
            },
            None => Seq::empty(),
        }) + wallet_tx_views(c, addr, (i + 1) as u64)
    }
}

/// Whether any input of `t` carries `addr`.
fn inputs_mention_exec(t: &Transaction, addr: &str) -> (r: bool)
    ensures
        r == entries_mention(crate::codec::input_views(t.inputs@), addr@),
{
    let wanted = addr.to_owned();
    let n = t.inputs.len();
    let mut i: usize = 0;
    while i < n
        invariant
            i <= n,
            n == t.inputs@.len(),
            wanted@ == addr@,
            forall|k: int|
                0 <= k < i ==> (#[trigger] crate::codec::input_views(t.inputs@)[k]).address
                    != addr@,
        decreases n - i,
    {
        if t.inputs[i].address == wanted {
            proof {
                assert(crate::codec::input_views(t.inputs@)[i as int].address == addr@);
            }
            return true;
        }
        proof {
            assert(crate::codec::input_views(t.inputs@)[i as int].address
                == t.inputs@[i as int].address@);
        }
        i += 1;
    }
    false
}

/// Whether any output of `t` carries `addr`.
fn outputs_mention_exec(t: &Transaction, addr: &str) -> (r: bool)
    ensures
        r == entries_mention(crate::codec::output_views(t.outputs@), addr@),
{
    let wanted = addr.to_owned();
    let n = t.outputs.len();
    let mut i: usize = 0;
    while i < n
        invariant
            i <= n,
            n == t.outputs@.len(),
            wanted@ == addr@,
            forall|k: int|
                0 <= k < i ==> (#[trigger] crate::codec::output_views(t.outputs@)[k]).address
                    != addr@,
        decreases n - i,
    {
        if t.outputs[i].address == wanted {
            proof {
                assert(crate::codec::output_views(t.outputs@)[i as int].address == addr@);
            }
            return true;
        }
        proof {
            assert(crate::codec::output_views(t.outputs@)[i as int].address
                == t.outputs@[i as int].address@);
        }
        i += 1;
    }
    false
}

impl Chain {
    /// Every stored transaction that references `addr` on an input or an
    /// output, in chain order, or `None` when the address never appears.
    #[verifier::rlimit(100)]
    #[verifier::spinoff_prover]
    pub fn wallet_transactions(&mut self, addr: &str) -> (r: BlockchainResult<
        Option<Vec<Transaction>>,
    >)
        ensures
            scan_clean(*old(self)) ==> *final(self) == *old(self) && (r matches Ok(x) && ((
            x matches Some(ts) ==> crate::merkle::txs_wf(ts@) && ts@.len() == wallet_tx_views(
                *old(self),
                addr@,
                0,
            ).len() && (
            forall|k: int|
                0 <= k < ts@.len() ==> crate::codec::input_views(
                    (#[trigger] ts@[k]).inputs@,
                ) == wallet_tx_views(*old(self), addr@, 0)[k].inputs && crate::codec::output_views(
                    ts@[k].outputs@,
                ) == wallet_tx_views(*old(self), addr@, 0)[k].outputs && ts@[k].signature@
                    == wallet_tx_views(*old(self), addr@, 0)[k].signature)) && (x is Some
                <==> wallet_tx_views(*old(self), addr@, 0).len() > 0))),
            !scan_clean(*old(self)) ==> r is Err,
            only_corrupt_deleted(*old(self), *final(self)),
    {
        let ghost c0 = *self;
        proof {
            lemma_scan_end_ge(c0, 0);
            lemma_scan_end_prop(c0, 0);
        }
        let mut transactions: Vec<Transaction> = Vec::new();
        let ghost mut collected: Seq<BlockView> = Seq::empty();
        let mut index: u64 = 0;
        loop
            invariant
                c0 == *old(self),
                *self == c0,
                index <= scan_end(c0, 0),
                scan_end(c0, 0) == u64::MAX || chain_text(c0, scan_end(c0, 0)) is None,
                forall|i: u64| i < index ==> #[trigger] chain_text(c0, i) is Some,
                forall|i: u64| i < index ==> !#[trigger] chain_corrupt(c0, i),
                wallet_tx_views(c0, addr@, 0) == collected + wallet_tx_views(c0, addr@, index),
                crate::merkle::txs_wf(transactions@),
                transactions@.len() == collected.len(),
                forall|k: int|
                    0 <= k < collected.len() ==> crate::codec::input_views(
                        (#[trigger] transactions@[k]).inputs@,
                    ) == collected[k].inputs && crate::codec::output_views(
                        transactions@[k].outputs@,
                    ) == collected[k].outputs && transactions@[k].signature@
                        == collected[k].signature,
            decreases u64::MAX - index,
        {
            let done = if index == u64::MAX {
                true
            } else {
                match self.get_block(index) {
                    Err(e) => {
                        proof {
                            assert(chain_corrupt(c0, index));
                            if scan_clean(c0) {
                                if index < scan_end(c0, 0) {
                                    assert(!chain_corrupt(c0, index));
                                } else {
                                    assert(index == scan_end(c0, 0));
                                    assert(chain_text(c0, index) is None);
                                }
                                assert(false);
                            }
                        }
                        return Err(e);
                    },
                    Ok(None) => {
                        proof {
                            lemma_scan_end_at(c0, 0, index);
                            assert(scan_clean(c0));
                        }
                        true
                    },
                    Ok(Some(b)) => {
                        proof {
                            if index >= scan_end(c0, 0) {
                                assert(index == scan_end(c0, 0));
                                assert(chain_text(c0, index) is None);
                                assert(false);
                            }
                            assert(!chain_corrupt(c0, index));
                        }
                        let ghost v = chain_block(c0, index)->Some_0;
                        let hit = inputs_mention_exec(b.transaction(), addr)
                            || outputs_mention_exec(b.transaction(), addr);
                        proof {
                            assert(v == crate::codec::block_view(b));
                            assert(hit == tx_mentions(v, addr@));
                        }
                        if hit {
                            let ghost prevc = collected;
                            transactions.push(b.txns.clone());
                            proof {
                                collected = prevc + seq![v];
                                assert(transactions@.last().inputs@ == b.txns.inputs@);
                                assert(transactions@.last().outputs@ == b.txns.outputs@);
                                assert(tx_wf(transactions@.last()));
                                assert(crate::merkle::txs_wf(transactions@)) by {
                                    assert(forall|k: int|
                                        0 <= k < transactions@.len() - 1
                                            ==> #[trigger] transactions@[k]
                                            == transactions@.drop_last()[k]);
                                    assert(transactions@[transactions@.len() - 1]
                                        == transactions@.last());
                                }
                                assert(transactions@.drop_last() =~= transactions@.subrange(
                                    0,
                                    prevc.len() as int,
                                ));
                            }
                        }
                        proof {
                            assert(wallet_tx_views(c0, addr@, 0) =~= collected + wallet_tx_views(
                                c0,
                                addr@,
                                (index + 1) as u64,
                            ));
                        }
                        false
                    },
                }
            };
            if done {
                proof {
                    assert(wallet_tx_views(c0, addr@, index) =~= Seq::<BlockView>::empty());
                    assert(wallet_tx_views(c0, addr@, 0) =~= collected);
                }
                return if transactions.len() > 0 {
                    Ok(Some(transactions))
                } else {
                    Ok(None)
                };
            }
            index = index + 1;
        }
    }
}


/// Well-formed entries never pay a negative sum.
proof fn lemma_received_v_nonneg(es: Seq<EntryView>, addr: Seq<char>)
    requires
        crate::codec::entries_view_wf(es),
    ensures
        received_v(es, addr) >= 0,
    decreases es.len(),
{
    if es.len() > 0 {
        assert(crate::codec::entries_view_wf(es.drop_last())) by {
            assert(forall|k: int|
                0 <= k < es.drop_last().len() ==> #[trigger] es.drop_last()[k] == es[k]);
        }
        lemma_received_v_nonneg(es.drop_last(), addr);
        assert(crate::codec::entry_view_wf(es.last()));
    }
}

/// Well-formed entries never spend a positive sum.
proof fn lemma_spent_v_nonpos(es: Seq<EntryView>, addr: Seq<char>)
    requires
        crate::codec::entries_view_wf(es),
    ensures
        spent_v(es, addr) <= 0,
    decreases es.len(),
{
    if es.len() > 0 {
        assert(crate::codec::entries_view_wf(es.drop_last())) by {
            assert(forall|k: int|
                0 <= k < es.drop_last().len() ==> #[trigger] es.drop_last()[k] == es[k]);
        }
        lemma_spent_v_nonpos(es.drop_last(), addr);
        assert(crate::codec::entry_view_wf(es.last()));
    }
}

/// Every block the chain reads back is well formed.
pub proof fn lemma_chain_block_wf(c: Chain, i: u64)
    ensures
        chain_block(c, i) matches Some(v) ==> crate::codec::block_view_wf(v),
{
    match chain_text(c, i) {
        None => {},
        Some(t) => {
            crate::codec::lemma_parse_block_wf(t);
        },
    }
}

/// No stored block lowers a balance: each contribution is at least zero.
proof fn lemma_contrib_nonneg(v: BlockView, addr: Seq<char>)
    requires
        crate::codec::block_view_wf(v),
    ensures
        block_contrib(v, addr) >= 0,
{
    lemma_received_v_nonneg(v.outputs, addr);
    lemma_spent_v_nonpos(v.inputs, addr);
}

/// On a clean chain every balance suffix is at least zero.
pub proof fn lemma_wallet_sum_nonneg(c: Chain, addr: Seq<char>, i: u64)
    requires
        scan_clean(c),
        i <= scan_end(c, 0),
    ensures
        wallet_sum(c, addr, i) >= 0,
    decreases u64::MAX - i,
{
    if !(i == u64::MAX || chain_text(c, i) is None) {
        lemma_scan_end_prop(c, 0);
        assert(i < scan_end(c, 0));
        assert(!chain_corrupt(c, i));
        match chain_block(c, i) {
            Some(v) => {
                lemma_chain_block_wf(c, i);
                lemma_contrib_nonneg(v, addr);
            },
            None => {
                assert(chain_corrupt(c, i));
            },
        }
        lemma_wallet_sum_nonneg(c, addr, (i + 1) as u64);
    }
}


/// The balance a list of transactions gives `addr`: over every
/// transaction, what it pays to the address minus what it spends from it.
pub open spec fn txs_balance(ts: Seq<Transaction>, addr: Seq<char>) -> int
    decreases ts.len(),
{
    if ts.len() == 0 {
        0
    } else {
        txs_balance(ts.drop_last(), addr) + crate::transaction::spec_amount_received(
            ts.last().outputs@,
            addr,
        ) - crate::transaction::spec_amount_spent(ts.last().inputs@, addr)
    }
}

proof fn lemma_txs_balance_nonneg(ts: Seq<Transaction>, addr: Seq<char>)
    requires
        crate::merkle::txs_wf(ts),
    ensures
        txs_balance(ts, addr) >= 0,
    decreases ts.len(),
{
    if ts.len() > 0 {
        assert(crate::merkle::txs_wf(ts.drop_last())) by {
            assert(forall|k: int|
                0 <= k < ts.drop_last().len() ==> #[trigger] ts.drop_last()[k] == ts[k]);
        }
        lemma_txs_balance_nonneg(ts.drop_last(), addr);
        crate::transaction::lemma_received_nonneg(ts.last().outputs@, addr);
        crate::transaction::lemma_spent_nonpos(ts.last().inputs@, addr);
    }
}

proof fn lemma_txs_balance_prefix_le(ts: Seq<Transaction>, addr: Seq<char>, i: int)
    requires
        crate::merkle::txs_wf(ts),
        0 <= i <= ts.len(),
    ensures
        txs_balance(ts.subrange(0, i), addr) <= txs_balance(ts, addr),
    decreases ts.len() - i,
{
    if i == ts.len() {
        assert(ts.subrange(0, i) =~= ts);
    } else {
        lemma_txs_balance_prefix_le(ts, addr, i + 1);
        let cur = ts.subrange(0, i + 1);
        assert(cur.drop_last() =~= ts.subrange(0, i));
        assert(cur.last() == ts[i]);
        crate::transaction::lemma_received_nonneg(ts[i].outputs@, addr);
        crate::transaction::lemma_spent_nonpos(ts[i].inputs@, addr);
    }
}

/// The balance of `addr` over a list of transactions: the sum of what each
/// pays to the address minus what it spends from it, or `None` when the
/// sum leaves the supported range.
pub fn wallet_balance(transactions: &Vec<Transaction>, addr: &str) -> (r: Option<Amount>)
    requires
        crate::merkle::txs_wf(transactions@),
    ensures
        match r {
            Some(a) => amount_wf(a) && amount_units(a) == txs_balance(transactions@, addr@)
                && amount_units(a) >= 0,
            None => txs_balance(transactions@, addr@) > pow10(36),
        },
{
    let n = transactions.len();
    let mut acc = Amount::zero();
    let mut i: usize = 0;
    proof {
        assert(transactions@.subrange(0, 0) =~= Seq::<Transaction>::empty());
    }
    while i < n
        invariant
            i <= n,
            n == transactions@.len(),
            crate::merkle::txs_wf(transactions@),
            amount_wf(acc),
            amount_units(acc) >= 0,
            amount_units(acc) == txs_balance(transactions@.subrange(0, i as int), addr@),
        decreases n - i,
    {
        proof {
            let cur = transactions@.subrange(0, i as int + 1);
            assert(cur.drop_last() =~= transactions@.subrange(0, i as int));
            assert(cur.last() == transactions@[i as int]);
            crate::transaction::lemma_received_nonneg(transactions@[i as int].outputs@, addr@);
            crate::transaction::lemma_spent_nonpos(transactions@[i as int].inputs@, addr@);
            lemma_txs_balance_prefix_le(transactions@, addr@, i as int + 1);
        }
        let received = match transactions[i].amount_received_checked(addr) {
            Some(a) => a,
            None => {
                return None;
            },
        };
        let spent = match transactions[i].amount_spent_checked(addr) {
            Some(a) => a,
            None => {
                return None;
            },
        };
        let step1 = match acc.checked_add(&received) {
            Some(a) => a,
            None => {
                return None;
            },
        };
        let step2 = match step1.checked_sub(&spent) {
            Some(a) => a,
            None => {
                return None;
            },
        };
        acc = step2;
        i += 1;
    }
    proof {
        assert(transactions@.subrange(0, n as int) =~= transactions@);
    }
    Some(acc)
}


/// Every stored block that reads back sits under its own index. Fresh
/// chains have it, and accepting or generating blocks keeps it.
pub open spec fn chain_indexed(c: Chain) -> bool {
    forall|i: u64| #[trigger] chain_block(c, i) matches Some(v) ==> v.index == i
}

/// Writing a block under its own index keeps the chain indexed.
pub proof fn lemma_indexed_after_put(a: Chain, b: Chain, v: BlockView, idx: u64)
    requires
        chain_indexed(a),
        chain_block(b, idx) == Some(v),
        v.index == idx,
        forall|j: u64| j != idx ==> #[trigger] chain_text(b, j) == chain_text(a, j),
    ensures
        chain_indexed(b),
{
    assert forall|i: u64| #[trigger] chain_block(b, i) is Some implies chain_block(
        b,
        i,
    )->Some_0.index == i by {
        if i != idx {
            assert(chain_text(b, i) == chain_text(a, i));
            assert(chain_block(b, i) == chain_block(a, i));
            assert(chain_block(a, i) is Some);
        }
    }
}

/// Deleting corrupt entries keeps the chain indexed.
pub proof fn lemma_indexed_only_corrupt(a: Chain, b: Chain)
    requires
        chain_indexed(a),
        only_corrupt_deleted(a, b),
    ensures
        chain_indexed(b),
{
    assert forall|i: u64| #[trigger] chain_block(b, i) is Some implies chain_block(
        b,
        i,
    )->Some_0.index == i by {
        if chain_corrupt(a, i) {
            if chain_text(b, i) == chain_text(a, i) {
                assert(chain_block(b, i) == chain_block(a, i));
            } else {
                assert(chain_text(b, i) is None);
                assert(chain_block(b, i) is None);
            }
        } else {
            assert(chain_text(b, i) == chain_text(a, i));
            assert(chain_block(b, i) == chain_block(a, i));
            assert(chain_block(b, i) is Some ==> chain_block(a, i) is Some);
        }
    }
}

} // verus!
