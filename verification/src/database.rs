//! The block database.
//!
//! Blocks are stored as JSON text under their big-endian index key. A value
//! that does not read back as a block is deleted on read, and the read
//! surfaces an error: every stored block must deserialize.

use crate::block::{block_wf, Block};
use crate::codec::{block_view, emit_block, parse_block, spec_emit_block, spec_parse_block, BlockView};
use crate::keys::{key_bytes, BlockKey};
use crate::store::{kv_get, KvStore};
use vstd::prelude::*;

verus! {

/// An error of the chain.
#[derive(Debug, Clone, Copy, PartialEq, Eq, Structural)]
pub enum BlockchainError {
    /// The block does not follow the chain's tip.
    InvalidBlock,
    /// A stored value did not read back as a block.
    Codec,
    /// An amount left the supported range.
    AmountOverflow,
}

/// The result type of chain operations.
pub type BlockchainResult<T> = Result<T, BlockchainError>;

/// The text stored under a block index.
#[verifier::opaque]
pub open spec fn db_text(db: BlockchainDatabase, i: u64) -> Option<Seq<char>> {
    kv_get(db.store.entries@, key_bytes(i))
}

/// The block stored under an index, when its text reads back.
pub open spec fn db_block(db: BlockchainDatabase, i: u64) -> Option<BlockView> {
    match db_text(db, i) {
        None => None,
        Some(t) => spec_parse_block(t),
    }
}

/// Whether the text under an index does not read back as a block.
pub open spec fn db_corrupt(db: BlockchainDatabase, i: u64) -> bool {
    db_text(db, i) is Some && db_block(db, i) is None
}

/// The block database over the byte-keyed store.
pub struct BlockchainDatabase {
    pub store: KvStore,
}

impl BlockchainDatabase {
    /// An empty database.
    pub fn new() -> (r: Self)
        ensures
            forall|i: u64| #[trigger] db_text(r, i) is None,
    {
        let r = BlockchainDatabase { store: KvStore::new() };
        proof {
            reveal(db_text);
        }
        r
    }

    /// Store a block as JSON text under its index.
    pub fn put_block(&mut self, block: &Block) -> (r: BlockchainResult<()>)
        requires
            block_wf(*block),
        ensures
            r is Ok,
            db_text(*final(self), block.index) == Some(spec_emit_block(block_view(*block))),
            forall|j: u64|
                j != block.index ==> #[trigger] db_text(*final(self), j) == db_text(
                    *old(self),
                    j,
                ),
    {
        let payload = emit_block(block);
        let key = BlockKey::new(block.index).as_slice();
        self.store.put(key, payload);
        proof {
            reveal(db_text);
            assert forall|j: u64|
                j != block.index implies #[trigger] db_text(*self, j) == db_text(
                *old(self),
                j,
            ) by {
                crate::keys::lemma_key_round_trip(j);
                crate::keys::lemma_key_round_trip(block.index);
                assert(key_bytes(j) != key_bytes(block.index));
            }
        }
        Ok(())
    }

    /// Read the block under `index`. A missing key reads as `None`; a value
    /// that does not parse is deleted and surfaces a codec error.
    pub fn get_block(&mut self, index: u64) -> (r: BlockchainResult<Option<Block>>)
        ensures
            db_text(*old(self), index) is None ==> *final(self) == *old(self) && (r matches Ok(x)
                && x is None),
            db_block(*old(self), index) matches Some(v) ==> *final(self) == *old(self) && (
            r matches Ok(x) && (x matches Some(b) && block_view(b) == v && block_wf(b))),
            db_corrupt(*old(self), index) ==> r == Err::<Option<Block>, BlockchainError>(
                BlockchainError::Codec,
            ) && db_text(*final(self), index) is None,
            db_corrupt(*old(self), index) ==> forall|j: u64|
                j != index ==> #[trigger] db_text(*final(self), j) == db_text(*old(self), j),
    {
        proof {
            reveal(db_text);
        }
        let key = BlockKey::new(index).as_slice();
        let text = match self.store.get(&key) {
            None => {
                return Ok(None);
            },
            Some(t) => t.clone(),
        };
        match parse_block(text.as_str()) {
            Some(b) => Ok(Some(b)),
            None => {
                self.store.delete(&key);
                proof {
                    reveal(db_text);
                    assert forall|j: u64|
                        j != index implies #[trigger] db_text(*self, j) == db_text(
                        *old(self),
                        j,
                    ) by {
                        crate::keys::lemma_key_round_trip(j);
                        crate::keys::lemma_key_round_trip(index);
                        assert(key_bytes(j) != key_bytes(index));
                    }
                }
                Err(BlockchainError::Codec)
            },
        }
    }
}

} // verus!
