//! Blocks and their headers.
//!
//! A block carries an index, a header linking it to its parent through the
//! parent's Merkle root, and a single transaction. Index 0 is the genesis
//! block.

use crate::transaction::{tx_same, tx_wf, Transaction};
use vstd::prelude::*;
use vstd::string::StringExecFns;

verus! {

/// The chain format version tag.
#[derive(Debug, Clone, Copy, PartialEq, Eq, Structural)]
pub enum Version {
    V010,
}

impl Version {
    /// The tag's text form.
    pub fn to_string(&self) -> (r: String)
        ensures
            r@ == seq!['V', '0', '1', '0'],
    {
        let r = String::new();
        let mut r = r;
        r.append("V010");
        proof {
            reveal_strlit("V010");
            assert(r@ =~= seq!['V', '0', '1', '0']);
        }
        r
    }

    /// Read a tag back from its text form; fails on anything else.
    pub fn from_str(s: &str) -> (r: Result<Version, &'static str>)
        ensures
            r is Ok <==> s@ == seq!['V', '0', '1', '0'],
    {
        proof {
            reveal_strlit("V010");
            assert("V010"@ =~= seq!['V', '0', '1', '0']);
        }
        let owned = s.to_owned();
        let expected = String::from_str("V010");
        if owned == expected {
            Ok(Version::V010)
        } else {
            Err("invalid version")
        }
    }
}

/// A creation time: seconds and leftover nanoseconds since the UNIX epoch.
#[derive(Debug, Clone, Copy, PartialEq, Eq, Structural)]
pub struct Timestamp {
    pub secs: u64,
    pub nanos: u32,
}

/// A timestamp is well formed when the leftover nanoseconds are less than a
/// second.
pub open spec fn ts_wf(t: Timestamp) -> bool {
    t.nanos < 1000000000
}

/// Relies on `std::time::SystemTime::now` and `duration_since` against the
/// UNIX epoch: the leftover nanoseconds of a duration are below a billion.
/// A clock before the epoch reads as the epoch itself.
#[verifier::external_body]
fn system_now() -> (r: (u64, u32))
    ensures
        r.1 < 1000000000,
{
    match std::time::SystemTime::now().duration_since(std::time::UNIX_EPOCH) {
        Ok(d) => (d.as_secs(), d.subsec_nanos()),
        Err(_) => (0, 0),
    }
}

impl Timestamp {
    /// The UNIX epoch itself.
    pub fn epoch() -> (r: Timestamp)
        ensures
            r == (Timestamp { secs: 0u64, nanos: 0u32 }),
            ts_wf(r),
    {
        Timestamp { secs: 0, nanos: 0 }
    }

    /// The time now, whatever the clock returns.
    pub fn now() -> (r: Timestamp)
        ensures
            ts_wf(r),
    {
        let (secs, nanos) = system_now();
        Timestamp { secs, nanos }
    }
}

/// A block header: format version, the parent block's Merkle root (absent
/// only on genesis), this block's Merkle root, and the creation time.
#[derive(Debug, PartialEq, Eq)]
pub struct Header {
    pub version: Version,
    pub previous_block_header_hash: Option<String>,
    pub merkle_root_hash: String,
    pub created_at: Timestamp,
}

impl Clone for Header {
    fn clone(&self) -> (r: Self)
        ensures
            r == *self,
    {
        Header {
            version: self.version,
            previous_block_header_hash: match &self.previous_block_header_hash {
                Some(h) => Some(h.clone()),
                None => None,
            },
            merkle_root_hash: self.merkle_root_hash.clone(),
            created_at: self.created_at,
        }
    }
}

impl Header {
    /// Make a header from its parts.
    pub fn new(
        version: Version,
        previous_block_header_hash: Option<String>,
        merkle_root_hash: String,
        created_at: Timestamp,
    ) -> (r: Self)
        ensures
            r == (Header { version, previous_block_header_hash, merkle_root_hash, created_at }),
    {
        Header { version, previous_block_header_hash, merkle_root_hash, created_at }
    }

    /// The parent block's Merkle root, absent on genesis.
    pub fn previous_block_header_hash(&self) -> (r: Option<&str>)
        ensures
            match r {
                Some(h) => self.previous_block_header_hash matches Some(p) && h@ == p@,
                None => self.previous_block_header_hash is None,
            },
    {
        match &self.previous_block_header_hash {
            Some(h) => Some(h.as_str()),
            None => None,
        }
    }

    /// This block's Merkle root.
    pub fn merkle_root_hash(&self) -> (r: &str)
        ensures
            r@ == self.merkle_root_hash@,
    {
        self.merkle_root_hash.as_str()
    }
}

/// A block: index, header, and the one transaction it carries.
#[derive(Debug, PartialEq, Eq)]
pub struct Block {
    pub index: u64,
    pub header: Header,
    pub txns: Transaction,
}

/// A block is well formed when its transaction and timestamp are.
pub open spec fn block_wf(b: Block) -> bool {
    tx_wf(b.txns) && ts_wf(b.header.created_at)
}

impl Clone for Block {
    fn clone(&self) -> (r: Self)
        ensures
            r.index == self.index,
            r.header == self.header,
            tx_same(r.txns, self.txns),
    {
        Block { index: self.index, header: self.header.clone(), txns: self.txns.clone() }
    }
}

impl Block {
    /// Make a block from its parts.
    pub fn new(index: u64, header: Header, txns: Transaction) -> (r: Self)
        ensures
            r == (Block { index, header, txns }),
    {
        Block { index, header, txns }
    }

    /// The block index.
    pub fn index(&self) -> (r: u64)
        ensures
            r == self.index,
    {
        self.index
    }

    /// The block header.
    pub fn header(&self) -> (r: &Header)
        ensures
            *r == self.header,
    {
        &self.header
    }

    /// The transaction this block carries.
    pub fn transaction(&self) -> (r: &Transaction)
        ensures
            *r == self.txns,
    {
        &self.txns
    }
}


impl Block {
    /// Whether this block is well formed: its transaction's amounts in
    /// range and not negative, its timestamp's nanoseconds below a second.
    pub fn is_well_formed(&self) -> (r: bool)
        ensures
            r == block_wf(*self),
    {
        self.header.created_at.nanos < 1000000000 && self.txns.is_well_formed()
    }
}

} // verus!
