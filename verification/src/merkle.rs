//! The Merkle tree over transactions.
//!
//! The root is built from the SHA-256 leaf digests of the transactions in
//! order: levels are formed by hashing each pair of neighbours, an odd last
//! entry is paired with itself, and the root is hex-encoded.

use crate::codec::{input_views, output_views, EntryView};
use crate::hashing::{hex_of, sha256, sha256_of, to_hex};
use crate::transaction::{
    entry_bytes, inputs_digest_bytes, outputs_digest_bytes, push_bytes, tx_digest_bytes, tx_wf,
    LockOutput, Transaction, UnlockInput,
};
use vstd::prelude::*;

verus! {

/// The leaf digests of the transactions, in order.
pub open spec fn tx_leaves(txs: Seq<Transaction>) -> Seq<Seq<u8>> {
    Seq::new(txs.len(), |i: int| sha256_of(tx_digest_bytes(txs[i])))
}

/// One level up: neighbours hashed pairwise, an odd last entry hashed with
/// itself.
pub open spec fn merkle_level(hashes: Seq<Seq<u8>>) -> Seq<Seq<u8>> {
    Seq::new(
        (hashes.len() + 1) / 2,
        |i: int|
            if 2 * i + 1 < hashes.len() {
                sha256_of(hashes[2 * i] + hashes[2 * i + 1])
            } else {
                sha256_of(hashes[2 * i] + hashes[2 * i])
            },
    )
}

/// The Merkle root of a list of digests: the single digest once the levels
/// have been folded up.
pub open spec fn merkle_root(hashes: Seq<Seq<u8>>) -> Seq<u8>
    decreases hashes.len(),
{
    if hashes.len() == 0 {
        sha256_of(Seq::empty())
    } else if hashes.len() == 1 {
        hashes[0]
    } else {
        merkle_root(merkle_level(hashes))
    }
}

/// The hex Merkle root over a list of transactions.
pub open spec fn merkle_root_of_txs(txs: Seq<Transaction>) -> Seq<char> {
    hex_of(merkle_root(tx_leaves(txs)))
}

/// The views of a vector of byte vectors.
pub open spec fn digest_views(s: Seq<Vec<u8>>) -> Seq<Seq<u8>> {
    Seq::new(s.len(), |i: int| s[i]@)
}

pub open spec fn txs_wf(txs: Seq<Transaction>) -> bool {
    forall|i: int| 0 <= i < txs.len() ==> tx_wf(#[trigger] txs[i])
}

/// The Merkle tree of the chain's transactions.
pub struct JabMerkleTree {
    pub transactions: Vec<Transaction>,
}

impl JabMerkleTree {
    /// Build the tree over the given transactions, in order.
    pub fn new(transactions: Vec<Transaction>) -> (r: Self)
        ensures
            r.transactions@ == transactions@,
    {
        JabMerkleTree { transactions }
    }

    /// The hex-encoded Merkle root of the transactions.
    pub fn root_hash(&self) -> (r: String)
        requires
            txs_wf(self.transactions@),
        ensures
            r@ == merkle_root_of_txs(self.transactions@),
    {
        let n = self.transactions.len();
        let mut hashes: Vec<Vec<u8>> = Vec::new();
        let mut i: usize = 0;
        proof {
            assert(digest_views(hashes@) =~~= tx_leaves(self.transactions@).subrange(0, 0));
        }
        while i < n
            invariant
                n == self.transactions@.len(),
                i <= n,
                txs_wf(self.transactions@),
                digest_views(hashes@) == tx_leaves(self.transactions@).subrange(0, i as int),
            decreases n - i,
        {
            let d = self.transactions[i].sha256_digest();
            let ghost prev = hashes@;
            hashes.push(d);
            proof {
                assert(hashes@ == prev.push(d));
                let txs = self.transactions@;
                assert(digest_views(prev).len() == prev.len());
                assert(tx_leaves(txs).subrange(0, i as int).len() == i as int);
                assert(prev.len() == i as int);
                assert forall|k: int| 0 <= k < i + 1 implies digest_views(hashes@)[k]
                    == tx_leaves(txs).subrange(0, i as int + 1)[k] by {
                    if k < i {
                        assert(digest_views(prev)[k] == tx_leaves(txs).subrange(0, i as int)[k]);
                        assert(hashes@[k] == prev[k]);
                    } else {
                        assert(hashes@[k] == d);
                    }
                }
                assert(digest_views(hashes@) =~= tx_leaves(txs).subrange(0, i as int + 1));
            }
            i += 1;
        }
        proof {
            assert(tx_leaves(self.transactions@).subrange(0, n as int) =~~= tx_leaves(
                self.transactions@,
            ));
        }
        if hashes.len() == 0 {
            let empty: Vec<u8> = Vec::new();
            let root = sha256(empty.as_slice());
            let r = to_hex(root.as_slice());
            proof {
                assert(empty@ =~= Seq::<u8>::empty());
            }
            return r;
        }
        while hashes.len() > 1
            invariant
                hashes@.len() >= 1,
                merkle_root(digest_views(hashes@)) == merkle_root(tx_leaves(self.transactions@)),
            decreases hashes@.len(),
        {
            let len = hashes.len();
            let half = len / 2 + len % 2;
            let mut next: Vec<Vec<u8>> = Vec::new();
            let mut j: usize = 0;
            proof {
                assert(digest_views(next@) =~~= merkle_level(digest_views(hashes@)).subrange(
                    0,
                    0,
                ));
            }
            while j < half
                invariant
                    len == hashes@.len(),
                    2 <= len,
                    half == len / 2 + len % 2,
                    j <= half,
                    digest_views(next@) == merkle_level(digest_views(hashes@)).subrange(
                        0,
                        j as int,
                    ),
                decreases half - j,
            {
                let k = 2 * j;
                let mut cat: Vec<u8> = Vec::new();
                push_bytes(&mut cat, hashes[k].as_slice());
                if k + 1 < len {
                    push_bytes(&mut cat, hashes[k + 1].as_slice());
                } else {
                    push_bytes(&mut cat, hashes[k].as_slice());
                }
                let d = sha256(cat.as_slice());
                let ghost prevn = next@;
                next.push(d);
                proof {
                    let views = digest_views(hashes@);
                    let lvl = merkle_level(views);
                    assert(next@ == prevn.push(d));
                    assert(digest_views(prevn).len() == prevn.len());
                    assert(lvl.subrange(0, j as int).len() == j as int);
                    assert(prevn.len() == j as int);
                    assert(views[2 * j as int] == hashes@[2 * j as int]@);
                    if k + 1 < len {
                        assert(views[2 * j as int + 1] == hashes@[2 * j as int + 1]@);
                    }
                    assert forall|t: int| 0 <= t < j + 1 implies digest_views(next@)[t]
                        == lvl.subrange(0, j as int + 1)[t] by {
                        if t < j {
                            assert(digest_views(prevn)[t] == lvl.subrange(0, j as int)[t]);
                            assert(next@[t] == prevn[t]);
                        } else {
                            assert(next@[t] == d);
                        }
                    }
                    assert(digest_views(next@) =~= lvl.subrange(0, j as int + 1));
                }
                j += 1;
            }
            proof {
                assert(merkle_level(digest_views(hashes@)).subrange(0, j as int) =~~= merkle_level(
                    digest_views(hashes@),
                ));
            }
            hashes = next;
        }
        to_hex(hashes[0].as_slice())
    }
}


/// The digest bytes of a list of entries, as plain values.
pub open spec fn entries_digest_bytes_v(es: Seq<EntryView>) -> Seq<u8>
    decreases es.len(),
{
    if es.len() == 0 {
        Seq::empty()
    } else {
        entries_digest_bytes_v(es.drop_last()) + entry_bytes(es.last().address, es.last().amount)
    }
}

/// The digest bytes of a transaction, as plain values: the version byte,
/// the inputs, the outputs.
pub open spec fn tx_digest_bytes_v(ins: Seq<EntryView>, outs: Seq<EntryView>) -> Seq<u8> {
    seq![1u8] + entries_digest_bytes_v(ins) + entries_digest_bytes_v(outs)
}

proof fn lemma_inputs_digest_view(s: Seq<UnlockInput>)
    ensures
        inputs_digest_bytes(s) == entries_digest_bytes_v(input_views(s)),
    decreases s.len(),
{
    if s.len() > 0 {
        lemma_inputs_digest_view(s.drop_last());
        assert(input_views(s).drop_last() =~= input_views(s.drop_last()));
        assert(input_views(s).last() == (EntryView {
            address: s.last().address@,
            amount: s.last().amount,
        }));
    } else {
        assert(input_views(s).len() == 0);
    }
}

proof fn lemma_outputs_digest_view(s: Seq<LockOutput>)
    ensures
        outputs_digest_bytes(s) == entries_digest_bytes_v(output_views(s)),
    decreases s.len(),
{
    if s.len() > 0 {
        lemma_outputs_digest_view(s.drop_last());
        assert(output_views(s).drop_last() =~= output_views(s.drop_last()));
        assert(output_views(s).last() == (EntryView {
            address: s.last().address@,
            amount: s.last().amount,
        }));
    } else {
        assert(output_views(s).len() == 0);
    }
}

/// A transaction is hashed over exactly the plain values it holds.
pub proof fn lemma_tx_digest_view(t: Transaction)
    ensures
        tx_digest_bytes(t) == tx_digest_bytes_v(input_views(t.inputs@), output_views(t.outputs@)),
{
    lemma_inputs_digest_view(t.inputs@);
    lemma_outputs_digest_view(t.outputs@);
}

} // verus!
