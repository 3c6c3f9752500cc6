//! The wire message envelope.
//!
//! Peers exchange a tagged union of messages: block requests and blocks on
//! the shared topic, miner roster messages, transaction requests, and the
//! replies sent on a peer's private topic.

use crate::amount::Amount;
use crate::mining::Miner;
use vstd::prelude::*;

verus! {

/// A request for the block at an index.
#[derive(Debug, Clone, Copy, PartialEq, Eq, Structural)]
pub struct RequestBlock {
    pub index: u64,
}

impl RequestBlock {
    /// Ask for the block at `index`.
    pub fn new(index: u64) -> (r: Self)
        ensures
            r.index == index,
    {
        RequestBlock { index }
    }
}

/// A block sent to the network.
#[derive(Debug)]
pub struct Block {
    pub block: crate::block::Block,
}

impl Block {
    /// Wrap a chain block for the wire.
    pub fn new(block: crate::block::Block) -> (r: Self)
        ensures
            r.block == block,
    {
        Block { block }
    }
}

/// The miners a peer knows.
#[derive(Debug)]
pub struct RegisteredMiners {
    pub miners: Vec<Miner>,
}

impl RegisteredMiners {
    /// Carry a copy of the given roster.
    pub fn new(miners: &[Miner]) -> (r: Self)
        ensures
            r.miners@ == miners@,
    {
        let n = miners.len();
        let mut out: Vec<Miner> = Vec::new();
        let mut i: usize = 0;
        while i < n
            invariant
                i <= n,
                n == miners@.len(),
                out@ == miners@.subrange(0, i as int),
            decreases n - i,
        {
            out.push(miners[i].clone());
            proof {
                assert(out@ =~= miners@.subrange(0, i as int + 1));
            }
            i += 1;
        }
        proof {
            assert(miners@.subrange(0, n as int) =~= miners@);
        }
        RegisteredMiners { miners: out }
    }
}

/// A transaction request from a client: who asks, who pays, who receives,
/// how much, and the signature over the transaction the node will build.
#[derive(Debug)]
pub struct Transaction {
    pub peer_id: String,
    pub input_address: String,
    pub output_address: String,
    pub amount: Amount,
    pub public_key: String,
    pub signature: String,
}

impl Transaction {
    /// Make a transaction request.
    pub fn new(
        peer_id: &str,
        input_address: &str,
        output_address: &str,
        amount: Amount,
        public_key: &str,
        signature: &str,
    ) -> (r: Self)
        ensures
            r.peer_id@ == peer_id@,
            r.input_address@ == input_address@,
            r.output_address@ == output_address@,
            r.amount == amount,
            r.public_key@ == public_key@,
            r.signature@ == signature@,
    {
        Transaction {
            peer_id: peer_id.to_owned(),
            input_address: input_address.to_owned(),
            output_address: output_address.to_owned(),
            amount,
            public_key: public_key.to_owned(),
            signature: signature.to_owned(),
        }
    }
}

/// The wire code of a transaction rejection.
#[derive(Debug, Clone, Copy, PartialEq, Eq, Structural)]
pub enum TransactionErrorCode {
    InputWalletNotFound,
    OutputWalletNotFound,
    InsufficientBalance,
    InvalidSignature,
    BlockchainError,
}

/// Whether a transaction went through.
#[derive(Debug, Clone, Copy, PartialEq, Eq, Structural)]
pub enum TransactionStatus {
    Okay,
    Nok,
}

/// A rejection sent back to the requesting peer.
#[derive(Debug)]
pub struct TransactionError {
    pub code: TransactionErrorCode,
    pub description: String,
}

impl TransactionError {
    /// Make a rejection with its wire code and a human description.
    pub fn new(code: TransactionErrorCode, description: &str) -> (r: Self)
        ensures
            r.code == code,
            r.description@ == description@,
    {
        TransactionError { code, description: description.to_owned() }
    }
}

/// The outcome of a transaction request.
#[derive(Debug)]
pub struct TransactionResult {
    pub status: TransactionStatus,
    pub error: Option<TransactionError>,
}

impl TransactionResult {
    /// Make an outcome message.
    pub fn new(status: TransactionStatus, error: Option<TransactionError>) -> (r: Self)
        ensures
            r.status == status,
            r.error == error,
    {
        TransactionResult { status, error }
    }
}

/// A balance-and-history query for an address.
#[derive(Debug)]
pub struct WalletQuery {
    pub peer_id: String,
    pub address: String,
}

impl WalletQuery {
    /// Ask for the wallet under `address`, with replies to `peer_id`.
    pub fn new(peer_id: &str, address: &str) -> (r: Self)
        ensures
            r.peer_id@ == peer_id@,
            r.address@ == address@,
    {
        WalletQuery { peer_id: peer_id.to_owned(), address: address.to_owned() }
    }
}

/// Why a wallet query failed.
#[derive(Debug, Clone, Copy, PartialEq, Eq, Structural)]
pub enum WalletQueryError {
    BlockchainError,
    WalletNotFound,
}

/// A wallet's transactions and balance.
#[derive(Debug)]
pub struct WalletTransactions {
    pub address: String,
    pub transactions: Vec<crate::transaction::Transaction>,
    pub balance: Amount,
}

/// The outcome of a wallet query.
#[derive(Debug)]
pub enum WalletQueryResult {
    Okay(WalletTransactions),
    Error(WalletQueryError),
}

impl WalletQueryResult {
    /// A successful reply with the wallet's transactions and balance.
    pub fn ok(address: &str, transactions: Vec<crate::transaction::Transaction>, balance: Amount)
        -> (r: Self)
        ensures
            r matches WalletQueryResult::Okay(w) && w.address@ == address@ && w.transactions
                == transactions && w.balance == balance,
    {
        WalletQueryResult::Okay(
            WalletTransactions { address: address.to_owned(), transactions, balance },
        )
    }

    /// A failed reply.
    pub fn error(err: WalletQueryError) -> (r: Self)
        ensures
            r == WalletQueryResult::Error(err),
    {
        WalletQueryResult::Error(err)
    }
}

/// The tagged message envelope.
#[derive(Debug)]
pub enum Msg {
    RequestBlock(RequestBlock),
    Block(Block),
    RegisterMiners(RegisteredMiners),
    RequestRegisteredMiners,
    Transaction(Transaction),
    TransactionResult(TransactionResult),
    WalletDetails(WalletQuery),
    WalletDetailsResult(WalletQueryResult),
}

impl Msg {
    /// Ask the network for the block at `index`.
    pub fn request_block(index: u64) -> (r: Self)
        ensures
            r matches Msg::RequestBlock(q) && q.index == index,
    {
        Msg::RequestBlock(RequestBlock::new(index))
    }

    /// Send a block.
    pub fn block(block: crate::block::Block) -> (r: Self)
        ensures
            r matches Msg::Block(b) && b.block == block,
    {
        Msg::Block(Block::new(block))
    }

    /// Send the known miners.
    pub fn register_miners(miners: &[Miner]) -> (r: Self)
        ensures
            r matches Msg::RegisterMiners(m) && m.miners@ == miners@,
    {
        Msg::RegisterMiners(RegisteredMiners::new(miners))
    }

    /// Ask the network for its miners.
    pub fn request_registered_miners() -> (r: Self)
        ensures
            r is RequestRegisteredMiners,
    {
        Msg::RequestRegisteredMiners
    }

    /// Send a transaction request.
    pub fn transaction(
        peer_id: &str,
        input_address: &str,
        output_address: &str,
        amount: Amount,
        public_key: &str,
        signature: &str,
    ) -> (r: Self)
        ensures
            r matches Msg::Transaction(t) && t.peer_id@ == peer_id@ && t.input_address@
                == input_address@ && t.output_address@ == output_address@ && t.amount == amount
                && t.public_key@ == public_key@ && t.signature@ == signature@,
    {
        Msg::Transaction(
            Transaction::new(
                peer_id,
                input_address,
                output_address,
                amount,
                public_key,
                signature,
            ),
        )
    }

    /// Report a transaction that went through.
    pub fn transaction_result_ok() -> (r: Self)
        ensures
            r matches Msg::TransactionResult(t) && t.status == TransactionStatus::Okay && t.error
                is None,
    {
        Msg::TransactionResult(TransactionResult::new(TransactionStatus::Okay, None))
    }

    /// Report a rejected transaction, with its code and description.
    pub fn transaction_result_nok(code: TransactionErrorCode, description: &str) -> (r: Self)
        ensures
            r matches Msg::TransactionResult(t) && t.status == TransactionStatus::Nok && (t.error
                matches Some(e) && e.code == code && e.description@ == description@),
    {
        Msg::TransactionResult(
            TransactionResult::new(
                TransactionStatus::Nok,
                Some(TransactionError::new(code, description)),
            ),
        )
    }

    /// Ask for a wallet's transactions and balance.
    pub fn wallet_details(peer_id: &str, address: &str) -> (r: Self)
        ensures
            r matches Msg::WalletDetails(q) && q.peer_id@ == peer_id@ && q.address@ == address@,
    {
        Msg::WalletDetails(WalletQuery::new(peer_id, address))
    }

    /// Reply to a wallet query with its transactions and balance.
    pub fn wallet_details_result_ok(
        address: &str,
        transactions: Vec<crate::transaction::Transaction>,
        balance: Amount,
    ) -> (r: Self)
        ensures
            r matches Msg::WalletDetailsResult(w) && (w matches WalletQueryResult::Okay(d)
                && d.address@ == address@ && d.transactions == transactions && d.balance
                == balance),
    {
        Msg::WalletDetailsResult(WalletQueryResult::ok(address, transactions, balance))
    }

    /// Reply to a wallet query with an error.
    pub fn wallet_details_result_error(error: WalletQueryError) -> (r: Self)
        ensures
            r matches Msg::WalletDetailsResult(w) && w == WalletQueryResult::Error(error),
    {
        Msg::WalletDetailsResult(WalletQueryResult::error(error))
    }
}

} // verus!
