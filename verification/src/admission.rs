//! Transaction admission.
//!
//! A transaction request is admitted in stages: the amount must not be
//! negative, the paying wallet must exist and cover the amount, the
//! receiving wallet must exist, and the signature must verify over the
//! transaction the node builds. Each stage that fails names its rejection.

use crate::amount::{amount_units, amount_wf, pow10, Amount};
use crate::chain::{scan_clean, wallet_found, wallet_sum, Chain};
use crate::codec::EntryView;
use crate::merkle::tx_digest_bytes_v;
use crate::database::BlockchainError;
use crate::hashing::sha256_of;
use crate::messages::TransactionErrorCode;
use crate::transaction::{
    tx_digest_bytes, tx_wf, Transaction, TransactionBuilder, TransactionVersion,
};
use crate::wallet::{
    secp_pk_parses, secp_sig_parses, secp_verify_ok, wallet_wf, Wallet, WalletError,
};
use vstd::prelude::*;

verus! {

/// Why a transaction was not admitted.
#[derive(Debug)]
pub enum TransactionRejected {
    /// The issuer cannot pay the requested amount.
    InsufficientBalance,
    /// The paying wallet is not on the chain.
    InputWalletNotFound,
    /// The receiving wallet is not on the chain.
    OutputWalletNotFound,
    /// The signature does not verify over the built transaction.
    InvalidSignature,
    /// The chain itself failed.
    BlockchainError(BlockchainError),
    /// The signature or public key did not parse.
    WalletError(WalletError),
}

impl TransactionRejected {
    /// The wire code reported for this rejection.
    pub fn wire_code(&self) -> (r: TransactionErrorCode)
        ensures
            self is InsufficientBalance ==> r == TransactionErrorCode::InsufficientBalance,
            self is InputWalletNotFound ==> r == TransactionErrorCode::InputWalletNotFound,
            self is OutputWalletNotFound ==> r == TransactionErrorCode::OutputWalletNotFound,
            self is InvalidSignature ==> r == TransactionErrorCode::InvalidSignature,
            self is BlockchainError || self is WalletError ==> r
                == TransactionErrorCode::BlockchainError,
    {
        match self {
            TransactionRejected::InsufficientBalance => TransactionErrorCode::InsufficientBalance,
            TransactionRejected::InputWalletNotFound => TransactionErrorCode::InputWalletNotFound,
            TransactionRejected::OutputWalletNotFound => {
                TransactionErrorCode::OutputWalletNotFound
            },
            TransactionRejected::InvalidSignature => TransactionErrorCode::InvalidSignature,
            TransactionRejected::BlockchainError(_) => TransactionErrorCode::BlockchainError,
            TransactionRejected::WalletError(_) => TransactionErrorCode::BlockchainError,
        }
    }
}

/// What a transaction request asks for.
#[derive(Debug)]
pub struct TransactionOptions {
    pub input_address: String,
    pub output_address: String,
    pub signature: String,
    pub public_key: String,
    pub amount: Amount,
    pub fee: Amount,
}

impl TransactionOptions {
    /// Start a request moving nothing between the two addresses.
    pub fn new(input_address: &str, output_address: &str) -> (r: Self)
        ensures
            r.input_address@ == input_address@,
            r.output_address@ == output_address@,
            r.signature@.len() == 0,
            r.public_key@.len() == 0,
            r.amount == (Amount { mantissa: 0 as i128, scale: 0 as u32 }),
            r.fee == (Amount { mantissa: 0 as i128, scale: 0 as u32 }),
    {
        TransactionOptions {
            input_address: input_address.to_owned(),
            output_address: output_address.to_owned(),
            signature: String::new(),
            public_key: String::new(),
            amount: Amount::zero(),
            fee: Amount::zero(),
        }
    }

    /// Set the issuer's public key.
    pub fn public_key(self, pubkey: &str) -> (r: Self)
        ensures
            r.public_key@ == pubkey@,
            r.input_address@ == self.input_address@,
            r.output_address@ == self.output_address@,
            r.signature@ == self.signature@,
            r.amount == self.amount,
            r.fee == self.fee,
    {
        let mut o = self;
        o.public_key = pubkey.to_owned();
        o
    }

    /// Set the issuer's signature.
    pub fn signature(self, signature: &str) -> (r: Self)
        ensures
            r.signature@ == signature@,
            r.input_address@ == self.input_address@,
            r.output_address@ == self.output_address@,
            r.public_key@ == self.public_key@,
            r.amount == self.amount,
            r.fee == self.fee,
    {
        let mut o = self;
        o.signature = signature.to_owned();
        o
    }

    /// Set the amount to move.
    pub fn amount(self, amount: Amount) -> (r: Self)
        ensures
            r.amount == amount,
            r.input_address@ == self.input_address@,
            r.output_address@ == self.output_address@,
            r.signature@ == self.signature@,
            r.public_key@ == self.public_key@,
            r.fee == self.fee,
    {
        let mut o = self;
        o.amount = amount;
        o
    }

    /// Set the fee kept by the node.
    pub fn fee(self, fee: Amount) -> (r: Self)
        ensures
            r.fee == fee,
            r.input_address@ == self.input_address@,
            r.output_address@ == self.output_address@,
            r.signature@ == self.signature@,
            r.public_key@ == self.public_key@,
            r.amount == self.amount,
    {
        let mut o = self;
        o.fee = fee;
        o
    }
}

/// The scale an amount difference carries: the coarser of the two.
pub open spec fn spec_out_scale(amount: Amount, fee: Amount) -> u32 {
    if amount.scale >= fee.scale {
        amount.scale
    } else {
        fee.scale
    }
}

/// The amount the receiving output carries: zero for a wallet
/// announcement, else the amount less the fee, at the coarser scale.
pub open spec fn spec_output_amount(amount: Amount, fee: Amount) -> Amount {
    if amount_units(amount) == 0 {
        Amount { mantissa: 0 as i128, scale: 0 as u32 }
    } else {
        Amount {
            mantissa: ((amount_units(amount) - amount_units(fee)) / pow10(
                (18 - spec_out_scale(amount, fee)) as nat,
            )) as i128,
            scale: spec_out_scale(amount, fee),
        }
    }
}

/// The input list of the transaction the node builds.
pub open spec fn spec_admission_inputs(input_address: Seq<char>, amount: Amount) -> Seq<
    EntryView,
> {
    seq![EntryView { address: input_address, amount }]
}

/// The output list of the transaction the node builds: the paid output,
/// then the fee to the host wallet.
pub open spec fn spec_admission_outputs(
    output_address: Seq<char>,
    amount: Amount,
    fee: Amount,
    wallet: Wallet,
) -> Seq<EntryView> {
    seq![
        EntryView { address: output_address, amount: spec_output_amount(amount, fee) },
        EntryView { address: wallet.address@, amount: fee },
    ]
}

/// The digest the issuer must have signed: the SHA-256 of the transaction
/// the node builds from the request.
pub open spec fn spec_admission_digest(
    input_address: Seq<char>,
    output_address: Seq<char>,
    amount: Amount,
    fee: Amount,
    wallet: Wallet,
) -> Seq<u8> {
    sha256_of(
        tx_digest_bytes_v(
            spec_admission_inputs(input_address, amount),
            spec_admission_outputs(output_address, amount, fee, wallet),
        ),
    )
}

/// Whether a request passes every admission stage: the chain scan is clean
/// and in range, the paying wallet exists and covers a non-negative
/// amount, the receiving wallet exists, the net output is not negative,
/// and the signature verifies over the digest of the transaction the node
/// builds.
pub open spec fn admission_grants(
    c: Chain,
    w: Wallet,
    input_address: Seq<char>,
    output_address: Seq<char>,
    amount: Amount,
    fee: Amount,
    signature: Seq<char>,
    public_key: Seq<char>,
) -> bool {
    &&& scan_clean(c)
    &&& wallet_sum(c, input_address, 0) <= pow10(36)
    &&& amount_units(amount) >= 0
    &&& wallet_found(c, input_address, 0)
    &&& wallet_sum(c, input_address, 0) >= amount_units(amount)
    &&& wallet_found(c, output_address, 0)
    &&& (amount_units(amount) == 0 || amount_units(amount) >= amount_units(fee))
    &&& secp_pk_parses(public_key)
    &&& secp_sig_parses(signature)
    &&& secp_verify_ok(
        spec_admission_digest(input_address, output_address, amount, fee, w),
        signature,
        public_key,
    )
}

/// The admission pipeline.
pub struct TransactionHelper;

impl TransactionHelper {
    /// Admit a transaction request: check the amount, the paying wallet's
    /// balance, the receiving wallet, build the transaction with the node's
    /// fee output, and verify the signature over its digest. A request
    /// whose fee exceeds a positive amount would need a negative output,
    /// which the data model keeps out; it is rejected as an invalid
    /// signature, since no signature can cover such a transaction's digest.
    #[verifier::rlimit(100)]
    #[verifier::spinoff_prover]
    pub fn create_transaction(
        opts: TransactionOptions,
        wallet: &Wallet,
        blockchain: &mut Chain,
    ) -> (r: Result<Transaction, TransactionRejected>)
        requires
            wallet_wf(*wallet),
            amount_wf(opts.amount),
            amount_wf(opts.fee),
            amount_units(opts.fee) >= 0,
        ensures
            amount_units(opts.amount) < 0 ==> *final(blockchain) == *old(blockchain) && (
            r matches Err(e) && e is InsufficientBalance),
            scan_clean(*old(blockchain)) && wallet_sum(*old(blockchain), opts.input_address@, 0)
                <= pow10(36) && amount_units(opts.amount) >= 0 && !wallet_found(
                *old(blockchain),
                opts.input_address@,
                0,
            ) ==> *final(blockchain) == *old(blockchain) && (r matches Err(e)
                && e is InputWalletNotFound),
            scan_clean(*old(blockchain)) && wallet_sum(*old(blockchain), opts.input_address@, 0)
                <= pow10(36) && amount_units(opts.amount) >= 0 && wallet_found(
                *old(blockchain),
                opts.input_address@,
                0,
            ) && wallet_sum(*old(blockchain), opts.input_address@, 0) < amount_units(opts.amount)
                ==> *final(blockchain) == *old(blockchain) && (r matches Err(e)
                && e is InsufficientBalance),
            scan_clean(*old(blockchain)) && wallet_sum(*old(blockchain), opts.input_address@, 0)
                <= pow10(36) && amount_units(opts.amount) >= 0 && wallet_found(
                *old(blockchain),
                opts.input_address@,
                0,
            ) && wallet_sum(*old(blockchain), opts.input_address@, 0) >= amount_units(opts.amount)
                && !wallet_found(*old(blockchain), opts.output_address@, 0) ==> *final(blockchain)
                == *old(blockchain) && (r matches Err(e) && e is OutputWalletNotFound),
            admission_grants(
                *old(blockchain),
                *wallet,
                opts.input_address@,
                opts.output_address@,
                opts.amount,
                opts.fee,
                opts.signature@,
                opts.public_key@,
            ) ==> r is Ok,
            scan_clean(*old(blockchain)) && wallet_sum(*old(blockchain), opts.input_address@, 0)
                <= pow10(36) && amount_units(opts.amount) >= 0 && wallet_found(
                *old(blockchain),
                opts.input_address@,
                0,
            ) && wallet_sum(*old(blockchain), opts.input_address@, 0) >= amount_units(opts.amount)
                && wallet_found(*old(blockchain), opts.output_address@, 0) && (amount_units(
                opts.amount,
            ) == 0 || amount_units(opts.amount) >= amount_units(opts.fee)) ==> r is Ok || (
            r matches Err(e) && (e is InvalidSignature || e is WalletError)),
            scan_clean(*old(blockchain)) ==> *final(blockchain) == *old(blockchain),
            crate::chain::only_corrupt_deleted(*old(blockchain), *final(blockchain)),
            r matches Ok(t) ==> tx_wf(t) && t.version == TransactionVersion::V1 && t.inputs@.len()
                == 1 && t.inputs@[0].address@ == opts.input_address@ && t.inputs@[0].amount
                == opts.amount && t.outputs@.len() == 2 && t.outputs@[0].address@
                == opts.output_address@ && t.outputs@[0].amount == spec_output_amount(
                opts.amount,
                opts.fee,
            ) && t.outputs@[1].address@ == wallet.address@ && t.outputs@[1].amount == opts.fee
                && t.signature@ == opts.signature@,
            r matches Ok(t) ==> sha256_of(tx_digest_bytes(t)) == spec_admission_digest(
                opts.input_address@,
                opts.output_address@,
                opts.amount,
                opts.fee,
                *wallet,
            ) && secp_verify_ok(
                spec_admission_digest(
                    opts.input_address@,
                    opts.output_address@,
                    opts.amount,
                    opts.fee,
                    *wallet,
                ),
                opts.signature@,
                opts.public_key@,
            ) && secp_pk_parses(opts.public_key@) && secp_sig_parses(opts.signature@),
            r matches Err(e) ==> (e is InvalidSignature ==> (amount_units(opts.amount) != 0
                && amount_units(opts.amount) < amount_units(opts.fee)) || !secp_verify_ok(
                spec_admission_digest(
                    opts.input_address@,
                    opts.output_address@,
                    opts.amount,
                    opts.fee,
                    *wallet,
                ),
                opts.signature@,
                opts.public_key@,
            )) && (e is WalletError ==> !(secp_pk_parses(opts.public_key@) && secp_sig_parses(
                opts.signature@,
            ))),
    {
        if opts.amount.is_negative() {
            return Err(TransactionRejected::InsufficientBalance);
        }
        match blockchain.wallet_amount(opts.input_address.as_str()) {
            Err(e) => {
                return Err(TransactionRejected::BlockchainError(e));
            },
            Ok(None) => {
                return Err(TransactionRejected::InputWalletNotFound);
            },
            Ok(Some(balance)) => {
                if balance.lt(&opts.amount) {
                    return Err(TransactionRejected::InsufficientBalance);
                }
            },
        }
        match blockchain.wallet_exists(opts.output_address.as_str()) {
            Err(e) => {
                return Err(TransactionRejected::BlockchainError(e));
            },
            Ok(false) => {
                return Err(TransactionRejected::OutputWalletNotFound);
            },
            Ok(true) => {},
        }
        let output_amount = if opts.amount.is_zero() {
            Amount::zero()
        } else {
            match opts.amount.checked_sub(&opts.fee) {
                Some(a) => a,
                None => {
                    return Err(
                        TransactionRejected::BlockchainError(BlockchainError::AmountOverflow),
                    );
                },
            }
        };
        proof {
            if amount_units(opts.amount) != 0 {
                let sc = spec_out_scale(opts.amount, opts.fee);
                let p = pow10((18 - sc) as nat);
                crate::amount::lemma_pow10_pos((18 - sc) as nat);
                vstd::arithmetic::div_mod::lemma_div_multiples_vanish(
                    output_amount.mantissa as int,
                    p,
                );
                assert(p * (output_amount.mantissa as int) == (output_amount.mantissa as int) * p);
                assert((amount_units(opts.amount) - amount_units(opts.fee)) / p
                    == output_amount.mantissa as int);
            }
            assert(output_amount == spec_output_amount(opts.amount, opts.fee));
        }
        if output_amount.is_negative() {
            // a transaction that would pay out a negative amount cannot have
            // been signed over consistent data, so it is rejected outright
            return Err(TransactionRejected::InvalidSignature);
        }
        let transaction = TransactionBuilder::new(TransactionVersion::V1).input(
            opts.input_address.as_str(),
            opts.amount,
        ).output(opts.output_address.as_str(), output_amount).output(
            wallet.address(),
            opts.fee,
        ).finish(opts.signature.as_str());
        proof {
            assert(transaction.inputs@.len() == 1);
            assert(transaction.inputs@[0] == transaction.inputs@.last());
            assert(transaction.outputs@.len() == 2);
            assert(transaction.outputs@[1] == transaction.outputs@.last());
            assert(tx_wf(transaction)) by {
                assert(forall|i: int|
                    0 <= i < transaction.inputs@.len() ==> #[trigger] transaction.inputs@[i]
                        == transaction.inputs@[0]);
                assert(forall|i: int|
                    0 <= i < transaction.outputs@.len() ==> #[trigger] transaction.outputs@[i]
                        == transaction.outputs@[0] || transaction.outputs@[i]
                        == transaction.outputs@[1]);
            }
        }
        proof {
            crate::merkle::lemma_tx_digest_view(transaction);
            assert(crate::codec::input_views(transaction.inputs@) =~= spec_admission_inputs(
                opts.input_address@,
                opts.amount,
            ));
            assert(crate::codec::output_views(transaction.outputs@) =~= spec_admission_outputs(
                opts.output_address@,
                opts.amount,
                opts.fee,
                *wallet,
            ));
        }
        let digest = transaction.sha256_digest();
        match Wallet::verify(
            digest.as_slice(),
            transaction.signature(),
            opts.public_key.as_str(),
        ) {
            Ok(true) => Ok(transaction),
            Ok(false) => Err(TransactionRejected::InvalidSignature),
            Err(e) => Err(TransactionRejected::WalletError(e)),
        }
    }
}

} // verus!
