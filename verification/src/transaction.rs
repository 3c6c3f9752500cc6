//! Transactions.
//!
//! A transaction moves amounts from input addresses to output addresses and
//! carries an ECDSA signature over the SHA-256 digest of its version,
//! inputs and outputs. Amounts on inputs and outputs are non-negative; a
//! zero-amount transaction announces a wallet.

use crate::amount::{amount_chars, amount_units, amount_wf, pow10, Amount};
use crate::hashing::{sha256, sha256_of};
use crate::wallet::{secp_sig_of, secp_verify_ok, wallet_wf, Wallet, WalletError};
use vstd::prelude::*;
use vstd::string::StringExecFns;

verus! {

/// The transaction format version.
#[derive(Debug, Clone, Copy, PartialEq, Eq, Structural)]
pub enum TransactionVersion {
    V1,
}

/// An input: the address that spends, and how much.
#[derive(Debug, PartialEq, Eq)]
pub struct UnlockInput {
    pub address: String,
    pub amount: Amount,
}

impl Clone for UnlockInput {
    fn clone(&self) -> (r: Self)
        ensures
            r == *self,
    {
        UnlockInput { address: self.address.clone(), amount: self.amount }
    }
}

impl UnlockInput {
    /// Make an input from its parts.
    pub fn new(address: &str, amount: Amount) -> (r: Self)
        ensures
            r.address@ == address@,
            r.amount == amount,
    {
        UnlockInput { address: address.to_owned(), amount }
    }
}

/// An output: the address that receives, and how much.
#[derive(Debug, PartialEq, Eq)]
pub struct LockOutput {
    pub address: String,
    pub amount: Amount,
}

impl Clone for LockOutput {
    fn clone(&self) -> (r: Self)
        ensures
            r == *self,
    {
        LockOutput { address: self.address.clone(), amount: self.amount }
    }
}

impl LockOutput {
    /// Make an output from its parts.
    pub fn new(address: &str, amount: Amount) -> (r: Self)
        ensures
            r.address@ == address@,
            r.amount == amount,
    {
        LockOutput { address: address.to_owned(), amount }
    }
}

/// An input is well formed when its amount is, and is not negative.
pub open spec fn input_wf(i: UnlockInput) -> bool {
    amount_wf(i.amount) && amount_units(i.amount) >= 0
}

/// An output is well formed when its amount is, and is not negative.
pub open spec fn output_wf(o: LockOutput) -> bool {
    amount_wf(o.amount) && amount_units(o.amount) >= 0
}

pub open spec fn inputs_wf(s: Seq<UnlockInput>) -> bool {
    forall|i: int| 0 <= i < s.len() ==> input_wf(#[trigger] s[i])
}

pub open spec fn outputs_wf(s: Seq<LockOutput>) -> bool {
    forall|i: int| 0 <= i < s.len() ==> output_wf(#[trigger] s[i])
}

/// A transaction.
#[derive(Debug, PartialEq, Eq)]
pub struct Transaction {
    pub version: TransactionVersion,
    pub inputs: Vec<UnlockInput>,
    pub outputs: Vec<LockOutput>,
    pub signature: String,
}

impl Clone for Transaction {
    fn clone(&self) -> (r: Self)
        ensures
            tx_same(r, *self),
    {
        let mut inputs: Vec<UnlockInput> = Vec::new();
        let mut i: usize = 0;
        while i < self.inputs.len()
            invariant
                i <= self.inputs@.len(),
                inputs@ == self.inputs@.subrange(0, i as int),
            decreases self.inputs@.len() - i,
        {
            inputs.push(self.inputs[i].clone());
            proof {
                assert(inputs@ =~= self.inputs@.subrange(0, i as int + 1));
            }
            i += 1;
        }
        let mut outputs: Vec<LockOutput> = Vec::new();
        let mut j: usize = 0;
        while j < self.outputs.len()
            invariant
                j <= self.outputs@.len(),
                outputs@ == self.outputs@.subrange(0, j as int),
            decreases self.outputs@.len() - j,
        {
            outputs.push(self.outputs[j].clone());
            proof {
                assert(outputs@ =~= self.outputs@.subrange(0, j as int + 1));
            }
            j += 1;
        }
        proof {
            assert(inputs@ =~= self.inputs@);
            assert(outputs@ =~= self.outputs@);
        }
        Transaction { version: self.version, inputs, outputs, signature: self.signature.clone() }
    }
}

/// Whether two transactions hold the same data, field by field.
pub open spec fn tx_same(a: Transaction, b: Transaction) -> bool {
    &&& a.version == b.version
    &&& a.inputs@ == b.inputs@
    &&& a.outputs@ == b.outputs@
    &&& a.signature@ == b.signature@
}

/// A transaction is well formed when every input and output is.
pub open spec fn tx_wf(t: Transaction) -> bool {
    inputs_wf(t.inputs@) && outputs_wf(t.outputs@)
}

/// Everything the inputs spend from `addr`, negated: zero or less.
pub open spec fn spec_amount_spent(inputs: Seq<UnlockInput>, addr: Seq<char>) -> int
    decreases inputs.len(),
{
    if inputs.len() == 0 {
        0
    } else {
        spec_amount_spent(inputs.drop_last(), addr) - (if inputs.last().address@ == addr {
            amount_units(inputs.last().amount)
        } else {
            0
        })
    }
}

/// Everything the outputs pay to `addr`: zero or more.
pub open spec fn spec_amount_received(outputs: Seq<LockOutput>, addr: Seq<char>) -> int
    decreases outputs.len(),
{
    if outputs.len() == 0 {
        0
    } else {
        spec_amount_received(outputs.drop_last(), addr) + (if outputs.last().address@ == addr {
            amount_units(outputs.last().amount)
        } else {
            0
        })
    }
}

/// With well-formed inputs, the spent sum never rises above zero.
pub proof fn lemma_spent_nonpos(inputs: Seq<UnlockInput>, addr: Seq<char>)
    requires
        inputs_wf(inputs),
    ensures
        spec_amount_spent(inputs, addr) <= 0,
    decreases inputs.len(),
{
    if inputs.len() > 0 {
        assert(inputs_wf(inputs.drop_last())) by {
            assert(forall|i: int|
                0 <= i < inputs.drop_last().len() ==> #[trigger] inputs.drop_last()[i]
                    == inputs[i]);
        }
        lemma_spent_nonpos(inputs.drop_last(), addr);
    }
}

/// With well-formed outputs, the received sum never falls below zero.
pub proof fn lemma_received_nonneg(outputs: Seq<LockOutput>, addr: Seq<char>)
    requires
        outputs_wf(outputs),
    ensures
        spec_amount_received(outputs, addr) >= 0,
    decreases outputs.len(),
{
    if outputs.len() > 0 {
        assert(outputs_wf(outputs.drop_last())) by {
            assert(forall|i: int|
                0 <= i < outputs.drop_last().len() ==> #[trigger] outputs.drop_last()[i]
                    == outputs[i]);
        }
        lemma_received_nonneg(outputs.drop_last(), addr);
    }
}

/// The spent sum of a prefix is at least the spent sum of the whole.
proof fn lemma_spent_prefix_ge(inputs: Seq<UnlockInput>, addr: Seq<char>, i: int)
    requires
        inputs_wf(inputs),
        0 <= i <= inputs.len(),
    ensures
        spec_amount_spent(inputs.subrange(0, i), addr) >= spec_amount_spent(inputs, addr),
    decreases inputs.len() - i,
{
    if i == inputs.len() {
        assert(inputs.subrange(0, i) =~= inputs);
    } else {
        lemma_spent_prefix_ge(inputs, addr, i + 1);
        let cur = inputs.subrange(0, i + 1);
        assert(cur.drop_last() =~= inputs.subrange(0, i));
        assert(cur.last() == inputs[i]);
    }
}

/// The received sum of a prefix is at most the received sum of the whole.
proof fn lemma_received_prefix_le(outputs: Seq<LockOutput>, addr: Seq<char>, i: int)
    requires
        outputs_wf(outputs),
        0 <= i <= outputs.len(),
    ensures
        spec_amount_received(outputs.subrange(0, i), addr) <= spec_amount_received(outputs, addr),
    decreases outputs.len() - i,
{
    if i == outputs.len() {
        assert(outputs.subrange(0, i) =~= outputs);
    } else {
        lemma_received_prefix_le(outputs, addr, i + 1);
        let cur = outputs.subrange(0, i + 1);
        assert(cur.drop_last() =~= outputs.subrange(0, i));
        assert(cur.last() == outputs[i]);
    }
}

/// The bytes hashed for one input or output: the address, then the amount's
/// decimal string, both UTF-8.
pub open spec fn entry_bytes(address: Seq<char>, amount: Amount) -> Seq<u8> {
    vstd::utf8::encode_utf8(address) + vstd::utf8::encode_utf8(
        amount_chars(amount.mantissa as int, amount.scale as nat),
    )
}

pub open spec fn inputs_digest_bytes(s: Seq<UnlockInput>) -> Seq<u8>
    decreases s.len(),
{
    if s.len() == 0 {
        Seq::empty()
    } else {
        inputs_digest_bytes(s.drop_last()) + entry_bytes(s.last().address@, s.last().amount)
    }
}

pub open spec fn outputs_digest_bytes(s: Seq<LockOutput>) -> Seq<u8>
    decreases s.len(),
{
    if s.len() == 0 {
        Seq::empty()
    } else {
        outputs_digest_bytes(s.drop_last()) + entry_bytes(s.last().address@, s.last().amount)
    }
}

/// The bytes a transaction is hashed over: the version byte, then every
/// input, then every output. The signature itself is not hashed.
pub open spec fn tx_digest_bytes(t: Transaction) -> Seq<u8> {
    seq![1u8] + inputs_digest_bytes(t.inputs@) + outputs_digest_bytes(t.outputs@)
}

/// Append bytes to a buffer.
pub(crate) fn push_bytes(out: &mut Vec<u8>, data: &[u8])
    ensures
        final(out)@ == old(out)@ + data@,
{
    let mut i: usize = 0;
    while i < data.len()
        invariant
            i <= data@.len(),
            out@ == old(out)@ + data@.subrange(0, i as int),
        decreases data@.len() - i,
    {
        out.push(data[i]);
        proof {
            assert(old(out)@ + data@.subrange(0, i as int + 1) =~= (old(out)@ + data@.subrange(
                0,
                i as int,
            )).push(data@[i as int]));
        }
        i += 1;
    }
    proof {
        assert(data@.subrange(0, data@.len() as int) =~= data@);
    }
}

impl Transaction {
    /// Add an input.
    pub fn input(self, addr: &str, amount: Amount) -> (r: Self)
        ensures
            r.inputs@.len() == self.inputs@.len() + 1,
            r.inputs@.subrange(0, self.inputs@.len() as int) == self.inputs@,
            r.inputs@.last().address@ == addr@,
            r.inputs@.last().amount == amount,
            r.outputs@ == self.outputs@,
            r.version == self.version,
            r.signature@ == self.signature@,
    {
        let mut t = self;
        t.inputs.push(UnlockInput::new(addr, amount));
        proof {
            assert(t.inputs@.subrange(0, self.inputs@.len() as int) =~= self.inputs@);
        }
        t
    }

    /// Add an output.
    pub fn output(self, addr: &str, amount: Amount) -> (r: Self)
        ensures
            r.outputs@.len() == self.outputs@.len() + 1,
            r.outputs@.subrange(0, self.outputs@.len() as int) == self.outputs@,
            r.outputs@.last().address@ == addr@,
            r.outputs@.last().amount == amount,
            r.inputs@ == self.inputs@,
            r.version == self.version,
            r.signature@ == self.signature@,
    {
        let mut t = self;
        t.outputs.push(LockOutput::new(addr, amount));
        proof {
            assert(t.outputs@.subrange(0, self.outputs@.len() as int) =~= self.outputs@);
        }
        t
    }

    /// The signature.
    pub fn signature(&self) -> (r: &str)
        ensures
            r@ == self.signature@,
    {
        self.signature.as_str()
    }

    /// The first input's address: the transaction's spender.
    pub fn input_address(&self) -> (r: Option<&str>)
        ensures
            match r {
                Some(a) => self.inputs@.len() > 0 && a@ == self.inputs@[0].address@,
                None => self.inputs@.len() == 0,
            },
    {
        if self.inputs.len() > 0 {
            Some(self.inputs[0].address.as_str())
        } else {
            None
        }
    }

    /// How much `addr` spends in this transaction, negated: zero or less.
    pub fn amount_spent(&self, addr: &str) -> (r: Amount)
        requires
            tx_wf(*self),
            spec_amount_spent(self.inputs@, addr@) >= -pow10(36),
        ensures
            amount_wf(r),
            amount_units(r) == spec_amount_spent(self.inputs@, addr@),
            amount_units(r) <= 0,
    {
        let wanted = addr.to_owned();
        let mut acc = Amount::zero();
        let n = self.inputs.len();
        let mut i: usize = 0;
        proof {
            assert(self.inputs@.subrange(0, 0) =~= Seq::<UnlockInput>::empty());
        }
        while i < n
            invariant
                n == self.inputs@.len(),
                i <= n,
                wanted@ == addr@,
                inputs_wf(self.inputs@),
                spec_amount_spent(self.inputs@, addr@) >= -pow10(36),
                amount_wf(acc),
                amount_units(acc) == spec_amount_spent(self.inputs@.subrange(0, i as int), addr@),
            decreases n - i,
        {
            proof {
                let cur = self.inputs@.subrange(0, i as int + 1);
                assert(cur.drop_last() =~= self.inputs@.subrange(0, i as int));
                assert(cur.last() == self.inputs@[i as int]);
                lemma_spent_prefix_ge(self.inputs@, addr@, i as int + 1);
                assert(inputs_wf(cur)) by {
                    assert(forall|k: int| 0 <= k < cur.len() ==> #[trigger] cur[k]
                        == self.inputs@[k]);
                }
                lemma_spent_nonpos(cur, addr@);
            }
            if self.inputs[i].address == wanted {
                let step = acc.checked_sub(&self.inputs[i].amount);
                proof {
                    assert(step is Some);
                }
                acc = step.unwrap();
            }
            i += 1;
        }
        proof {
            assert(self.inputs@.subrange(0, n as int) =~= self.inputs@);
            lemma_spent_nonpos(self.inputs@, addr@);
        }
        acc
    }

    /// How much `addr` receives in this transaction: zero or more.
    pub fn amount_received(&self, addr: &str) -> (r: Amount)
        requires
            tx_wf(*self),
            spec_amount_received(self.outputs@, addr@) <= pow10(36),
        ensures
            amount_wf(r),
            amount_units(r) == spec_amount_received(self.outputs@, addr@),
            amount_units(r) >= 0,
    {
        let wanted = addr.to_owned();
        let mut acc = Amount::zero();
        let n = self.outputs.len();
        let mut i: usize = 0;
        proof {
            assert(self.outputs@.subrange(0, 0) =~= Seq::<LockOutput>::empty());
        }
        while i < n
            invariant
                n == self.outputs@.len(),
                i <= n,
                wanted@ == addr@,
                outputs_wf(self.outputs@),
                spec_amount_received(self.outputs@, addr@) <= pow10(36),
                amount_wf(acc),
                amount_units(acc) == spec_amount_received(
                    self.outputs@.subrange(0, i as int),
                    addr@,
                ),
            decreases n - i,
        {
            proof {
                let cur = self.outputs@.subrange(0, i as int + 1);
                assert(cur.drop_last() =~= self.outputs@.subrange(0, i as int));
                assert(cur.last() == self.outputs@[i as int]);
                lemma_received_prefix_le(self.outputs@, addr@, i as int + 1);
                assert(outputs_wf(cur)) by {
                    assert(forall|k: int| 0 <= k < cur.len() ==> #[trigger] cur[k]
                        == self.outputs@[k]);
                }
                lemma_received_nonneg(cur, addr@);
            }
            if self.outputs[i].address == wanted {
                let step = acc.checked_add(&self.outputs[i].amount);
                proof {
                    assert(step is Some);
                }
                acc = step.unwrap();
            }
            i += 1;
        }
        proof {
            assert(self.outputs@.subrange(0, n as int) =~= self.outputs@);
            lemma_received_nonneg(self.outputs@, addr@);
        }
        acc
    }

    /// The SHA-256 digest of this transaction's version, inputs and outputs.
    pub fn sha256_digest(&self) -> (r: Vec<u8>)
        requires
            tx_wf(*self),
        ensures
            r@ == sha256_of(tx_digest_bytes(*self)),
            r@.len() == 32,
    {
        let mut bytes: Vec<u8> = Vec::new();
        bytes.push(1u8);
        proof {
            assert(bytes@ =~= seq![1u8]);
            assert(self.inputs@.subrange(0, 0) =~= Seq::<UnlockInput>::empty());
        }
        let n = self.inputs.len();
        let mut i: usize = 0;
        while i < n
            invariant
                n == self.inputs@.len(),
                i <= n,
                inputs_wf(self.inputs@),
                bytes@ == seq![1u8] + inputs_digest_bytes(self.inputs@.subrange(0, i as int)),
            decreases n - i,
        {
            push_bytes(&mut bytes, self.inputs[i].address.as_str().as_bytes());
            let amt = self.inputs[i].amount.to_string();
            push_bytes(&mut bytes, amt.as_str().as_bytes());
            proof {
                let cur = self.inputs@.subrange(0, i as int + 1);
                assert(cur.drop_last() =~= self.inputs@.subrange(0, i as int));
                assert(cur.last() == self.inputs@[i as int]);
                assert(bytes@ =~= seq![1u8] + inputs_digest_bytes(cur));
            }
            i += 1;
        }
        proof {
            assert(self.inputs@.subrange(0, n as int) =~= self.inputs@);
            assert(self.outputs@.subrange(0, 0) =~= Seq::<LockOutput>::empty());
            assert(bytes@ =~= (seq![1u8] + inputs_digest_bytes(self.inputs@))
                + outputs_digest_bytes(self.outputs@.subrange(0, 0)));
        }
        let m = self.outputs.len();
        let mut j: usize = 0;
        while j < m
            invariant
                m == self.outputs@.len(),
                j <= m,
                outputs_wf(self.outputs@),
                bytes@ == (seq![1u8] + inputs_digest_bytes(self.inputs@)) + outputs_digest_bytes(
                    self.outputs@.subrange(0, j as int),
                ),
            decreases m - j,
        {
            push_bytes(&mut bytes, self.outputs[j].address.as_str().as_bytes());
            let amt = self.outputs[j].amount.to_string();
            push_bytes(&mut bytes, amt.as_str().as_bytes());
            proof {
                let cur = self.outputs@.subrange(0, j as int + 1);
                assert(cur.drop_last() =~= self.outputs@.subrange(0, j as int));
                assert(cur.last() == self.outputs@[j as int]);
                assert(bytes@ =~= (seq![1u8] + inputs_digest_bytes(self.inputs@))
                    + outputs_digest_bytes(cur));
            }
            j += 1;
        }
        proof {
            assert(self.outputs@.subrange(0, m as int) =~= self.outputs@);
            assert(bytes@ =~= tx_digest_bytes(*self));
        }
        sha256(bytes.as_slice())
    }
}

/// A builder that composes inputs and outputs and then attaches a
/// signature, either computed with a wallet or supplied from outside.
pub struct TransactionBuilder {
    pub inputs: Vec<UnlockInput>,
    pub outputs: Vec<LockOutput>,
    pub version: TransactionVersion,
}

impl TransactionBuilder {
    /// Start an empty transaction of the given version.
    pub fn new(version: TransactionVersion) -> (r: Self)
        ensures
            r.inputs@ == Seq::<UnlockInput>::empty(),
            r.outputs@ == Seq::<LockOutput>::empty(),
            r.version == version,
    {
        let r = TransactionBuilder { inputs: Vec::new(), outputs: Vec::new(), version };
        proof {
            assert(r.inputs@ =~= Seq::<UnlockInput>::empty());
            assert(r.outputs@ =~= Seq::<LockOutput>::empty());
        }
        r
    }

    /// Add an input.
    pub fn input(self, addr: &str, amount: Amount) -> (r: Self)
        ensures
            r.inputs@.len() == self.inputs@.len() + 1,
            r.inputs@.subrange(0, self.inputs@.len() as int) == self.inputs@,
            r.inputs@.last().address@ == addr@,
            r.inputs@.last().amount == amount,
            r.outputs@ == self.outputs@,
            r.version == self.version,
    {
        let mut b = self;
        b.inputs.push(UnlockInput::new(addr, amount));
        proof {
            assert(b.inputs@.subrange(0, self.inputs@.len() as int) =~= self.inputs@);
        }
        b
    }

    /// Add an output.
    pub fn output(self, addr: &str, amount: Amount) -> (r: Self)
        ensures
            r.outputs@.len() == self.outputs@.len() + 1,
            r.outputs@.subrange(0, self.outputs@.len() as int) == self.outputs@,
            r.outputs@.last().address@ == addr@,
            r.outputs@.last().amount == amount,
            r.inputs@ == self.inputs@,
            r.version == self.version,
    {
        let mut b = self;
        b.outputs.push(LockOutput::new(addr, amount));
        proof {
            assert(b.outputs@.subrange(0, self.outputs@.len() as int) =~= self.outputs@);
        }
        b
    }

    /// Close the transaction with a signature supplied from outside.
    pub fn finish(self, signature: &str) -> (r: Transaction)
        ensures
            r.version == self.version,
            r.inputs@ == self.inputs@,
            r.outputs@ == self.outputs@,
            r.signature@ == signature@,
    {
        Transaction {
            version: self.version,
            inputs: self.inputs,
            outputs: self.outputs,
            signature: signature.to_owned(),
        }
    }

    /// Sign the composed transaction with `wallet` and close it. The
    /// signature is the deterministic ECDSA signature of the transaction's
    /// digest, and verifies under the wallet's public key.
    pub fn sign_with_wallet(self, wallet: &Wallet) -> (r: Result<Transaction, WalletError>)
        requires
            wallet_wf(*wallet),
            inputs_wf(self.inputs@),
            outputs_wf(self.outputs@),
        ensures
            r matches Ok(t) ==> t.version == self.version && t.inputs@ == self.inputs@
                && t.outputs@ == self.outputs@,
            r matches Ok(t) ==> t.signature@ == secp_sig_of(
                sha256_of(tx_digest_bytes(t)),
                wallet.secret_key@,
            ),
            r matches Ok(t) ==> secp_verify_ok(
                sha256_of(tx_digest_bytes(t)),
                t.signature@,
                wallet.public_key@,
            ),
            r is Ok,
    {
        let mut transaction = Transaction {
            version: self.version,
            inputs: self.inputs,
            outputs: self.outputs,
            signature: String::new(),
        };
        let digest = transaction.sha256_digest();
        match wallet.sign(digest.as_slice()) {
            Ok(signature) => {
                let ghost unsigned = transaction;
                transaction.signature = signature;
                proof {
                    assert(tx_digest_bytes(transaction) == tx_digest_bytes(unsigned));
                }
                Ok(transaction)
            },
            Err(e) => Err(e),
        }
    }
}


impl Transaction {
    /// How much `addr` spends, or `None` when the sum leaves the supported
    /// range.
    pub fn amount_spent_checked(&self, addr: &str) -> (r: Option<Amount>)
        requires
            tx_wf(*self),
        ensures
            match r {
                Some(a) => amount_wf(a) && amount_units(a) == spec_amount_spent(
                    self.inputs@,
                    addr@,
                ) && amount_units(a) <= 0,
                None => spec_amount_spent(self.inputs@, addr@) < -pow10(36),
            },
    {
        let wanted = addr.to_owned();
        let mut acc = Amount::zero();
        let n = self.inputs.len();
        let mut i: usize = 0;
        proof {
            assert(self.inputs@.subrange(0, 0) =~= Seq::<UnlockInput>::empty());
        }
        while i < n
            invariant
                n == self.inputs@.len(),
                i <= n,
                wanted@ == addr@,
                inputs_wf(self.inputs@),
                amount_wf(acc),
                amount_units(acc) <= 0,
                amount_units(acc) == spec_amount_spent(self.inputs@.subrange(0, i as int), addr@),
            decreases n - i,
        {
            proof {
                let cur = self.inputs@.subrange(0, i as int + 1);
                assert(cur.drop_last() =~= self.inputs@.subrange(0, i as int));
                assert(cur.last() == self.inputs@[i as int]);
                assert(inputs_wf(cur)) by {
                    assert(forall|k: int| 0 <= k < cur.len() ==> #[trigger] cur[k]
                        == self.inputs@[k]);
                }
                lemma_spent_nonpos(cur, addr@);
                lemma_spent_prefix_ge(self.inputs@, addr@, i as int + 1);
            }
            if self.inputs[i].address == wanted {
                let step = acc.checked_sub(&self.inputs[i].amount);
                match step {
                    Some(a) => {
                        acc = a;
                    },
                    None => {
                        proof {
                            lemma_spent_prefix_ge(self.inputs@, addr@, i as int + 1);
                        }
                        return None;
                    },
                }
            }
            i += 1;
        }
        proof {
            assert(self.inputs@.subrange(0, n as int) =~= self.inputs@);
        }
        Some(acc)
    }

    /// How much `addr` receives, or `None` when the sum leaves the
    /// supported range.
    pub fn amount_received_checked(&self, addr: &str) -> (r: Option<Amount>)
        requires
            tx_wf(*self),
        ensures
            match r {
                Some(a) => amount_wf(a) && amount_units(a) == spec_amount_received(
                    self.outputs@,
                    addr@,
                ) && amount_units(a) >= 0,
                None => spec_amount_received(self.outputs@, addr@) > pow10(36),
            },
    {
        let wanted = addr.to_owned();
        let mut acc = Amount::zero();
        let n = self.outputs.len();
        let mut i: usize = 0;
        proof {
            assert(self.outputs@.subrange(0, 0) =~= Seq::<LockOutput>::empty());
        }
        while i < n
            invariant
                n == self.outputs@.len(),
                i <= n,
                wanted@ == addr@,
                outputs_wf(self.outputs@),
                amount_wf(acc),
                amount_units(acc) >= 0,
                amount_units(acc) == spec_amount_received(
                    self.outputs@.subrange(0, i as int),
                    addr@,
                ),
            decreases n - i,
        {
            proof {
                let cur = self.outputs@.subrange(0, i as int + 1);
                assert(cur.drop_last() =~= self.outputs@.subrange(0, i as int));
                assert(cur.last() == self.outputs@[i as int]);
                assert(outputs_wf(cur)) by {
                    assert(forall|k: int| 0 <= k < cur.len() ==> #[trigger] cur[k]
                        == self.outputs@[k]);
                }
                lemma_received_nonneg(cur, addr@);
                lemma_received_prefix_le(self.outputs@, addr@, i as int + 1);
            }
            if self.outputs[i].address == wanted {
                let step = acc.checked_add(&self.outputs[i].amount);
                match step {
                    Some(a) => {
                        acc = a;
                    },
                    None => {
                        proof {
                            lemma_received_prefix_le(self.outputs@, addr@, i as int + 1);
                        }
                        return None;
                    },
                }
            }
            i += 1;
        }
        proof {
            assert(self.outputs@.subrange(0, n as int) =~= self.outputs@);
        }
        Some(acc)
    }
}


impl Transaction {
    /// Whether this transaction is well formed: every input and output
    /// amount in range and not negative.
    pub fn is_well_formed(&self) -> (r: bool)
        ensures
            r == tx_wf(*self),
    {
        let n = self.inputs.len();
        let mut i: usize = 0;
        while i < n
            invariant
                i <= n,
                n == self.inputs@.len(),
                forall|k: int| 0 <= k < i ==> input_wf(#[trigger] self.inputs@[k]),
            decreases n - i,
        {
            let a = self.inputs[i].amount;
            if !a.is_well_formed() {
                return false;
            }
            if a.is_negative() {
                return false;
            }
            i += 1;
        }
        let m = self.outputs.len();
        let mut j: usize = 0;
        while j < m
            invariant
                j <= m,
                m == self.outputs@.len(),
                inputs_wf(self.inputs@),
                forall|k: int| 0 <= k < j ==> output_wf(#[trigger] self.outputs@[k]),
            decreases m - j,
        {
            let a = self.outputs[j].amount;
            if !a.is_well_formed() {
                return false;
            }
            if a.is_negative() {
                return false;
            }
            j += 1;
        }
        true
    }
}

} // verus!
