//! Wallets.
//!
//! A wallet is a secp256k1 keypair together with the address derived from
//! the public key: `jab` followed by the lowercase hex of
//! `RIPEMD160(SHA256(public_key_hex))`. Signing and verification are ECDSA
//! over a 32-byte SHA-256 digest; the outside crate's results are named and
//! trusted, everything around them is verified.

use crate::hashing::{hex_of, ripemd160, ripemd160_of, sha256, sha256_of};
use std::str::FromStr;
use vstd::prelude::*;
use vstd::string::StrSliceExecFns;
use vstd::string::StringExecFns;
use vstd::string::StringSliceAdditionalSpecFns;

verus! {

#[verifier::external_type_specification]
#[verifier::external_body]
pub struct ExSecpError(secp256k1::Error);

/// Whether a byte string is exactly 32 bytes and a valid secp256k1 secret
/// key; a function of the bytes alone.
pub uninterp spec fn secp_sk_valid(sk: Seq<u8>) -> bool;

/// The lowercase hex of the compressed public key of a valid secret key; a
/// function of the key bytes alone.
pub uninterp spec fn secp_pubkey_of(sk: Seq<u8>) -> Seq<char>;

/// The hex DER signature of a 32-byte digest under a valid secret key.
/// Signing uses an RFC 6979 nonce, so it is a function of its inputs alone.
pub uninterp spec fn secp_sig_of(digest: Seq<u8>, sk: Seq<u8>) -> Seq<char>;

/// Whether a hex string parses as a compressed or uncompressed public key.
pub uninterp spec fn secp_pk_parses(pk: Seq<char>) -> bool;

/// Whether a hex string parses as a DER signature.
pub uninterp spec fn secp_sig_parses(sig: Seq<char>) -> bool;

/// Whether ECDSA verification of `sig` over `digest` succeeds under `pk`; a
/// function of the three alone.
pub uninterp spec fn secp_verify_ok(digest: Seq<u8>, sig: Seq<char>, pk: Seq<char>) -> bool;

/// Relies on `secp256k1::generate_keypair` with the crate's own randomness:
/// the two keys of a fresh pair correspond, the secret key is valid, and
/// the public key's hex form re-parses (`Display` writes the compressed
/// key's hex, which `PublicKey::from_str` reads back).
#[verifier::external_body]
fn secp_generate() -> (r: (Vec<u8>, String))
    ensures
        r.0@.len() == 32,
        secp_sk_valid(r.0@),
        r.1@ == secp_pubkey_of(r.0@),
        secp_pk_parses(r.1@),
{
    let (sk, pk) = secp256k1::generate_keypair(&mut secp256k1::rand::rng());
    (sk.to_secret_bytes().to_vec(), pk.to_string())
}

/// Relies on `secp256k1::SecretKey::from_secret_bytes`, which accepts exactly
/// the valid secret keys, and on `PublicKey::from_secret_key` with the
/// lowercase-hex `Display` of the result, which `PublicKey::from_str`
/// reads back.
#[verifier::external_body]
fn secp_public_key_of(sk: &[u8]) -> (r: Result<String, secp256k1::Error>)
    ensures
        r matches Ok(s) ==> s@ == secp_pubkey_of(sk@),
        r matches Ok(s) ==> secp_pk_parses(s@),
        r is Ok <==> secp_sk_valid(sk@),
        r is Ok ==> sk@.len() == 32,
{
    let k: [u8; 32] = match sk.try_into() {
        Ok(a) => a,
        Err(_) => return Err(secp256k1::Error::InvalidSecretKey),
    };
    let secret = secp256k1::SecretKey::from_secret_bytes(k)?;
    Ok(secp256k1::PublicKey::from_secret_key(&secret).to_string())
}

/// Relies on `secp256k1::ecdsa::sign` over a 32-byte digest: signing uses an
/// RFC 6979 nonce, and the fresh signature verifies under the signer's
/// public key, as the crate documents.
#[verifier::external_body]
fn secp_sign(digest: &[u8], sk: &[u8]) -> (r: Result<String, secp256k1::Error>)
    ensures
        r matches Ok(s) ==> s@ == secp_sig_of(digest@, sk@),
        r matches Ok(s) ==> secp_sig_parses(s@),
        r matches Ok(s) ==> secp_verify_ok(digest@, s@, secp_pubkey_of(sk@)),
        r is Ok ==> digest@.len() == 32,
        r is Ok ==> secp_sk_valid(sk@),
        r is Err ==> digest@.len() != 32 || !secp_sk_valid(sk@),
{
    let d: [u8; 32] = match digest.try_into() {
        Ok(a) => a,
        Err(_) => return Err(secp256k1::Error::InvalidMessage),
    };
    let k: [u8; 32] = match sk.try_into() {
        Ok(a) => a,
        Err(_) => return Err(secp256k1::Error::InvalidSecretKey),
    };
    let secret = secp256k1::SecretKey::from_secret_bytes(k)?;
    Ok(secp256k1::ecdsa::sign(secp256k1::Message::from_digest(d), &secret).to_string())
}

/// Relies on `secp256k1::ecdsa::verify`, with the public key and signature
/// read from their hex forms by the crate's own parsers.
#[verifier::external_body]
fn secp_verify(digest: &[u8], signature: &str, pubkey: &str) -> (r: Result<bool, secp256k1::Error>)
    ensures
        r matches Ok(b) ==> b == secp_verify_ok(digest@, signature@, pubkey@),
        r is Ok ==> secp_pk_parses(pubkey@),
        r is Ok ==> digest@.len() == 32,
        r is Ok ==> secp_sig_parses(signature@),
        r is Err ==> !secp_pk_parses(pubkey@) || digest@.len() != 32 || !secp_sig_parses(signature@),
{
    let pk = match secp256k1::PublicKey::from_str(pubkey) {
        Ok(k) => k,
        Err(e) => return Err(e),
    };
    let d: [u8; 32] = match digest.try_into() {
        Ok(a) => a,
        Err(_) => return Err(secp256k1::Error::InvalidMessage),
    };
    let sig = match secp256k1::ecdsa::Signature::from_str(signature) {
        Ok(s) => s,
        Err(e) => return Err(e),
    };
    Ok(secp256k1::ecdsa::verify(&sig, secp256k1::Message::from_digest(d), &pk).is_ok())
}

/// An error of the wallet: the underlying crypto crate rejected an input.
#[derive(Debug)]
pub enum WalletError {
    Secp256k1(secp256k1::Error),
}

/// The address derived from a public key string: `jab` followed by the
/// lowercase hex of `RIPEMD160(SHA256(utf8(pk)))`.
pub open spec fn spec_address_of(pk: Seq<char>) -> Seq<char> {
    seq!['j', 'a', 'b'] + hex_of(ripemd160_of(sha256_of(vstd::utf8::encode_utf8(pk))))
}

/// A wallet: secret key, public key and derived address.
pub struct Wallet {
    pub address: String,
    pub public_key: String,
    pub secret_key: Vec<u8>,
}

/// A wallet is well formed when its parts cohere: the secret key is valid,
/// the public key is the one derived from it, and the address is the one
/// derived from the public key.
pub open spec fn wallet_wf(w: Wallet) -> bool {
    &&& w.secret_key@.len() == 32
    &&& secp_sk_valid(w.secret_key@)
    &&& w.public_key@ == secp_pubkey_of(w.secret_key@)
    &&& secp_pk_parses(w.public_key@)
    &&& w.address@ == spec_address_of(w.public_key@)
}

/// Compute the address of a public key string.
fn calc_address(pubkey: &str) -> (r: String)
    ensures
        r@ == spec_address_of(pubkey@),
{
    let pk_bytes = pubkey.as_bytes_vec();
    let sha = sha256(pk_bytes.as_slice());
    let ripe = ripemd160(sha.as_slice());
    let mut out = String::new();
    out.append("jab");
    proof {
        reveal_strlit("jab");
        assert(out@ =~= seq!['j', 'a', 'b']);
    }
    let tail = crate::hashing::to_hex(ripe.as_slice());
    out.append(tail.as_str());
    proof {
        assert(out@ =~= spec_address_of(pubkey@));
    }
    out
}

impl Wallet {
    /// Generate a fresh wallet from a new random keypair.
    pub fn new() -> (r: Self)
        ensures
            wallet_wf(r),
    {
        let (secret_key, public_key) = secp_generate();
        let address = calc_address(public_key.as_str());
        Wallet { address, public_key, secret_key }
    }

    /// Rebuild a wallet from its 32 secret-key bytes; fails exactly when the
    /// bytes are not a valid secret key.
    pub fn from_secret_bytes(data: &[u8]) -> (r: Result<Self, WalletError>)
        ensures
            match r {
                Ok(w) => wallet_wf(w) && w.secret_key@ == data@ && secp_sk_valid(data@),
                Err(_) => !secp_sk_valid(data@),
            },
    {
        match secp_public_key_of(data) {
            Ok(public_key) => {
                let address = calc_address(public_key.as_str());
                let mut secret_key: Vec<u8> = Vec::new();
                let mut i: usize = 0;
                while i < data.len()
                    invariant
                        i <= data@.len(),
                        secret_key@ == data@.subrange(0, i as int),
                    decreases data@.len() - i,
                {
                    secret_key.push(data[i]);
                    proof {
                        assert(secret_key@ =~= data@.subrange(0, i as int + 1));
                    }
                    i += 1;
                }
                proof {
                    assert(secret_key@ =~= data@);
                    // a valid key has 32 bytes, so the copied bytes are 32
                }
                Ok(Wallet { address, public_key, secret_key })
            },
            Err(e) => Err(WalletError::Secp256k1(e)),
        }
    }

    /// The public key as its lowercase hex string.
    pub fn public_key(&self) -> (r: String)
        ensures
            r@ == self.public_key@,
    {
        self.public_key.clone()
    }

    /// The 32 secret-key bytes.
    pub fn secret_key(&self) -> (r: Vec<u8>)
        ensures
            r@ == self.secret_key@,
    {
        let mut out: Vec<u8> = Vec::new();
        let mut i: usize = 0;
        while i < self.secret_key.len()
            invariant
                i <= self.secret_key@.len(),
                out@ == self.secret_key@.subrange(0, i as int),
            decreases self.secret_key@.len() - i,
        {
            out.push(self.secret_key[i]);
            proof {
                assert(out@ =~= self.secret_key@.subrange(0, i as int + 1));
            }
            i += 1;
        }
        proof {
            assert(out@ =~= self.secret_key@);
        }
        out
    }

    /// The wallet address.
    pub fn address(&self) -> (r: &str)
        ensures
            r@ == self.address@,
    {
        self.address.as_str()
    }

    /// Whether `signature` is a valid ECDSA signature of the 32-byte digest
    /// `message` under `pubkey`. `Ok(false)` means cryptographically
    /// invalid; an error means one of the inputs did not parse.
    pub fn verify(message: &[u8], signature: &str, pubkey: &str) -> (r: Result<bool, WalletError>)
        ensures
            match r {
                Ok(b) => {
                    &&& secp_pk_parses(pubkey@)
                    &&& message@.len() == 32
                    &&& secp_sig_parses(signature@)
                    &&& b == secp_verify_ok(message@, signature@, pubkey@)
                },
                Err(_) => !(secp_pk_parses(pubkey@) && message@.len() == 32 && secp_sig_parses(
                    signature@,
                )),
            },
    {
        match secp_verify(message, signature, pubkey) {
            Ok(b) => Ok(b),
            Err(e) => Err(WalletError::Secp256k1(e)),
        }
    }

    /// Sign a 32-byte digest. The signature is the deterministic ECDSA
    /// signature under this wallet's key, and it verifies under this
    /// wallet's public key. Fails exactly when the digest is not 32 bytes.
    pub fn sign(&self, message: &[u8]) -> (r: Result<String, WalletError>)
        requires
            wallet_wf(*self),
        ensures
            match r {
                Ok(s) => {
                    &&& message@.len() == 32
                    &&& s@ == secp_sig_of(message@, self.secret_key@)
                    &&& secp_sig_parses(s@)
                    &&& secp_verify_ok(message@, s@, self.public_key@)
                },
                Err(_) => message@.len() != 32,
            },
    {
        match secp_sign(message, self.secret_key.as_slice()) {
            Ok(s) => Ok(s),
            Err(e) => Err(WalletError::Secp256k1(e)),
        }
    }
}

impl Default for Wallet {
    /// A fresh random wallet.
    fn default() -> (r: Self)
        ensures
            wallet_wf(r),
    {
        Wallet::new()
    }
}

/// Wallets over the same secret key agree on public key and address: a
/// wallet rebuilt from `secret_key()` reproduces both.
pub proof fn lemma_wallet_key_round_trip(w: Wallet, r: Wallet)
    requires
        wallet_wf(w),
        wallet_wf(r),
        r.secret_key@ == w.secret_key@,
    ensures
        r.public_key@ == w.public_key@,
        r.address@ == w.address@,
{
}

} // verus!
