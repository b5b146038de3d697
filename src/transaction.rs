use crate::codec::{decimal, decimal_text, lemma_hex_round_trip};
use crate::error::{CryptoError, LedgerError};
use crate::utils::{
    ecdsa_verifies, public_der_of, public_key_der, sha256_hex, signature_der, signed_by, SigningKey, Utils,
};
use vstd::prelude::*;
use vstd::string::StringExecFns;

verus! {

/// The text whose digest identifies a transfer: nonce, sender, receiver, amount.
pub open spec fn tx_preimage(nonce: u64, sender: Seq<char>, receiver: Seq<char>, amount: u64) -> Seq<char> {
    decimal_text(nonce as nat) + sender + receiver + decimal_text(amount as nat)
}

/// The hash that a transfer with these fields must carry.
pub open spec fn tx_hash(nonce: u64, sender: Seq<char>, receiver: Seq<char>, amount: u64) -> Seq<char> {
    sha256_hex(tx_preimage(nonce, sender, receiver, amount))
}

/// A transfer of `amount` from `sender` to `receiver`, both named by the base64
/// DER of their public key. `signature` is the hex DER of the sender's signature
/// over the text of `hash`.
#[derive(Clone, Debug)]
pub struct Transaction {
    pub nonce: u64,
    pub amount: u64,
    pub sender: String,
    pub receiver: String,
    pub hash: String,
    pub signature: Option<String>,
}

impl Transaction {
    /// The stored hash is the digest of the fields.
    pub open spec fn hash_ok(&self) -> bool {
        self.hash@ == tx_hash(self.nonce, self.sender@, self.receiver@, self.amount)
    }

    /// The stored signature verifies over the hash under the sender's key.
    pub open spec fn signature_ok(&self) -> bool {
        match self.signature {
            Some(s) => signed_by(self.hash@, s@, self.sender@),
            None => false,
        }
    }

    /// What `verify` checks.
    pub open spec fn valid(&self) -> bool {
        self.hash_ok() && self.signature_ok()
    }

    /// Builds a transfer and computes its hash. Both identities must be public
    /// keys, and a signature, if given, must decode.
    pub fn new(
        nonce: u64,
        amount: u64,
        sender: &str,
        receiver: &str,
        signature: Option<&str>,
    ) -> (r: Result<Transaction, CryptoError>)
        ensures
            r is Ok <==> (public_key_der(sender@) is Some && public_key_der(receiver@) is Some
                && match signature {
                Some(s) => signature_der(s@) is Some,
                None => true,
            }),
            r is Err ==> r == Err::<Transaction, CryptoError>(CryptoError::BadEncoding),
            match r {
                Ok(t) => {
                    &&& t.nonce == nonce
                    &&& t.amount == amount
                    &&& t.sender@ == sender@
                    &&& t.receiver@ == receiver@
                    &&& t.hash_ok()
                    &&& match signature {
                        Some(s) => t.signature is Some && t.signature->0@ == s@,
                        None => t.signature is None,
                    }
                },
                Err(_) => true,
            },
    {
        let hash = Transaction::calculate_hash(nonce, sender, receiver, amount);
        if Utils::get_verifying_key(sender).is_err() {
            return Err(CryptoError::BadEncoding);
        }
        if Utils::get_verifying_key(receiver).is_err() {
            return Err(CryptoError::BadEncoding);
        }
        let signature = match signature {
            None => None,
            Some(s) => {
                if Utils::decode_signature(s).is_err() {
                    return Err(CryptoError::BadEncoding);
                }
                Some(s.to_owned())
            },
        };
        Ok(Transaction {
            nonce,
            amount,
            sender: sender.to_owned(),
            receiver: receiver.to_owned(),
            hash,
            signature,
        })
    }

    /// Signs the hash with the sender's private key; refused where a signature
    /// is already there.
    pub fn sign(&mut self, signing_key: &SigningKey) -> (r: Result<(), LedgerError>)
        requires
            signing_key.wf(),
        ensures
            r is Err <==> old(self).signature is Some,
            r is Err ==> r == Err::<(), LedgerError>(LedgerError::AlreadySigned) && *final(self) == *old(self),
            r is Ok ==> {
                &&& final(self).signature is Some
                &&& final(self).nonce == old(self).nonce
                &&& final(self).amount == old(self).amount
                &&& final(self).sender == old(self).sender
                &&& final(self).receiver == old(self).receiver
                &&& final(self).hash == old(self).hash
                &&& signature_der(final(self).signature->0@) is Some
                &&& ecdsa_verifies(
                    public_der_of(signing_key.der()),
                    old(self).hash@,
                    signature_der(final(self).signature->0@)->0,
                )
                &&& public_key_der(old(self).sender@) == Some(public_der_of(signing_key.der()))
                    ==> final(self).signature_ok()
            },
    {
        if self.signature.is_some() {
            return Err(LedgerError::AlreadySigned);
        }
        let sig = Utils::sign_data(self.hash.as_str(), signing_key);
        let text = Utils::encode_signature(&sig);
        proof {
            lemma_hex_round_trip(sig.der());
        }
        self.signature = Some(text);
        Ok(())
    }

    /// Checks the hash against the fields and the signature against the sender.
    pub fn verify(&self) -> (r: bool)
        ensures
            r == self.valid(),
    {
        self.verify_hash() && self.verify_signature()
    }

    fn verify_hash(&self) -> (r: bool)
        ensures
            r == self.hash_ok(),
    {
        let h = Transaction::calculate_hash(self.nonce, self.sender.as_str(), self.receiver.as_str(), self.amount);
        self.hash == h
    }

    fn verify_signature(&self) -> (r: bool)
        ensures
            r == self.signature_ok(),
    {
        match &self.signature {
            None => false,
            Some(s) => Utils::verify_text(self.hash.as_str(), s.as_str(), self.sender.as_str()),
        }
    }

    /// The hash that a transfer with these fields carries.
    pub fn calculate_hash(nonce: u64, sender: &str, receiver: &str, amount: u64) -> (r: String)
        ensures
            r@ == tx_hash(nonce, sender@, receiver@, amount),
    {
        let mut data = decimal(nonce);
        data.append(sender);
        data.append(receiver);
        let a = decimal(amount);
        data.append(a.as_str());
        Utils::hash_data(data.as_str())
    }
}

} // verus!
