//! What is sent to the key-derivation oracle, and what comes back.

use crate::principal::Principal;
use vstd::prelude::*;

verus! {

/// The curves on which the oracle derives keys.
#[derive(Clone, Copy, Debug, PartialEq, Eq, Structural)]
pub enum VetKDCurve {
    Bls12_381,
}

/// The master key from which the oracle derives.
#[derive(Clone, Debug, PartialEq, Eq)]
pub struct VetKDKeyId {
    pub curve: VetKDCurve,
    pub name: String,
}

/// The request for the verification key.
#[derive(Clone, Debug, PartialEq, Eq)]
pub struct VetKDPublicKeyRequest {
    pub canister_id: Option<Principal>,
    pub derivation_path: Vec<Vec<u8>>,
    pub key_id: VetKDKeyId,
}

/// The oracle's answer to a request for the verification key.
#[derive(Clone, Debug, PartialEq, Eq)]
pub struct VetKDPublicKeyReply {
    pub public_key: Vec<u8>,
}

/// The request for a derived key, encrypted under a transport key.
#[derive(Clone, Debug, PartialEq, Eq)]
pub struct VetKDEncryptedKeyRequest {
    pub public_key_derivation_path: Vec<Vec<u8>>,
    pub derivation_id: Vec<u8>,
    pub key_id: VetKDKeyId,
    pub encryption_public_key: Vec<u8>,
}

/// The oracle's answer to a request for a derived key.
#[derive(Clone, Debug, PartialEq, Eq)]
pub struct VetKDEncryptedKeyReply {
    pub encrypted_key: Vec<u8>,
}

} // verus!
