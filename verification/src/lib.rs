//! Access control and key derivation for shared secrets on the Internet
//! Computer.
//!
//! A [`key_manager::KeyManager`] decides who may read, write and manage a key,
//! keeps the grants and an audit log in stable memory, and builds the requests
//! that ask the key-derivation oracle for a key. The
//! [`encrypted_maps::EncryptedMaps`] keep named maps of encrypted values on
//! top of it, with soft deletion and restoring.
//!
//! Every operation is given the caller and the current time. What an
//! operation returns and how it changes the state is stated over
//! [`model::KeyManagerState`] and [`model::EncryptedMapsState`]; what holds of
//! every state is proved in [`laws`]. The stable structures themselves are
//! taken for granted, under the contracts of [`stable`].

pub mod access_rights;
pub mod audit;
pub mod audit_codec;
pub mod bytes;
pub mod encrypted_maps;
pub mod key_manager;
pub mod keys;
pub mod laws;
pub mod memory;
pub mod model;
pub mod principal;
pub mod scan;
pub mod stable;
pub mod tables;
pub mod tombstone;
pub mod types;
pub mod vetkd_api_types;
