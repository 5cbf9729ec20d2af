//! Tombstones: what is kept of a value that was deleted softly.

use crate::bytes::{append, copy_range};
use crate::principal::Principal;
use crate::types::{ByteBuf, EncryptedMapValue};
use vstd::bytes::{
    lemma_auto_spec_u64_to_from_le_bytes, spec_u64_to_le_bytes, u64_from_le_bytes,
    u64_to_le_bytes,
};
use vstd::prelude::*;
use vstd::slice::slice_subrange;

verus! {

/// A value that was deleted softly, with when and by whom.
#[derive(Clone, Debug, PartialEq, Eq)]
pub struct TombstoneEntry {
    /// The value as it was.
    pub value: EncryptedMapValue,
    /// When the value was deleted.
    pub deletion_timestamp: u64,
    /// Who deleted it.
    pub deleted_by: Principal,
    /// Whether the tombstone is marked for permanent deletion.
    pub marked_for_purge: bool,
}

/// A tombstone, with its value as a sequence of bytes.
pub struct TombstoneView {
    pub value: Seq<u8>,
    pub deletion_timestamp: u64,
    pub deleted_by: Principal,
    pub marked_for_purge: bool,
}

impl View for TombstoneEntry {
    type V = TombstoneView;

    open spec fn view(&self) -> TombstoneView {
        TombstoneView {
            value: self.value@,
            deletion_timestamp: self.deletion_timestamp,
            deleted_by: self.deleted_by,
            marked_for_purge: self.marked_for_purge,
        }
    }
}

/// The number of bytes that stand before the value in a stored tombstone.
pub const TOMBSTONE_HEADER_SIZE: usize = 39;

impl TombstoneView {
    /// A tombstone of `value`, made at `now` for `caller`, not marked for
    /// permanent deletion.
    pub open spec fn fresh(value: Seq<u8>, now: u64, caller: Principal) -> TombstoneView {
        TombstoneView {
            value,
            deletion_timestamp: now,
            deleted_by: caller,
            marked_for_purge: false,
        }
    }

    /// The stored form: the time, who deleted, the mark, then the value.
    pub open spec fn encoding(self) -> Seq<u8> {
        spec_u64_to_le_bytes(self.deletion_timestamp) + self.deleted_by.encoding() + seq![
            if self.marked_for_purge {
                1u8
            } else {
                0u8
            },
        ] + self.value
    }

    /// The tombstone whose stored form is `bytes`, if there is one.
    pub open spec fn decoding(bytes: Seq<u8>) -> Option<TombstoneView> {
        if exists|t: TombstoneView| t.encoding() == bytes {
            Some(choose|t: TombstoneView| t.encoding() == bytes)
        } else {
            None
        }
    }

    /// Where each part of a tombstone stands in its stored form.
    pub proof fn lemma_layout(self)
        ensures
            self.encoding().len() == TOMBSTONE_HEADER_SIZE + self.value.len(),
            self.encoding().subrange(0, 8) == spec_u64_to_le_bytes(self.deletion_timestamp),
            self.encoding().subrange(8, 38) == self.deleted_by.encoding(),
            self.encoding()[38] == (if self.marked_for_purge {
                1u8
            } else {
                0u8
            }),
            self.encoding().subrange(39, self.encoding().len() as int) == self.value,
    {
        lemma_auto_spec_u64_to_from_le_bytes();
        self.deleted_by.lemma_encoding_len();
        let enc = self.encoding();
        assert(enc.subrange(0, 8) =~= spec_u64_to_le_bytes(self.deletion_timestamp));
        assert(enc.subrange(8, 38) =~= self.deleted_by.encoding());
        assert(enc.subrange(39, enc.len() as int) =~= self.value);
    }

    /// Two tombstones with the same stored form are the same tombstone.
    pub proof fn lemma_encoding_injective(self, other: TombstoneView)
        requires
            self.encoding() == other.encoding(),
        ensures
            self == other,
    {
        self.lemma_layout();
        other.lemma_layout();
        lemma_auto_spec_u64_to_from_le_bytes();
        self.deleted_by.lemma_encoding_injective(other.deleted_by);
    }

    /// What is stored for a tombstone reads back as the tombstone.
    pub proof fn lemma_decoding_of_encoding(self)
        ensures
            TombstoneView::decoding(self.encoding()) == Some(self),
    {
        let found = choose|t: TombstoneView| t.encoding() == self.encoding();
        found.lemma_encoding_injective(self);
    }
}

impl TombstoneEntry {
    /// The bytes under which the tombstone is stored.
    pub fn to_bytes(&self) -> (bytes: Vec<u8>)
        ensures
            bytes@ == self@.encoding(),
    {
        let mut bytes = u64_to_le_bytes(self.deletion_timestamp);
        self.deleted_by.encode(&mut bytes);
        bytes.push(
            if self.marked_for_purge {
                1u8
            } else {
                0u8
            },
        );
        append(&mut bytes, self.value.as_slice());
        proof {
            assert(bytes@ =~= self@.encoding());
        }
        bytes
    }

    /// The tombstone that `bytes` stores, if they are the stored form of one.
    pub fn from_bytes(bytes: &[u8]) -> (entry: Option<TombstoneEntry>)
        ensures
            match entry {
                Some(e) => TombstoneView::decoding(bytes@) == Some(e@),
                None => TombstoneView::decoding(bytes@).is_none(),
            },
    {
        let n: usize = bytes.len();
        proof {
            assert forall|t: TombstoneView| t.encoding() == bytes@ implies n >= 39 && bytes@[38]
                <= 1 by {
                t.lemma_layout();
            }
        }
        if n < TOMBSTONE_HEADER_SIZE {
            return None;
        }
        let mark = bytes[38];
        if mark > 1 {
            return None;
        }
        let deletion_timestamp = u64_from_le_bytes(slice_subrange(bytes, 0, 8));
        let deleted_by = Principal::decode(bytes, 8);
        let value = ByteBuf::from_vec(copy_range(bytes, 39, n));
        let entry = TombstoneEntry {
            value,
            deletion_timestamp,
            deleted_by,
            marked_for_purge: mark == 1,
        };
        proof {
            lemma_auto_spec_u64_to_from_le_bytes();
            deleted_by.lemma_encoding_len();
            assert(bytes@.subrange(0, 8).len() == 8);
            assert(entry@.encoding() =~= bytes@);
            entry@.lemma_decoding_of_encoding();
        }
        Some(entry)
    }
}

} // verus!
