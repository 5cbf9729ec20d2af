//! Levels of access, and grants that may be bounded in time.

use crate::bytes::append;
use vstd::bytes::{
    lemma_auto_spec_u64_to_from_le_bytes, spec_u64_from_le_bytes, spec_u64_to_le_bytes,
    u64_from_le_bytes, u64_to_le_bytes,
};
use vstd::prelude::*;
use vstd::slice::slice_subrange;

verus! {

/// What a grant allows.
#[derive(Clone, Copy, Debug, PartialEq, Eq, Structural, PartialOrd, Ord, Hash)]
pub enum Rights {
    Read,
    ReadWrite,
    ReadWriteManage,
}

impl Rights {
    /// The number under which the level is stored.
    pub open spec fn code(self) -> u8 {
        match self {
            Rights::Read => 0,
            Rights::ReadWrite => 1,
            Rights::ReadWriteManage => 2,
        }
    }

    /// The level stored under `code`, if there is one.
    pub open spec fn spec_from_repr(code: u8) -> Option<Rights> {
        if code == 0 {
            Some(Rights::Read)
        } else if code == 1 {
            Some(Rights::ReadWrite)
        } else if code == 2 {
            Some(Rights::ReadWriteManage)
        } else {
            None
        }
    }

    /// The level allows changing values.
    pub open spec fn allows_write(self) -> bool {
        self != Rights::Read
    }

    /// The number under which the level is stored.
    pub fn to_repr(self) -> (code: u8)
        ensures
            code == self.code(),
    {
        match self {
            Rights::Read => 0,
            Rights::ReadWrite => 1,
            Rights::ReadWriteManage => 2,
        }
    }

    /// The level stored under `code`, if there is one.
    pub fn from_repr(code: u8) -> (rights: Option<Rights>)
        ensures
            rights == Rights::spec_from_repr(code),
    {
        if code == 0 {
            Some(Rights::Read)
        } else if code == 1 {
            Some(Rights::ReadWrite)
        } else if code == 2 {
            Some(Rights::ReadWriteManage)
        } else {
            None
        }
    }

    /// Does the level allow changing values?
    pub fn can_write(self) -> (yes: bool)
        ensures
            yes == self.allows_write(),
    {
        match self {
            Rights::Read => false,
            _ => true,
        }
    }
}

/// A grant: a level of access, from `start` on if there is one, and before
/// `end` if there is one.
#[derive(Clone, Copy, Debug, PartialEq, Eq, Structural, PartialOrd, Ord, Hash)]
pub struct AccessRights {
    pub rights: Rights,
    pub start: Option<u64>,
    pub end: Option<u64>,
}

/// The number of bytes under which a grant is stored.
pub const ACCESS_RIGHTS_SIZE: usize = 17;

/// A bound of a time window as it is stored: 0 where there is none.
pub open spec fn bound_word(bound: Option<u64>) -> u64 {
    match bound {
        Some(t) => t,
        None => 0,
    }
}

/// The bound that a stored word stands for: none where it is 0.
pub open spec fn word_bound(word: u64) -> Option<u64> {
    if word != 0 {
        Some(word)
    } else {
        None
    }
}

impl Default for AccessRights {
    fn default() -> (rights: Self)
        ensures
            rights == AccessRights::spec_read_only(),
    {
        AccessRights { rights: Rights::Read, start: None, end: None }
    }
}

impl AccessRights {
    /// The window does not end before it starts.
    pub open spec fn is_valid(self) -> bool {
        match (self.start, self.end) {
            (Some(start), Some(end)) => start <= end,
            _ => true,
        }
    }

    /// The window holds `now`: it has started, and it has not ended. The end
    /// itself is outside.
    pub open spec fn is_live(self, now: u64) -> bool {
        &&& self.start matches Some(start) ==> start <= now
        &&& self.end matches Some(end) ==> now < end
    }

    /// Read access without bounds.
    pub open spec fn spec_read_only() -> AccessRights {
        AccessRights { rights: Rights::Read, start: None, end: None }
    }

    /// Read and write access without bounds.
    pub open spec fn spec_read_write() -> AccessRights {
        AccessRights { rights: Rights::ReadWrite, start: None, end: None }
    }

    /// Full access without bounds: what an owner has.
    pub open spec fn spec_read_write_manage() -> AccessRights {
        AccessRights { rights: Rights::ReadWriteManage, start: None, end: None }
    }

    /// The stored form: the level, then the two bounds as little-endian words.
    pub open spec fn encoding(self) -> Seq<u8> {
        seq![self.rights.code()] + spec_u64_to_le_bytes(bound_word(self.start))
            + spec_u64_to_le_bytes(bound_word(self.end))
    }

    /// The grant that `bytes` stores, if they are 17 and start with a level.
    pub open spec fn decoding(bytes: Seq<u8>) -> Option<AccessRights> {
        if bytes.len() != ACCESS_RIGHTS_SIZE {
            None
        } else {
            match Rights::spec_from_repr(bytes[0]) {
                Some(rights) => Some(
                    AccessRights {
                        rights,
                        start: word_bound(spec_u64_from_le_bytes(bytes.subrange(1, 9))),
                        end: word_bound(spec_u64_from_le_bytes(bytes.subrange(9, 17))),
                    },
                ),
                None => None,
            }
        }
    }

    /// The grant as it comes back from storage: a bound at time 0 is stored
    /// as no bound.
    pub open spec fn stored(self) -> AccessRights {
        AccessRights {
            rights: self.rights,
            start: word_bound(bound_word(self.start)),
            end: word_bound(bound_word(self.end)),
        }
    }

    /// Storage keeps the grant as it is: neither bound is at time 0.
    pub open spec fn is_storable(self) -> bool {
        self.start != Some(0u64) && self.end != Some(0u64)
    }

    /// The three grants without bounds, by rising level.
    pub fn iter() -> (all: Vec<AccessRights>)
        ensures
            all@ == seq![
                AccessRights::spec_read_only(),
                AccessRights::spec_read_write(),
                AccessRights::spec_read_write_manage(),
            ],
    {
        let mut all: Vec<AccessRights> = Vec::new();
        all.push(AccessRights::read_only());
        all.push(AccessRights::read_write());
        all.push(AccessRights::read_write_manage());
        proof {
            assert(all@ =~= seq![
                AccessRights::spec_read_only(),
                AccessRights::spec_read_write(),
                AccessRights::spec_read_write_manage(),
            ]);
        }
        all
    }

    #[must_use]
    pub fn rights(&self) -> (rights: Rights)
        ensures
            rights == self.rights,
    {
        self.rights
    }

    #[must_use]
    pub fn start(&self) -> (start: Option<u64>)
        ensures
            start == self.start,
    {
        self.start
    }

    #[must_use]
    pub fn end(&self) -> (end: Option<u64>)
        ensures
            end == self.end,
    {
        self.end
    }

    #[must_use]
    pub fn read_only() -> (rights: Self)
        ensures
            rights == AccessRights::spec_read_only(),
    {
        AccessRights { rights: Rights::Read, start: None, end: None }
    }

    #[must_use]
    pub fn read_write() -> (rights: Self)
        ensures
            rights == AccessRights::spec_read_write(),
    {
        AccessRights { rights: Rights::ReadWrite, start: None, end: None }
    }

    #[must_use]
    pub fn read_write_manage() -> (rights: Self)
        ensures
            rights == AccessRights::spec_read_write_manage(),
    {
        AccessRights { rights: Rights::ReadWriteManage, start: None, end: None }
    }

    /// A grant of the given level and window. The window must not end before
    /// it starts.
    #[must_use]
    pub fn new(rights: Rights, start: Option<u64>, end: Option<u64>) -> (grant: Self)
        requires
            (AccessRights { rights, start, end }).is_valid(),
        ensures
            grant == (AccessRights { rights, start, end }),
            grant.is_valid(),
    {
        AccessRights { rights, start, end }
    }

    /// Does the window not end before it starts?
    pub fn has_valid_window(&self) -> (valid: bool)
        ensures
            valid == self.is_valid(),
    {
        match (self.start, self.end) {
            (Some(start), Some(end)) => start <= end,
            _ => true,
        }
    }

    /// Does the window hold `now`?
    pub fn live_at(&self, now: u64) -> (live: bool)
        ensures
            live == self.is_live(now),
    {
        let started = match self.start {
            Some(start) => start <= now,
            None => true,
        };
        let open = match self.end {
            Some(end) => now < end,
            None => true,
        };
        started && open
    }

    /// The 17 bytes under which the grant is stored.
    pub fn to_bytes(&self) -> (bytes: Vec<u8>)
        ensures
            bytes@ == self.encoding(),
            bytes@.len() == ACCESS_RIGHTS_SIZE,
    {
        let start: u64 = match self.start {
            Some(t) => t,
            None => 0,
        };
        let end: u64 = match self.end {
            Some(t) => t,
            None => 0,
        };
        let mut bytes: Vec<u8> = Vec::new();
        bytes.push(self.rights.to_repr());
        let first = u64_to_le_bytes(start);
        append(&mut bytes, first.as_slice());
        let second = u64_to_le_bytes(end);
        append(&mut bytes, second.as_slice());
        bytes
    }

    /// The grant that `bytes` stores. Anything but 17 bytes that start with a
    /// level is refused.
    pub fn from_bytes(bytes: &[u8]) -> (grant: Option<AccessRights>)
        ensures
            grant == AccessRights::decoding(bytes@),
    {
        if bytes.len() != ACCESS_RIGHTS_SIZE {
            return None;
        }
        match Rights::from_repr(bytes[0]) {
            None => None,
            Some(rights) => {
                let start = u64_from_le_bytes(slice_subrange(bytes, 1, 9));
                let end = u64_from_le_bytes(slice_subrange(bytes, 9, 17));
                Some(
                    AccessRights {
                        rights,
                        start: if start != 0 {
                            Some(start)
                        } else {
                            None
                        },
                        end: if end != 0 {
                            Some(end)
                        } else {
                            None
                        },
                    },
                )
            },
        }
    }

    /// What is stored for a grant reads back as the grant, but for a bound at
    /// time 0, which reads back as no bound.
    pub proof fn lemma_decoding_of_encoding(self)
        ensures
            AccessRights::decoding(self.encoding()) == Some(self.stored()),
            self.is_storable() ==> self.stored() == self,
            self.is_valid() ==> self.stored().is_valid(),
    {
        lemma_auto_spec_u64_to_from_le_bytes();
        let bytes = self.encoding();
        let first = spec_u64_to_le_bytes(bound_word(self.start));
        let second = spec_u64_to_le_bytes(bound_word(self.end));
        assert(bytes.subrange(1, 9) =~= first);
        assert(bytes.subrange(9, 17) =~= second);
        assert(bytes[0] == self.rights.code());
    }
}

} // verus!
