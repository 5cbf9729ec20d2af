//! The regions of stable memory, each of which serves one structure.

use crate::stable::{regions_new, StableRegions};
use crate::types::MemoryInitializationError;
use vstd::prelude::*;

verus! {

/// The number that no region can have.
pub const RESERVED_MEMORY_ID: u8 = 255;

/// The regions of the stable memory, and which of them are in use.
///
/// A structure that writes into the region of another destroys it, so every
/// region is handed out once.
pub struct MemoryPool {
    regions: StableRegions,
    claimed: [bool; 256],
}

impl MemoryPool {
    /// The number that no region can have counts as in use.
    #[verifier::type_invariant]
    spec fn reserved_is_claimed(self) -> bool {
        self.claimed[255]
    }

    /// The region `id` is in use, or is the one that cannot be used.
    pub closed spec fn is_claimed(&self, id: u8) -> bool {
        self.claimed[id as int]
    }

    /// A pool over the default stable memory, with every region free.
    ///
    /// A process makes one pool: a second one over the same stable memory
    /// would hand out the same regions again.
    pub fn new() -> (pool: MemoryPool)
        ensures
            forall|id: u8| pool.is_claimed(id) <==> id == RESERVED_MEMORY_ID,
    {
        let mut claimed = [false; 256];
        claimed[255] = true;
        MemoryPool { regions: regions_new(), claimed }
    }

    /// Is the region `id` free? The reserved one never is.
    pub fn is_free(&self, id: u8) -> (free: bool)
        ensures
            free == !self.is_claimed(id),
            free ==> id < RESERVED_MEMORY_ID,
    {
        proof {
            use_type_invariant(self);
        }
        !self.claimed[id as usize]
    }

    /// Takes the region `id` into use, unless it is in use already.
    pub fn claim(&mut self, id: u8) -> (taken: Result<(), MemoryInitializationError>)
        ensures
            final(self).manager() == old(self).manager(),
            match taken {
                Ok(_) => {
                    &&& !old(self).is_claimed(id)
                    &&& forall|other: u8|
                        final(self).is_claimed(other) <==> (old(self).is_claimed(other) || other
                            == id)
                },
                Err(e) => {
                    &&& old(self).is_claimed(id)
                    &&& e == MemoryInitializationError::AlreadyInitialized
                    &&& *final(self) == *old(self)
                },
            },
    {
        proof {
            use_type_invariant(&*self);
        }
        if self.claimed[id as usize] {
            return Err(MemoryInitializationError::AlreadyInitialized);
        }
        self.claimed[id as usize] = true;
        Ok(())
    }

    /// The regions `ids` are free, and no two of them are the same.
    pub open spec fn all_free(&self, ids: Seq<u8>) -> bool {
        &&& forall|i: int| 0 <= i < ids.len() ==> !self.is_claimed(#[trigger] ids[i])
        &&& forall|i: int, j: int| 0 <= i < j < ids.len() ==> ids[i] != ids[j]
    }

    /// Are the regions `ids` free, and no two of them the same?
    pub fn can_claim_all(&self, ids: &Vec<u8>) -> (free: bool)
        ensures
            free == self.all_free(ids@),
            free ==> forall|i: int| 0 <= i < ids.len() ==> #[trigger] ids@[i] < RESERVED_MEMORY_ID,
    {
        let mut i: usize = 0;
        while i < ids.len()
            invariant
                i <= ids.len(),
                forall|a: int| 0 <= a < i ==> !self.is_claimed(#[trigger] ids@[a]),
                forall|a: int| 0 <= a < i ==> #[trigger] ids@[a] < RESERVED_MEMORY_ID,
                forall|a: int, b: int| 0 <= a < b < i ==> ids@[a] != ids@[b],
            decreases ids.len() - i,
        {
            if !self.is_free(ids[i]) {
                return false;
            }
            let mut j: usize = 0;
            while j < i
                invariant
                    j <= i < ids.len(),
                    forall|a: int| 0 <= a < j ==> ids@[a] != ids@[i as int],
                decreases i - j,
            {
                if ids[j] == ids[i] {
                    return false;
                }
                j += 1;
            }
            i += 1;
        }
        true
    }

    /// Takes the regions `ids` into use, all of them or none: none where one
    /// of them is in use already, or is named twice.
    pub fn claim_all(&mut self, ids: &Vec<u8>) -> (taken: Result<(), MemoryInitializationError>)
        ensures
            final(self).manager() == old(self).manager(),
            match taken {
                Ok(_) => {
                    &&& old(self).all_free(ids@)
                    &&& forall|id: u8|
                        final(self).is_claimed(id) <==> (old(self).is_claimed(id) || ids@.contains(
                            id,
                        ))
                },
                Err(e) => {
                    &&& !old(self).all_free(ids@)
                    &&& e == MemoryInitializationError::AlreadyInitialized
                    &&& *final(self) == *old(self)
                },
            },
    {
        if !self.can_claim_all(ids) {
            return Err(MemoryInitializationError::AlreadyInitialized);
        }
        let mut i: usize = 0;
        while i < ids.len()
            invariant
                i <= ids.len(),
                self.manager() == old(self).manager(),
                old(self).all_free(ids@),
                forall|id: u8|
                    self.is_claimed(id) <==> (old(self).is_claimed(id) || ids@.subrange(
                        0,
                        i as int,
                    ).contains(id)),
            decreases ids.len() - i,
        {
            let ghost before = *self;
            let taken = self.claim(ids[i]);
            proof {
                assert(!before.is_claimed(ids@[i as int])) by {
                    if ids@.subrange(0, i as int).contains(ids@[i as int]) {
                        let a = choose|a: int|
                            0 <= a < i && ids@.subrange(0, i as int)[a] == ids@[i as int];
                        assert(ids@[a] == ids@[i as int]);
                    }
                }
                assert(taken is Ok);
                assert forall|id: u8|
                    self.is_claimed(id) <==> (old(self).is_claimed(id) || ids@.subrange(
                        0,
                        i + 1,
                    ).contains(id)) by {
                    let upto = ids@.subrange(0, i as int);
                    let next = ids@.subrange(0, i + 1);
                    assert(next =~= upto.push(ids@[i as int]));
                    if upto.contains(id) {
                        let a = choose|a: int| 0 <= a < upto.len() && upto[a] == id;
                        assert(next[a] == id);
                    }
                    if id == ids@[i as int] {
                        assert(next[i as int] == id);
                    }
                }
            }
            i += 1;
        }
        proof {
            assert(ids@.subrange(0, ids@.len() as int) =~= ids@);
        }
        Ok(())
    }

    /// The manager of the regions.
    pub(crate) fn regions(&self) -> (regions: &StableRegions)
        ensures
            *regions == self.manager(),
    {
        &self.regions
    }

    /// The manager from which the pool takes its regions.
    pub closed spec fn manager(&self) -> StableRegions {
        self.regions
    }
}

} // verus!
