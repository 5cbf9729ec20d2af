//! The stable structures that hold the library's state, and the contracts
//! under which the rest of the library uses them.
//!
//! Nothing in this file is proved. Each item says what it takes for granted of
//! `ic_stable_structures`.

use crate::bytes::lex_le;
use ic_stable_structures::cell::InitError;
use ic_stable_structures::memory_manager::{MemoryId, MemoryManager, VirtualMemory};
use ic_stable_structures::{DefaultMemoryImpl, StableBTreeMap, StableCell};
use vstd::prelude::*;

verus! {

/// `ic_stable_structures::cell::InitError`: why a cell could not be opened.
/// Carried through, never looked into.
#[verifier::external_type_specification]
#[verifier::external_body]
pub struct ExInitError(InitError);

/// A `MemoryManager` over the default memory, which hands out the numbered
/// regions that the structures below live in.
#[verifier::external_body]
pub struct StableRegions {
    inner: MemoryManager<DefaultMemoryImpl>,
}

/// A `StableBTreeMap` from byte strings to byte strings in a region of its own.
/// It keeps its keys in the order of `Vec<u8>`, which is `lex_le`.
///
/// What is claimed below of one store holds as long as no other structure
/// writes into its region. `MemoryPool` sees to that.
#[verifier::external_body]
pub struct ByteStore {
    inner: StableBTreeMap<Vec<u8>, Vec<u8>, VirtualMemory<DefaultMemoryImpl>>,
}

/// A `StableCell` that holds one string in a region of its own.
#[verifier::external_body]
pub struct TextCell {
    inner: StableCell<String, VirtualMemory<DefaultMemoryImpl>>,
}

/// The entries of a store: each key with its value.
pub uninterp spec fn store_entries(store: ByteStore) -> Map<Seq<u8>, Seq<u8>>;

/// The string that a cell holds.
pub uninterp spec fn cell_text(cell: TextCell) -> Seq<char>;

/// The number of the region that a store was opened in.
pub uninterp spec fn store_region(store: ByteStore) -> u8;

/// The number of the region that a cell was opened in.
pub uninterp spec fn cell_region(cell: TextCell) -> u8;

/// `MemoryManager::init` on `DefaultMemoryImpl::default()`. Nothing is claimed
/// of the result.
#[verifier::external_body]
pub(crate) fn regions_new() -> StableRegions {
    StableRegions { inner: MemoryManager::init(DefaultMemoryImpl::default()) }
}

/// `StableBTreeMap::init` on the region `id` of the manager (`MemoryManager::get`
/// on `MemoryId::new`, which refuses 255). The map found in the region is
/// loaded, or an empty one is made: nothing is claimed of the entries, only
/// that the store lives in the region asked for. The call does not return where
/// the region holds a map of a layout that the crate does not know.
#[verifier::external_body]
pub(crate) fn store_open(regions: &StableRegions, id: u8) -> (store: ByteStore)
    requires
        id < 255,
    ensures
        store_region(store) == id,
{
    ByteStore { inner: StableBTreeMap::init(regions.inner.get(MemoryId::new(id))) }
}

/// The set is finite and has `n` members.
pub open spec fn has_size(keys: Set<Seq<u8>>, n: nat) -> bool {
    keys.finite() && keys.len() == n
}

/// `StableBTreeMap::len`: the number of entries, which is finite.
#[verifier::external_body]
pub(crate) fn store_len(store: &ByteStore) -> (n: u64)
    ensures
        has_size(store_entries(*store).dom(), n as nat),
{
    store.inner.len()
}

/// `StableBTreeMap::get`: the value under `key`, if the store has the key.
#[verifier::external_body]
pub(crate) fn store_get(store: &ByteStore, key: &Vec<u8>) -> (value: Option<Vec<u8>>)
    ensures
        match value {
            Some(v) => store_entries(*store).contains_key(key@) && store_entries(*store)[key@]
                == v@,
            None => !store_entries(*store).contains_key(key@),
        },
{
    store.inner.get(key)
}

/// `StableBTreeMap::insert`: puts `value` under `key`, leaves every other entry
/// as it was, and returns the value that `key` had before, if any. The store
/// stays in its region. The call does not return where the region cannot grow.
#[verifier::external_body]
pub(crate) fn store_insert(store: &mut ByteStore, key: Vec<u8>, value: Vec<u8>) -> (previous:
    Option<Vec<u8>>)
    ensures
        store_entries(*final(store)) == store_entries(*old(store)).insert(key@, value@),
        store_region(*final(store)) == store_region(*old(store)),
        match previous {
            Some(v) => store_entries(*old(store)).contains_key(key@) && store_entries(
                *old(store),
            )[key@] == v@,
            None => !store_entries(*old(store)).contains_key(key@),
        },
{
    store.inner.insert(key, value)
}

/// `StableBTreeMap::remove`: takes `key` out, leaves every other entry as it
/// was, and returns the value that `key` had, if any. The store stays in its
/// region.
#[verifier::external_body]
pub(crate) fn store_remove(store: &mut ByteStore, key: &Vec<u8>) -> (previous: Option<Vec<u8>>)
    ensures
        store_entries(*final(store)) == store_entries(*old(store)).remove(key@),
        store_region(*final(store)) == store_region(*old(store)),
        match previous {
            Some(v) => store_entries(*old(store)).contains_key(key@) && store_entries(
                *old(store),
            )[key@] == v@,
            None => !store_entries(*old(store)).contains_key(key@),
        },
{
    store.inner.remove(key)
}

/// The first item of `StableBTreeMap::range` from `start` on: the entry with
/// the least key that is not before `start`, if there is one.
#[verifier::external_body]
pub(crate) fn store_first_from(store: &ByteStore, start: &Vec<u8>) -> (entry: Option<
    (Vec<u8>, Vec<u8>),
>)
    ensures
        match entry {
            Some((k, v)) => {
                &&& store_entries(*store).contains_key(k@)
                &&& store_entries(*store)[k@] == v@
                &&& lex_le(start@, k@)
                &&& forall|other: Seq<u8>|
                    store_entries(*store).contains_key(other) && lex_le(start@, other)
                        ==> lex_le(k@, other)
            },
            None => forall|other: Seq<u8>|
                store_entries(*store).contains_key(other) ==> !lex_le(start@, other),
        },
{
    store.inner.range(start.clone()..).next()
}

/// The first item of `StableBTreeMap::keys_range` from `start` on: the least
/// key that is not before `start`, if there is one. The value is not read.
#[verifier::external_body]
pub(crate) fn store_first_key_from(store: &ByteStore, start: &Vec<u8>) -> (key: Option<Vec<u8>>)
    ensures
        match key {
            Some(k) => {
                &&& store_entries(*store).contains_key(k@)
                &&& lex_le(start@, k@)
                &&& forall|other: Seq<u8>|
                    store_entries(*store).contains_key(other) && lex_le(start@, other)
                        ==> lex_le(k@, other)
            },
            None => forall|other: Seq<u8>|
                store_entries(*store).contains_key(other) ==> !lex_le(start@, other),
        },
{
    store.inner.keys_range(start.clone()..).next()
}

/// `StableCell::init` on the region `id` of the manager, with `text` as the
/// value to write where the region holds no cell yet. Where it holds one, that
/// cell's value stays: nothing is claimed of the text of the result, only that
/// the cell lives in the region asked for.
#[verifier::external_body]
pub(crate) fn cell_open(regions: &StableRegions, id: u8, text: String) -> (cell: Result<
    TextCell,
    InitError,
>)
    requires
        id < 255,
    ensures
        cell matches Ok(c) ==> cell_region(c) == id,
{
    match StableCell::init(regions.inner.get(MemoryId::new(id)), text) {
        Ok(inner) => Ok(TextCell { inner }),
        Err(e) => Err(e),
    }
}

/// `StableCell::get`: a copy of the string in the cell.
#[verifier::external_body]
pub(crate) fn cell_get(cell: &TextCell) -> (text: String)
    ensures
        text@ == cell_text(*cell),
{
    cell.inner.get().clone()
}

} // verus!
