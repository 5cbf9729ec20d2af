//! Walking the entries of a store whose keys share a prefix.

use crate::bytes::{
    copy_range, has_prefix, lemma_lex_le_behind_prefix, lemma_lex_le_transitive,
    lemma_past_prefix, lemma_prefix_is_least, lemma_successor_is_greater,
    lemma_successor_is_next, lemma_successor_keeps_prefix, lex_le, lex_lt, starts_with,
    successor,
};
use crate::stable::{
    store_entries, store_first_from, store_first_key_from, store_len, ByteStore,
};
use vstd::prelude::*;
use vstd::set_lib::{lemma_len_subset, lemma_subset_equality};

verus! {

/// The key of the `i`-th item of a scan.
pub open spec fn key_at(out: Seq<(Vec<u8>, Vec<u8>)>, i: int) -> Seq<u8> {
    out[i].0@
}

/// The value of the `i`-th item of a scan.
pub open spec fn value_at(out: Seq<(Vec<u8>, Vec<u8>)>, i: int) -> Seq<u8> {
    out[i].1@
}

/// `out` lists entries of `entries`, each with a key that starts with `prefix`.
pub open spec fn scan_sound(
    entries: Map<Seq<u8>, Seq<u8>>,
    prefix: Seq<u8>,
    out: Seq<(Vec<u8>, Vec<u8>)>,
) -> bool {
    forall|i: int|
        0 <= i < out.len() ==> {
            &&& entries.contains_key(#[trigger] key_at(out, i))
            &&& entries[key_at(out, i)] == value_at(out, i)
            &&& has_prefix(key_at(out, i), prefix)
        }
}

/// The keys of `out` rise strictly, so none occurs twice.
pub open spec fn scan_sorted(out: Seq<(Vec<u8>, Vec<u8>)>) -> bool {
    forall|i: int, j: int|
        0 <= i < j < out.len() ==> lex_lt(#[trigger] key_at(out, i), #[trigger] key_at(out, j))
}

/// The key `k` is the key of some item of `out`.
pub open spec fn scan_has(out: Seq<(Vec<u8>, Vec<u8>)>, k: Seq<u8>) -> bool {
    exists|i: int| 0 <= i < out.len() && #[trigger] key_at(out, i) == k
}

/// `out` misses no entry of `entries` whose key starts with `prefix`.
pub open spec fn scan_complete(
    entries: Map<Seq<u8>, Seq<u8>>,
    prefix: Seq<u8>,
    out: Seq<(Vec<u8>, Vec<u8>)>,
) -> bool {
    forall|k: Seq<u8>| #[trigger]
        entries.contains_key(k) && has_prefix(k, prefix) ==> scan_has(out, k)
}

/// `out` is the scan of `entries` under `prefix`: exactly the entries whose
/// keys start with `prefix`, by rising key.
pub open spec fn is_prefix_scan(
    entries: Map<Seq<u8>, Seq<u8>>,
    prefix: Seq<u8>,
    out: Seq<(Vec<u8>, Vec<u8>)>,
) -> bool {
    &&& scan_sound(entries, prefix, out)
    &&& scan_sorted(out)
    &&& scan_complete(entries, prefix, out)
}

/// The entries with their values, or each with an empty value in place of
/// its own: what a scan shows that reads the values, or does not.
pub open spec fn shown(entries: Map<Seq<u8>, Seq<u8>>, with_values: bool) -> Map<Seq<u8>, Seq<u8>> {
    if with_values {
        entries
    } else {
        Map::new(|k: Seq<u8>| entries.contains_key(k), |k: Seq<u8>| Seq::<u8>::empty())
    }
}

/// All entries of the store whose keys start with `prefix`, by rising key;
/// each with its value, or with an empty value where the values are not
/// asked for and so are not read.
pub fn scan_prefix(store: &ByteStore, prefix: &Vec<u8>, with_values: bool) -> (out: Vec<
    (Vec<u8>, Vec<u8>),
>)
    ensures
        is_prefix_scan(shown(store_entries(*store), with_values), prefix@, out@),
{
    let n = store_len(store);
    let mut out: Vec<(Vec<u8>, Vec<u8>)> = Vec::new();
    let mut cursor: Vec<u8> = copy_range(prefix.as_slice(), 0, prefix.len());
    let ghost entries = shown(store_entries(*store), with_values);
    assert(entries.dom() =~= store_entries(*store).dom());
    let ghost mut seen: Set<Seq<u8>> = Set::empty();
    proof {
        assert(cursor@ =~= prefix@);
        assert(prefix@.subrange(0, prefix@.len() as int) =~= prefix@);
        assert forall|k: Seq<u8>| #[trigger]
            entries.contains_key(k) && has_prefix(k, prefix@) && lex_lt(
                k,
                cursor@,
            ) implies scan_has(out@, k) by {
            lemma_prefix_is_least(k, prefix@);
        }
    }
    loop
        invariant
            entries == shown(store_entries(*store), with_values),
            entries.dom() == store_entries(*store).dom(),
            entries.dom().finite(),
            entries.dom().len() == n,
            has_prefix(cursor@, prefix@),
            seen.finite(),
            seen.len() == out.len(),
            seen.subset_of(entries.dom()),
            forall|k: Seq<u8>| seen.contains(k) ==> lex_lt(k, cursor@),
            forall|i: int| 0 <= i < out.len() ==> seen.contains(#[trigger] key_at(out@, i)),
            scan_sound(entries, prefix@, out@),
            scan_sorted(out@),
            forall|k: Seq<u8>| #[trigger]
                entries.contains_key(k) && has_prefix(k, prefix@) && lex_lt(k, cursor@)
                    ==> scan_has(out@, k),
        ensures
            is_prefix_scan(entries, prefix@, out@),
        decreases n - out.len(),
    {
        if out.len() as u64 >= n {
            proof {
                lemma_len_subset(seen, entries.dom());
                lemma_subset_equality(seen, entries.dom());
            }
            break ;
        }
        let found = if with_values {
            store_first_from(store, &cursor)
        } else {
            match store_first_key_from(store, &cursor) {
                Some(key) => Some((key, Vec::new())),
                None => None,
            }
        };
        match found {
            None => {
                break ;
            },
            Some((k, v)) => {
                if !starts_with(&k, prefix) {
                    proof {
                        lemma_prefix_is_least(cursor@, prefix@);
                        lemma_lex_le_transitive(prefix@, cursor@, k@);
                        assert forall|other: Seq<u8>| #[trigger]
                            entries.contains_key(other) && has_prefix(
                                other,
                                prefix@,
                            ) implies scan_has(out@, other) by {
                            lemma_past_prefix(k@, prefix@, other);
                        }
                    }
                    break ;
                }
                let mut next: Vec<u8> = copy_range(k.as_slice(), 0, k.len());
                next.push(0u8);
                proof {
                    assert(k@.subrange(0, k@.len() as int) =~= k@);
                    assert(next@ =~= successor(k@));
                    lemma_successor_is_greater(k@);
                    lemma_successor_keeps_prefix(k@, prefix@);
                    assert(!seen.contains(k@));
                    lemma_len_subset(seen.insert(k@), entries.dom());
                    assert forall|other: Seq<u8>| seen.insert(k@).contains(other) implies lex_lt(
                        other,
                        next@,
                    ) by {
                        if lex_le(next@, other) {
                            lemma_lex_le_transitive(k@, next@, other);
                            if other != k@ {
                                lemma_lex_le_transitive(cursor@, k@, other);
                            }
                        }
                    }
                    assert forall|i: int| 0 <= i < out.len() implies lex_lt(
                        #[trigger] key_at(out@, i),
                        k@,
                    ) by {
                        if lex_le(k@, key_at(out@, i)) {
                            lemma_lex_le_transitive(cursor@, k@, key_at(out@, i));
                        }
                    }
                }
                let ghost before = out@;
                out.push((k, v));
                proof {
                    seen = seen.insert(k@);
                    assert forall|i: int| 0 <= i < out.len() implies seen.contains(
                        #[trigger] key_at(out@, i),
                    ) by {
                        if i < before.len() {
                            assert(key_at(out@, i) == key_at(before, i));
                        }
                    }
                    assert forall|i: int| 0 <= i < out.len() implies {
                        &&& entries.contains_key(#[trigger] key_at(out@, i))
                        &&& entries[key_at(out@, i)] == value_at(out@, i)
                        &&& has_prefix(key_at(out@, i), prefix@)
                    } by {
                        if i < before.len() {
                            assert(key_at(out@, i) == key_at(before, i));
                            assert(value_at(out@, i) == value_at(before, i));
                        }
                    }
                    assert forall|i: int, j: int| 0 <= i < j < out.len() implies lex_lt(
                        #[trigger] key_at(out@, i),
                        #[trigger] key_at(out@, j),
                    ) by {
                        assert(key_at(out@, i) == key_at(before, i));
                        if j < before.len() {
                            assert(key_at(out@, j) == key_at(before, j));
                        }
                    }
                    assert forall|other: Seq<u8>| #[trigger]
                        entries.contains_key(other) && has_prefix(other, prefix@) && lex_lt(
                            other,
                            next@,
                        ) implies scan_has(out@, other) by {
                        if lex_lt(other, cursor@) {
                            let i = choose|i: int|
                                0 <= i < before.len() && #[trigger] key_at(before, i) == other;
                            assert(key_at(out@, i) == other);
                        } else {
                            if other != k@ {
                                lemma_successor_is_next(k@, other);
                            }
                            assert(key_at(out@, before.len() as int) == other);
                        }
                    }
                }
                cursor = next;
            },
        }
    }
    out
}

/// `out` lists, by rising remainder, exactly the entries of `entries` whose
/// key is `prefix` followed by `width` more bytes: each as the remainder of
/// its key, with its value.
pub open spec fn is_fixed_scan(
    entries: Map<Seq<u8>, Seq<u8>>,
    prefix: Seq<u8>,
    width: nat,
    out: Seq<(Vec<u8>, Vec<u8>)>,
) -> bool {
    &&& forall|i: int|
        0 <= i < out.len() ==> {
            &&& (#[trigger] key_at(out, i)).len() == width
            &&& entries.contains_key(prefix + key_at(out, i))
            &&& entries[prefix + key_at(out, i)] == value_at(out, i)
        }
    &&& scan_sorted(out)
    &&& forall|rest: Seq<u8>|
        rest.len() == width && #[trigger] entries.contains_key(prefix + rest) ==> scan_has(
            out,
            rest,
        )
}

/// The entries of the store whose keys are `prefix` followed by `width` more
/// bytes, by rising key: each as the remainder of its key, with its value,
/// or with an empty value where the values are not asked for.
pub fn scan_fixed(store: &ByteStore, prefix: &Vec<u8>, width: usize, with_values: bool) -> (out:
    Vec<(Vec<u8>, Vec<u8>)>)
    ensures
        is_fixed_scan(shown(store_entries(*store), with_values), prefix@, width as nat, out@),
{
    let found = scan_prefix(store, prefix, with_values);
    let ghost entries = shown(store_entries(*store), with_values);
    let mut out: Vec<(Vec<u8>, Vec<u8>)> = Vec::new();
    let mut at: usize = 0;
    while at < found.len()
        invariant
            at <= found.len(),
            is_prefix_scan(entries, prefix@, found@),
            forall|i: int|
                0 <= i < out.len() ==> {
                    &&& (#[trigger] key_at(out@, i)).len() == width
                    &&& entries.contains_key(prefix@ + key_at(out@, i))
                    &&& entries[prefix@ + key_at(out@, i)] == value_at(out@, i)
                    &&& exists|j: int|
                        0 <= j < at && #[trigger] key_at(found@, j) == prefix@ + key_at(out@, i)
                },
            scan_sorted(out@),
            forall|j: int|
                0 <= j < at && (#[trigger] key_at(found@, j)).len() == prefix@.len() + width
                    ==> scan_has(out@, key_at(found@, j).subrange(
                    prefix@.len() as int,
                    key_at(found@, j).len() as int,
                )),
        decreases found.len() - at,
    {
        let key = &found[at].0;
        let ghost k = key_at(found@, at as int);
        assert(has_prefix(k, prefix@));
        if key.len() - prefix.len() == width {
            let rest = copy_range(key.as_slice(), prefix.len(), key.len());
            let value = copy_range(found[at].1.as_slice(), 0, found[at].1.len());
            proof {
                assert(value@ =~= value_at(found@, at as int));
                assert(prefix@ + rest@ =~= k);
                assert forall|i: int| 0 <= i < out.len() implies lex_lt(
                    #[trigger] key_at(out@, i),
                    rest@,
                ) by {
                    let j = choose|j: int|
                        0 <= j < at && #[trigger] key_at(found@, j) == prefix@ + key_at(out@, i);
                    assert(lex_lt(key_at(found@, j), key_at(found@, at as int)));
                    lemma_lex_le_behind_prefix(prefix@, rest@, key_at(out@, i));
                }
            }
            let ghost before = out@;
            out.push((rest, value));
            proof {
                let last = before.len() as int;
                assert(key_at(out@, last) == rest@);
                assert(value_at(out@, last) == value@);
                assert forall|i: int| 0 <= i < out.len() implies {
                    &&& (#[trigger] key_at(out@, i)).len() == width
                    &&& entries.contains_key(prefix@ + key_at(out@, i))
                    &&& entries[prefix@ + key_at(out@, i)] == value_at(out@, i)
                    &&& exists|j: int|
                        0 <= j < at + 1 && #[trigger] key_at(found@, j) == prefix@ + key_at(
                            out@,
                            i,
                        )
                } by {
                    if i < last {
                        assert(key_at(out@, i) == key_at(before, i));
                        assert(value_at(out@, i) == value_at(before, i));
                        let j = choose|j: int|
                            0 <= j < at && #[trigger] key_at(found@, j) == prefix@ + key_at(
                                before,
                                i,
                            );
                        assert(key_at(found@, j) == prefix@ + key_at(out@, i));
                    } else {
                        assert(key_at(found@, at as int) == prefix@ + key_at(out@, i));
                    }
                }
                assert forall|i: int, j: int| 0 <= i < j < out.len() implies lex_lt(
                    #[trigger] key_at(out@, i),
                    #[trigger] key_at(out@, j),
                ) by {
                    assert(key_at(out@, i) == key_at(before, i));
                    if j < last {
                        assert(key_at(out@, j) == key_at(before, j));
                    }
                }
                assert forall|j: int|
                    0 <= j < at + 1 && (#[trigger] key_at(found@, j)).len() == prefix@.len()
                        + width implies scan_has(
                    out@,
                    key_at(found@, j).subrange(
                        prefix@.len() as int,
                        key_at(found@, j).len() as int,
                    ),
                ) by {
                    let r = key_at(found@, j).subrange(
                        prefix@.len() as int,
                        key_at(found@, j).len() as int,
                    );
                    if j < at {
                        let i = choose|i: int|
                            0 <= i < before.len() && #[trigger] key_at(before, i) == r;
                        assert(key_at(out@, i) == r);
                    } else {
                        assert(key_at(out@, last) == r);
                    }
                }
            }
        }
        at += 1;
    }
    proof {
        assert forall|rest: Seq<u8>|
            rest.len() == width && #[trigger] entries.contains_key(
                prefix@ + rest,
            ) implies scan_has(out@, rest) by {
            let k = prefix@ + rest;
            assert(k.subrange(0, prefix@.len() as int) =~= prefix@);
            assert(has_prefix(k, prefix@));
            let j = choose|j: int| 0 <= j < found@.len() && #[trigger] key_at(found@, j) == k;
            assert(k.subrange(prefix@.len() as int, k.len() as int) =~= rest);
        }
    }
    out
}

/// `picks` lists, by rising place, the places before `at` of the items of
/// `found` that `chosen` accepts, which goes by the remainder of the key and
/// by the value.
pub open spec fn is_picked(
    found: Seq<(Vec<u8>, Vec<u8>)>,
    at: int,
    chosen: spec_fn(Seq<u8>, Seq<u8>) -> bool,
    picks: Seq<int>,
) -> bool {
    &&& forall|a: int|
        0 <= a < picks.len() ==> 0 <= #[trigger] picks[a] < at && chosen(
            key_at(found, picks[a]),
            value_at(found, picks[a]),
        )
    &&& forall|a: int, b: int| 0 <= a < b < picks.len() ==> #[trigger] picks[a] < #[trigger] picks[b]
    &&& forall|j: int|
        0 <= j < at && chosen(#[trigger] key_at(found, j), value_at(found, j)) ==> picks.contains(
            j,
        )
}

/// Nothing is picked before the first item.
pub proof fn lemma_picked_none(
    found: Seq<(Vec<u8>, Vec<u8>)>,
    chosen: spec_fn(Seq<u8>, Seq<u8>) -> bool,
)
    ensures
        is_picked(found, 0, chosen, Seq::<int>::empty()),
{
}

/// An item that `chosen` accepts is picked next.
pub proof fn lemma_picked_push(
    found: Seq<(Vec<u8>, Vec<u8>)>,
    at: int,
    chosen: spec_fn(Seq<u8>, Seq<u8>) -> bool,
    picks: Seq<int>,
)
    requires
        is_picked(found, at, chosen, picks),
        0 <= at,
        chosen(key_at(found, at), value_at(found, at)),
    ensures
        is_picked(found, at + 1, chosen, picks.push(at)),
{
    let next = picks.push(at);
    assert forall|j: int|
        0 <= j < at + 1 && chosen(
            #[trigger] key_at(found, j),
            value_at(found, j),
        ) implies next.contains(j) by {
        if j < at {
            let a = choose|a: int| 0 <= a < picks.len() && picks[a] == j;
            assert(next[a] == j);
        } else {
            assert(next[picks.len() as int] == j);
        }
    }
}

/// An item that `chosen` refuses is passed over.
pub proof fn lemma_picked_skip(
    found: Seq<(Vec<u8>, Vec<u8>)>,
    at: int,
    chosen: spec_fn(Seq<u8>, Seq<u8>) -> bool,
    picks: Seq<int>,
)
    requires
        is_picked(found, at, chosen, picks),
        !chosen(key_at(found, at), value_at(found, at)),
    ensures
        is_picked(found, at + 1, chosen, picks),
{
}

/// What the picks of a whole scan are: exactly the entries under the prefix
/// with a remainder of the right length that `chosen` accepts, by rising
/// remainder.
pub proof fn lemma_picked_all(
    entries: Map<Seq<u8>, Seq<u8>>,
    prefix: Seq<u8>,
    width: nat,
    found: Seq<(Vec<u8>, Vec<u8>)>,
    chosen: spec_fn(Seq<u8>, Seq<u8>) -> bool,
    picks: Seq<int>,
)
    requires
        is_fixed_scan(entries, prefix, width, found),
        is_picked(found, found.len() as int, chosen, picks),
    ensures
        forall|a: int|
            0 <= a < picks.len() ==> {
                &&& 0 <= #[trigger] picks[a] < found.len()
                &&& key_at(found, picks[a]).len() == width
                &&& entries.contains_key(prefix + key_at(found, picks[a]))
                &&& entries[prefix + key_at(found, picks[a])] == value_at(found, picks[a])
                &&& chosen(key_at(found, picks[a]), value_at(found, picks[a]))
            },
        forall|a: int, b: int|
            0 <= a < b < picks.len() ==> lex_lt(
                key_at(found, #[trigger] picks[a]),
                key_at(found, #[trigger] picks[b]),
            ),
        forall|rest: Seq<u8>|
            rest.len() == width && #[trigger] entries.contains_key(prefix + rest) && chosen(
                rest,
                entries[prefix + rest],
            ) ==> exists|a: int| 0 <= a < picks.len() && key_at(found, #[trigger] picks[a]) == rest,
{
    assert forall|a: int, b: int| 0 <= a < b < picks.len() implies lex_lt(
        key_at(found, #[trigger] picks[a]),
        key_at(found, #[trigger] picks[b]),
    ) by {
        assert(picks[a] < picks[b]);
    }
    assert forall|rest: Seq<u8>|
        rest.len() == width && #[trigger] entries.contains_key(prefix + rest) && chosen(
            rest,
            entries[prefix + rest],
        ) implies exists|a: int| 0 <= a < picks.len() && key_at(found, #[trigger] picks[a]) == rest by {
        assert(scan_has(found, rest));
        let j = choose|j: int| 0 <= j < found.len() && #[trigger] key_at(found, j) == rest;
        assert(chosen(key_at(found, j), value_at(found, j)));
        assert(picks.contains(j));
        let a = choose|a: int| 0 <= a < picks.len() && picks[a] == j;
        assert(key_at(found, picks[a]) == rest);
    }
}

} // verus!
