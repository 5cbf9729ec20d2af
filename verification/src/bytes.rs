//! Byte strings: their lexicographic order, prefixes, and the small
//! executable helpers that build and take apart stored keys.

use vstd::prelude::*;

verus! {

/// `a` comes before `b`, or equals it, in the lexicographic order of byte
/// strings: the order of `Vec<u8>` and of slices in the standard library.
pub open spec fn lex_le(a: Seq<u8>, b: Seq<u8>) -> bool
    decreases a.len(),
{
    if a.len() == 0 {
        true
    } else if b.len() == 0 {
        false
    } else if a[0] != b[0] {
        a[0] < b[0]
    } else {
        lex_le(a.drop_first(), b.drop_first())
    }
}

/// `a` comes strictly before `b`.
pub open spec fn lex_lt(a: Seq<u8>, b: Seq<u8>) -> bool {
    !lex_le(b, a)
}

/// `key` starts with `prefix`.
pub open spec fn has_prefix(key: Seq<u8>, prefix: Seq<u8>) -> bool {
    prefix.len() <= key.len() && key.subrange(0, prefix.len() as int) == prefix
}

/// The immediate successor of `key` in the lexicographic order.
pub open spec fn successor(key: Seq<u8>) -> Seq<u8> {
    key.push(0u8)
}

pub proof fn lemma_lex_le_transitive(a: Seq<u8>, b: Seq<u8>, c: Seq<u8>)
    requires
        lex_le(a, b),
        lex_le(b, c),
    ensures
        lex_le(a, c),
    decreases a.len(),
{
    if a.len() > 0 && a[0] == b[0] && b[0] == c[0] {
        lemma_lex_le_transitive(a.drop_first(), b.drop_first(), c.drop_first());
    }
}

pub proof fn lemma_lex_le_antisymmetric(a: Seq<u8>, b: Seq<u8>)
    requires
        lex_le(a, b),
        lex_le(b, a),
    ensures
        a == b,
    decreases a.len(),
{
    if a.len() == 0 || b.len() == 0 {
        assert(a =~= b);
    } else {
        lemma_lex_le_antisymmetric(a.drop_first(), b.drop_first());
        assert(a =~= seq![a[0]] + a.drop_first());
        assert(b =~= seq![b[0]] + b.drop_first());
    }
}

/// Of two byte strings, one comes before the other or equals it.
pub proof fn lemma_lex_le_total(a: Seq<u8>, b: Seq<u8>)
    ensures
        lex_le(a, b) || lex_le(b, a),
    decreases a.len(),
{
    if a.len() > 0 && b.len() > 0 && a[0] == b[0] {
        lemma_lex_le_total(a.drop_first(), b.drop_first());
    }
}

/// The first `n` bytes of two strings are ordered as the strings are, or
/// are equal.
pub proof fn lemma_lex_le_of_heads(a: Seq<u8>, b: Seq<u8>, n: int)
    requires
        lex_le(a, b),
        0 <= n <= a.len(),
        n <= b.len(),
    ensures
        lex_le(a.subrange(0, n), b.subrange(0, n)),
    decreases n,
{
    if n > 0 {
        let x = a.subrange(0, n);
        let y = b.subrange(0, n);
        assert(x[0] == a[0]);
        assert(y[0] == b[0]);
        if a[0] == b[0] {
            lemma_lex_le_of_heads(a.drop_first(), b.drop_first(), n - 1);
            assert(x.drop_first() =~= a.drop_first().subrange(0, n - 1));
            assert(y.drop_first() =~= b.drop_first().subrange(0, n - 1));
        }
    }
}

/// A byte string comes first among the strings that start with it.
pub proof fn lemma_prefix_is_least(key: Seq<u8>, prefix: Seq<u8>)
    requires
        has_prefix(key, prefix),
    ensures
        lex_le(prefix, key),
    decreases prefix.len(),
{
    if prefix.len() > 0 {
        assert(key.subrange(0, prefix.len() as int)[0] == prefix[0]);
        assert(key.drop_first().subrange(0, prefix.len() - 1) =~= prefix.drop_first());
        lemma_prefix_is_least(key.drop_first(), prefix.drop_first());
    }
}

/// A string at or after `prefix` that does not start with it comes after
/// every string that does.
pub proof fn lemma_past_prefix(key: Seq<u8>, prefix: Seq<u8>, other: Seq<u8>)
    requires
        lex_le(prefix, key),
        !has_prefix(key, prefix),
        has_prefix(other, prefix),
    ensures
        lex_lt(other, key),
    decreases prefix.len(),
{
    if prefix.len() == 0 {
        assert(key.subrange(0, 0) =~= prefix);
    } else {
        assert(other.subrange(0, prefix.len() as int)[0] == prefix[0]);
        if key[0] == prefix[0] {
            assert(other.drop_first().subrange(0, prefix.len() - 1) =~= prefix.drop_first());
            if has_prefix(key.drop_first(), prefix.drop_first()) {
                assert(key.subrange(0, prefix.len() as int) =~= seq![key[0]]
                    + key.drop_first().subrange(0, prefix.len() - 1));
                assert(prefix =~= seq![prefix[0]] + prefix.drop_first());
            }
            lemma_past_prefix(key.drop_first(), prefix.drop_first(), other.drop_first());
        }
    }
}

/// Nothing lies strictly between a string and its successor.
pub proof fn lemma_successor_is_next(key: Seq<u8>, other: Seq<u8>)
    requires
        lex_le(key, other),
        key != other,
    ensures
        lex_le(successor(key), other),
    decreases key.len(),
{
    if key.len() == 0 {
        if other.len() == 0 {
            assert(key =~= other);
        }
        assert(successor(key)[0] == 0u8);
        assert(successor(key).drop_first().len() == 0);
        assert(lex_le(successor(key).drop_first(), other.drop_first()));
    } else if key[0] == other[0] {
        assert(successor(key).drop_first() =~= successor(key.drop_first()));
        if key.drop_first() == other.drop_first() {
            assert(key =~= seq![key[0]] + key.drop_first());
            assert(other =~= seq![other[0]] + other.drop_first());
        }
        lemma_successor_is_next(key.drop_first(), other.drop_first());
    }
}

/// A string comes strictly before its successor.
pub proof fn lemma_successor_is_greater(key: Seq<u8>)
    ensures
        lex_le(key, successor(key)),
        lex_lt(key, successor(key)),
    decreases key.len(),
{
    if key.len() > 0 {
        assert(successor(key).drop_first() =~= successor(key.drop_first()));
        lemma_successor_is_greater(key.drop_first());
    }
}

/// The successor of a string keeps the string's prefixes.
pub proof fn lemma_successor_keeps_prefix(key: Seq<u8>, prefix: Seq<u8>)
    requires
        has_prefix(key, prefix),
    ensures
        has_prefix(successor(key), prefix),
{
    assert(successor(key).subrange(0, prefix.len() as int) =~= key.subrange(
        0,
        prefix.len() as int,
    ));
}

/// Behind a common prefix, two strings are ordered as their remainders.
pub proof fn lemma_lex_le_behind_prefix(prefix: Seq<u8>, a: Seq<u8>, b: Seq<u8>)
    ensures
        lex_le(prefix + a, prefix + b) == lex_le(a, b),
    decreases prefix.len(),
{
    if prefix.len() == 0 {
        assert(prefix + a =~= a);
        assert(prefix + b =~= b);
    } else {
        assert((prefix + a).drop_first() =~= prefix.drop_first() + a);
        assert((prefix + b).drop_first() =~= prefix.drop_first() + b);
        lemma_lex_le_behind_prefix(prefix.drop_first(), a, b);
    }
}

/// Does `key` start with `prefix`?
pub fn starts_with(key: &Vec<u8>, prefix: &Vec<u8>) -> (found: bool)
    ensures
        found == has_prefix(key@, prefix@),
{
    if prefix.len() > key.len() {
        return false;
    }
    let mut i: usize = 0;
    while i < prefix.len()
        invariant
            i <= prefix.len(),
            prefix.len() <= key.len(),
            forall|j: int| 0 <= j < i ==> key@[j] == prefix@[j],
        decreases prefix.len() - i,
    {
        if key[i] != prefix[i] {
            proof {
                assert(key@.subrange(0, prefix@.len() as int)[i as int] != prefix@[i as int]);
            }
            return false;
        }
        i += 1;
    }
    proof {
        assert(key@.subrange(0, prefix@.len() as int) =~= prefix@);
    }
    true
}

/// Appends `src` to `dst`.
pub fn append(dst: &mut Vec<u8>, src: &[u8])
    ensures
        final(dst)@ == old(dst)@ + src@,
{
    let mut i: usize = 0;
    while i < src.len()
        invariant
            i <= src.len(),
            dst@ == old(dst)@ + src@.subrange(0, i as int),
        decreases src.len() - i,
    {
        dst.push(src[i]);
        i += 1;
        proof {
            assert(dst@ =~= old(dst)@ + src@.subrange(0, i as int));
        }
    }
    proof {
        assert(src@.subrange(0, src@.len() as int) =~= src@);
    }
}

/// A copy of the bytes of `src` from `from` up to `to`.
pub fn copy_range(src: &[u8], from: usize, to: usize) -> (out: Vec<u8>)
    requires
        from <= to <= src@.len(),
    ensures
        out@ == src@.subrange(from as int, to as int),
{
    let mut out: Vec<u8> = Vec::new();
    let mut i: usize = from;
    while i < to
        invariant
            from <= i <= to,
            to <= src@.len(),
            out@ == src@.subrange(from as int, i as int),
        decreases to - i,
    {
        out.push(src[i]);
        i += 1;
        proof {
            assert(out@ =~= src@.subrange(from as int, i as int));
        }
    }
    out
}

/// Are the two byte strings equal?
pub fn same_bytes(a: &[u8], b: &[u8]) -> (same: bool)
    ensures
        same == (a@ == b@),
{
    if a.len() != b.len() {
        return false;
    }
    let mut i: usize = 0;
    while i < a.len()
        invariant
            i <= a.len(),
            a.len() == b.len(),
            forall|j: int| 0 <= j < i ==> a@[j] == b@[j],
        decreases a.len() - i,
    {
        if a[i] != b[i] {
            return false;
        }
        i += 1;
    }
    proof {
        assert(a@ =~= b@);
    }
    true
}

} // verus!
