//! Writing audit entries and whole logs to bytes, and reading them back.

use crate::access_rights::{AccessRights, Rights};
use crate::audit::{
    bound_encoding, grant_encoding, optional_grant_encoding, optional_principal_encoding, zeros,
    AuditEntry, AuditEntryType, AuditLog, AUDIT_ENTRY_SIZE,
};
use crate::bytes::append;
use crate::principal::Principal;
use vstd::bytes::{
    lemma_auto_spec_u64_to_from_le_bytes, spec_u64_to_le_bytes, u64_from_le_bytes,
    u64_to_le_bytes,
};
use vstd::prelude::*;
use vstd::slice::slice_subrange;

verus! {

/// Where each part of an entry stands in its stored form.
pub proof fn lemma_entry_layout(e: AuditEntry)
    ensures
        e.encoding().len() == AUDIT_ENTRY_SIZE,
        e.encoding()[0] == e.audit_type.code(),
        e.encoding().subrange(1, 9) == spec_u64_to_le_bytes(e.timestamp),
        e.encoding().subrange(9, 39) == e.caller.encoding(),
        e.encoding().subrange(39, 70) == optional_principal_encoding(e.user),
        e.encoding().subrange(70, 90) == optional_grant_encoding(e.access_rights),
{
    lemma_auto_spec_u64_to_from_le_bytes();
    e.caller.lemma_encoding_len();
    lemma_optional_lengths(e.user, e.access_rights);
    let enc = e.encoding();
    assert(enc.subrange(1, 9) =~= spec_u64_to_le_bytes(e.timestamp));
    assert(enc.subrange(9, 39) =~= e.caller.encoding());
    assert(enc.subrange(39, 70) =~= optional_principal_encoding(e.user));
    assert(enc.subrange(70, 90) =~= optional_grant_encoding(e.access_rights));
}

pub proof fn lemma_optional_lengths(user: Option<Principal>, grant: Option<AccessRights>)
    ensures
        optional_principal_encoding(user).len() == 31,
        optional_grant_encoding(grant).len() == 20,
{
    lemma_auto_spec_u64_to_from_le_bytes();
    if let Some(u) = user {
        u.lemma_encoding_len();
    }
}

/// A part that may be missing starts with a mark: 1 where it is there.
pub proof fn lemma_marks(bound: Option<u64>, user: Option<Principal>, grant: Option<AccessRights>)
    ensures
        bound_encoding(bound)[0] == (if bound is Some {
            1u8
        } else {
            0u8
        }),
        optional_principal_encoding(user)[0] == (if user is Some {
            1u8
        } else {
            0u8
        }),
        optional_grant_encoding(grant)[0] == (if grant is Some {
            1u8
        } else {
            0u8
        }),
{
}

pub proof fn lemma_bound_encoding_injective(a: Option<u64>, b: Option<u64>)
    requires
        bound_encoding(a) == bound_encoding(b),
    ensures
        a == b,
{
    lemma_auto_spec_u64_to_from_le_bytes();
    lemma_marks(a, None, None);
    lemma_marks(b, None, None);
    if let (Some(x), Some(y)) = (a, b) {
        assert(bound_encoding(a).subrange(1, 9) =~= spec_u64_to_le_bytes(x));
        assert(bound_encoding(b).subrange(1, 9) =~= spec_u64_to_le_bytes(y));
    }
}

pub proof fn lemma_grant_encoding_injective(a: AccessRights, b: AccessRights)
    requires
        grant_encoding(a) == grant_encoding(b),
    ensures
        a == b,
{
    lemma_auto_spec_u64_to_from_le_bytes();
    assert(grant_encoding(a)[0] == a.rights.code());
    assert(grant_encoding(b)[0] == b.rights.code());
    assert(grant_encoding(a).subrange(1, 10) =~= bound_encoding(a.start));
    assert(grant_encoding(b).subrange(1, 10) =~= bound_encoding(b.start));
    assert(grant_encoding(a).subrange(10, 19) =~= bound_encoding(a.end));
    assert(grant_encoding(b).subrange(10, 19) =~= bound_encoding(b.end));
    lemma_bound_encoding_injective(a.start, b.start);
    lemma_bound_encoding_injective(a.end, b.end);
}

pub proof fn lemma_optional_grant_encoding_injective(
    a: Option<AccessRights>,
    b: Option<AccessRights>,
)
    requires
        optional_grant_encoding(a) == optional_grant_encoding(b),
    ensures
        a == b,
{
    lemma_marks(None, None, a);
    lemma_marks(None, None, b);
    if let (Some(x), Some(y)) = (a, b) {
        lemma_auto_spec_u64_to_from_le_bytes();
        assert(optional_grant_encoding(a).subrange(1, 20) =~= grant_encoding(x));
        assert(optional_grant_encoding(b).subrange(1, 20) =~= grant_encoding(y));
        lemma_grant_encoding_injective(x, y);
    }
}

pub proof fn lemma_optional_principal_encoding_injective(
    a: Option<Principal>,
    b: Option<Principal>,
)
    requires
        optional_principal_encoding(a) == optional_principal_encoding(b),
    ensures
        a == b,
{
    lemma_marks(None, a, None);
    lemma_marks(None, b, None);
    if let (Some(x), Some(y)) = (a, b) {
        x.lemma_encoding_len();
        y.lemma_encoding_len();
        assert(optional_principal_encoding(a).subrange(1, 31) =~= x.encoding());
        assert(optional_principal_encoding(b).subrange(1, 31) =~= y.encoding());
        x.lemma_encoding_injective(y);
    }
}

/// Two entries with the same stored form are the same entry.
pub proof fn lemma_entry_encoding_injective(a: AuditEntry, b: AuditEntry)
    requires
        a.encoding() == b.encoding(),
    ensures
        a == b,
{
    lemma_entry_layout(a);
    lemma_entry_layout(b);
    lemma_auto_spec_u64_to_from_le_bytes();
    a.caller.lemma_encoding_injective(b.caller);
    lemma_optional_principal_encoding_injective(a.user, b.user);
    lemma_optional_grant_encoding_injective(a.access_rights, b.access_rights);
}

/// What is stored for an entry reads back as the entry.
pub proof fn lemma_entry_decoding_of_encoding(e: AuditEntry)
    ensures
        AuditEntry::decoding(e.encoding()) == Some(e),
{
    let found = choose|x: AuditEntry| x.encoding() == e.encoding();
    lemma_entry_encoding_injective(found, e);
}

/// Are the bytes from `from` up to `to` all zero?
fn all_zero(bytes: &[u8], from: usize, to: usize) -> (yes: bool)
    requires
        from <= to <= bytes@.len(),
    ensures
        yes == (bytes@.subrange(from as int, to as int) == zeros((to - from) as nat)),
{
    let mut i: usize = from;
    while i < to
        invariant
            from <= i <= to <= bytes@.len(),
            forall|j: int| from <= j < i ==> bytes@[j] == 0,
        decreases to - i,
    {
        if bytes[i] != 0 {
            proof {
                assert(bytes@.subrange(from as int, to as int)[i - from] != 0);
            }
            return false;
        }
        i += 1;
    }
    proof {
        assert(bytes@.subrange(from as int, to as int) =~= zeros((to - from) as nat));
    }
    true
}

/// Appends `n` zero bytes to `out`.
fn push_zeros(out: &mut Vec<u8>, n: usize)
    ensures
        final(out)@ == old(out)@ + zeros(n as nat),
{
    let mut i: usize = 0;
    while i < n
        invariant
            i <= n,
            out@ == old(out)@ + zeros(i as nat),
        decreases n - i,
    {
        out.push(0u8);
        i += 1;
        proof {
            assert(out@ =~= old(out)@ + zeros(i as nat));
        }
    }
}

fn encode_bound(bound: Option<u64>, out: &mut Vec<u8>)
    ensures
        final(out)@ == old(out)@ + bound_encoding(bound),
{
    match bound {
        Some(t) => {
            out.push(1u8);
            let word = u64_to_le_bytes(t);
            append(out, word.as_slice());
        },
        None => {
            out.push(0u8);
            push_zeros(out, 8);
        },
    }
    proof {
        assert(out@ =~= old(out)@ + bound_encoding(bound));
    }
}

fn encode_grant(grant: &AccessRights, out: &mut Vec<u8>)
    ensures
        final(out)@ == old(out)@ + grant_encoding(*grant),
{
    out.push(grant.rights.to_repr());
    encode_bound(grant.start, out);
    encode_bound(grant.end, out);
    proof {
        assert(out@ =~= old(out)@ + grant_encoding(*grant));
    }
}

/// The bound whose stored form stands in `bytes` at `at`; the outer `None`
/// where no bound is stored so.
fn decode_bound(bytes: &[u8], at: usize) -> (bound: Option<Option<u64>>)
    requires
        at + 9 <= bytes@.len(),
    ensures
        match bound {
            Some(b) => bound_encoding(b) == bytes@.subrange(at as int, at + 9),
            None => forall|b: Option<u64>|
                bound_encoding(b) != bytes@.subrange(at as int, at + 9),
        },
{
    let n: usize = bytes.len();
    let ghost part = bytes@.subrange(at as int, at + 9);
    proof {
        lemma_auto_spec_u64_to_from_le_bytes();
    }
    let mark = bytes[at];
    if mark == 1 {
        let t = u64_from_le_bytes(slice_subrange(bytes, at + 1, at + 9));
        proof {
            assert(bytes@.subrange(at + 1, at + 9).len() == 8);
            assert(bound_encoding(Some(t)) =~= part);
        }
        Some(Some(t))
    } else if mark == 0 {
        if all_zero(bytes, at + 1, at + 9) {
            proof {
                assert(bound_encoding(None) =~= part);
            }
            Some(None)
        } else {
            proof {
                assert forall|b: Option<u64>| bound_encoding(b) != part by {
                    if bound_encoding(b) == part {
                        assert(bound_encoding(b)[0] == 0);
                        assert(bound_encoding(b).subrange(1, 9) =~= zeros(8));
                        assert(part.subrange(1, 9) =~= bytes@.subrange(at + 1, at + 9));
                    }
                }
            }
            None
        }
    } else {
        proof {
            assert forall|b: Option<u64>| bound_encoding(b) != part by {
                assert(bound_encoding(b)[0] == 0 || bound_encoding(b)[0] == 1);
                assert(part[0] == mark);
            }
        }
        None
    }
}

/// The grant whose stored form stands in `bytes` at `at`, if one is stored so.
fn decode_grant(bytes: &[u8], at: usize) -> (grant: Option<AccessRights>)
    requires
        at + 19 <= bytes@.len(),
    ensures
        match grant {
            Some(g) => grant_encoding(g) == bytes@.subrange(at as int, at + 19),
            None => forall|g: AccessRights|
                grant_encoding(g) != bytes@.subrange(at as int, at + 19),
        },
{
    let n: usize = bytes.len();
    let ghost part = bytes@.subrange(at as int, at + 19);
    proof {
        lemma_auto_spec_u64_to_from_le_bytes();
        assert(part.subrange(1, 10) =~= bytes@.subrange(at + 1, at + 10));
        assert(part.subrange(10, 19) =~= bytes@.subrange(at + 10, at + 19));
        assert forall|g: AccessRights| grant_encoding(g) == part implies {
            &&& g.rights.code() == bytes@[at as int]
            &&& bound_encoding(g.start) == bytes@.subrange(at + 1, at + 10)
            &&& bound_encoding(g.end) == bytes@.subrange(at + 10, at + 19)
        } by {
            assert(grant_encoding(g)[0] == part[0]);
            assert(grant_encoding(g).subrange(1, 10) =~= bound_encoding(g.start));
            assert(grant_encoding(g).subrange(10, 19) =~= bound_encoding(g.end));
        }
    }
    let rights = match Rights::from_repr(bytes[at]) {
        Some(r) => r,
        None => {
            return None;
        },
    };
    let start = match decode_bound(bytes, at + 1) {
        Some(b) => b,
        None => {
            return None;
        },
    };
    let end = match decode_bound(bytes, at + 10) {
        Some(b) => b,
        None => {
            return None;
        },
    };
    let grant = AccessRights { rights, start, end };
    proof {
        assert(grant_encoding(grant) =~= part);
    }
    Some(grant)
}

impl AuditEntry {
    /// The 90 bytes under which the entry is stored.
    pub fn to_bytes(&self) -> (bytes: Vec<u8>)
        ensures
            bytes@ == self.encoding(),
    {
        let mut bytes: Vec<u8> = Vec::new();
        self.encode(&mut bytes);
        proof {
            assert(bytes@ =~= self.encoding());
        }
        bytes
    }

    /// Appends the stored form of the entry to `out`.
    pub fn encode(&self, out: &mut Vec<u8>)
        ensures
            final(out)@ == old(out)@ + self.encoding(),
    {
        out.push(self.audit_type.to_repr());
        let word = u64_to_le_bytes(self.timestamp);
        append(out, word.as_slice());
        self.caller.encode(out);
        match self.user {
            Some(user) => {
                out.push(1u8);
                user.encode(out);
            },
            None => {
                out.push(0u8);
                push_zeros(out, 30);
            },
        }
        match self.access_rights {
            Some(grant) => {
                out.push(1u8);
                encode_grant(&grant, out);
            },
            None => {
                out.push(0u8);
                push_zeros(out, 19);
            },
        }
        proof {
            assert(out@ =~= old(out)@ + self.encoding());
        }
    }

    /// The entry that `bytes` stores, if they are the stored form of one.
    pub fn from_bytes(bytes: &[u8]) -> (entry: Option<AuditEntry>)
        ensures
            entry == AuditEntry::decoding(bytes@),
    {
        if bytes.len() != AUDIT_ENTRY_SIZE {
            proof {
                assert forall|e: AuditEntry| e.encoding() != bytes@ by {
                    lemma_entry_layout(e);
                }
            }
            return None;
        }
        proof {
            assert(bytes@.subrange(0, AUDIT_ENTRY_SIZE as int) =~= bytes@);
        }
        AuditEntry::decode(bytes, 0)
    }

    /// The entry stored in the 90 bytes of `bytes` from `at` on, if they are
    /// the stored form of one.
    pub fn decode(bytes: &[u8], at: usize) -> (entry: Option<AuditEntry>)
        requires
            at + AUDIT_ENTRY_SIZE <= bytes@.len(),
        ensures
            entry == AuditEntry::decoding(bytes@.subrange(at as int, at + AUDIT_ENTRY_SIZE)),
    {
        let n: usize = bytes.len();
        let ghost part = bytes@.subrange(at as int, at + AUDIT_ENTRY_SIZE);
        proof {
            lemma_auto_spec_u64_to_from_le_bytes();
            assert(part.subrange(1, 9) =~= bytes@.subrange(at + 1, at + 9));
            assert(part.subrange(9, 39) =~= bytes@.subrange(at + 9, at + 39));
            assert(part.subrange(39, 70) =~= bytes@.subrange(at + 39, at + 70));
            assert(part.subrange(70, 90) =~= bytes@.subrange(at + 70, at + 90));
            assert forall|e: AuditEntry| e.encoding() == part implies {
                &&& e.audit_type.code() == bytes@[at as int]
                &&& optional_principal_encoding(e.user) == bytes@.subrange(at + 39, at + 70)
                &&& optional_grant_encoding(e.access_rights) == bytes@.subrange(
                    at + 70,
                    at + 90,
                )
            } by {
                lemma_entry_layout(e);
            }
        }
        let audit_type = match AuditEntryType::from_repr(bytes[at]) {
            Some(t) => t,
            None => {
                return None;
            },
        };
        let timestamp = u64_from_le_bytes(slice_subrange(bytes, at + 1, at + 9));
        let caller = Principal::decode(bytes, at + 9);
        let ghost user_part = bytes@.subrange(at + 39, at + 70);
        let user_mark = bytes[at + 39];
        let user = if user_mark == 1 {
            let u = Principal::decode(bytes, at + 40);
            proof {
                u.lemma_encoding_len();
                assert(optional_principal_encoding(Some(u)) =~= user_part);
            }
            Some(u)
        } else if user_mark == 0 && all_zero(bytes, at + 40, at + 70) {
            proof {
                assert(optional_principal_encoding(None) =~= user_part);
            }
            None
        } else {
            proof {
                assert forall|u: Option<Principal>|
                    optional_principal_encoding(u) != user_part by {
                    if optional_principal_encoding(u) == user_part {
                        assert(optional_principal_encoding(u)[0] == user_part[0]);
                        assert(optional_principal_encoding(u).subrange(1, 31) =~= zeros(30));
                        assert(user_part.subrange(1, 31) =~= bytes@.subrange(at + 40, at + 70));
                    }
                }
            }
            return None;
        };
        let ghost grant_part = bytes@.subrange(at + 70, at + 90);
        let grant_mark = bytes[at + 70];
        let access_rights = if grant_mark == 1 {
            proof {
                assert(grant_part.subrange(1, 20) =~= bytes@.subrange(at + 71, at + 90));
                assert forall|g: Option<AccessRights>|
                    optional_grant_encoding(g) == grant_part implies g is Some && grant_encoding(
                    g.unwrap(),
                ) == bytes@.subrange(at + 71, at + 90) by {
                    assert(optional_grant_encoding(g)[0] == grant_part[0]);
                    assert(optional_grant_encoding(g).subrange(1, 20) =~= grant_encoding(
                        g.unwrap(),
                    ));
                }
            }
            match decode_grant(bytes, at + 71) {
                Some(g) => {
                    proof {
                        assert(optional_grant_encoding(Some(g)) =~= grant_part);
                    }
                    Some(g)
                },
                None => {
                    return None;
                },
            }
        } else if grant_mark == 0 && all_zero(bytes, at + 71, at + 90) {
            proof {
                assert(optional_grant_encoding(None) =~= grant_part);
            }
            None
        } else {
            proof {
                assert forall|g: Option<AccessRights>|
                    optional_grant_encoding(g) != grant_part by {
                    if optional_grant_encoding(g) == grant_part {
                        assert(optional_grant_encoding(g)[0] == grant_part[0]);
                        assert(optional_grant_encoding(g).subrange(1, 20) =~= zeros(19));
                        assert(grant_part.subrange(1, 20) =~= bytes@.subrange(at + 71, at + 90));
                    }
                }
            }
            return None;
        };
        let entry = AuditEntry { audit_type, timestamp, caller, user, access_rights };
        proof {
            caller.lemma_encoding_len();
            lemma_optional_lengths(user, access_rights);
            assert(bytes@.subrange(at + 1, at + 9).len() == 8);
            assert(entry.encoding() =~= part);
            lemma_entry_decoding_of_encoding(entry);
        }
        Some(entry)
    }
}

/// The stored form of a log: the stored forms of its entries, one after
/// another, oldest first.
pub open spec fn log_encoding(log: Seq<AuditEntry>) -> Seq<u8>
    decreases log.len(),
{
    if log.len() == 0 {
        Seq::<u8>::empty()
    } else {
        log_encoding(log.drop_last()) + log.last().encoding()
    }
}

/// The log whose stored form is `bytes`, if there is one.
pub open spec fn log_decoding(bytes: Seq<u8>) -> Option<Seq<AuditEntry>> {
    if exists|log: Seq<AuditEntry>| log_encoding(log) == bytes {
        Some(choose|log: Seq<AuditEntry>| log_encoding(log) == bytes)
    } else {
        None
    }
}

/// Where each entry of a log stands in the log's stored form.
pub proof fn lemma_log_layout(log: Seq<AuditEntry>)
    ensures
        log_encoding(log).len() == log.len() * AUDIT_ENTRY_SIZE,
        forall|i: int|
            0 <= i < log.len() ==> #[trigger] log[i].encoding() == log_encoding(log).subrange(
                i * AUDIT_ENTRY_SIZE,
                i * AUDIT_ENTRY_SIZE + AUDIT_ENTRY_SIZE,
            ),
    decreases log.len(),
{
    if log.len() > 0 {
        let front = log.drop_last();
        lemma_log_layout(front);
        lemma_entry_layout(log.last());
        let enc = log_encoding(log);
        assert forall|i: int| 0 <= i < log.len() implies #[trigger] log[i].encoding()
            == enc.subrange(i * AUDIT_ENTRY_SIZE, i * AUDIT_ENTRY_SIZE + AUDIT_ENTRY_SIZE) by {
            if i < front.len() {
                assert(front[i] == log[i]);
                assert(enc.subrange(i * AUDIT_ENTRY_SIZE, i * AUDIT_ENTRY_SIZE + AUDIT_ENTRY_SIZE)
                    =~= log_encoding(front).subrange(
                    i * AUDIT_ENTRY_SIZE,
                    i * AUDIT_ENTRY_SIZE + AUDIT_ENTRY_SIZE,
                ));
            } else {
                assert(enc.subrange(i * AUDIT_ENTRY_SIZE, i * AUDIT_ENTRY_SIZE + AUDIT_ENTRY_SIZE)
                    =~= log.last().encoding());
            }
        }
    }
}

/// Two logs with the same stored form are the same log.
pub proof fn lemma_log_encoding_injective(a: Seq<AuditEntry>, b: Seq<AuditEntry>)
    requires
        log_encoding(a) == log_encoding(b),
    ensures
        a == b,
{
    lemma_log_layout(a);
    lemma_log_layout(b);
    assert(a.len() == b.len());
    assert forall|i: int| 0 <= i < a.len() implies a[i] == b[i] by {
        assert(a[i].encoding() == b[i].encoding());
        lemma_entry_encoding_injective(a[i], b[i]);
    }
    assert(a =~= b);
}

/// What is stored for a log reads back as the log.
pub proof fn lemma_log_decoding_of_encoding(log: Seq<AuditEntry>)
    ensures
        log_decoding(log_encoding(log)) == Some(log),
{
    let found = choose|x: Seq<AuditEntry>| log_encoding(x) == log_encoding(log);
    lemma_log_encoding_injective(found, log);
}

impl AuditLog {
    /// The bytes under which the log is stored.
    pub fn to_bytes(&self) -> (bytes: Vec<u8>)
        ensures
            bytes@ == log_encoding(self@),
    {
        let mut bytes: Vec<u8> = Vec::new();
        let mut i: usize = 0;
        while i < self.0.len()
            invariant
                i <= self.0.len(),
                bytes@ == log_encoding(self@.subrange(0, i as int)),
            decreases self.0.len() - i,
        {
            self.0[i].encode(&mut bytes);
            proof {
                let upto = self@.subrange(0, i + 1);
                assert(upto.drop_last() =~= self@.subrange(0, i as int));
                assert(upto.last() == self@[i as int]);
            }
            i += 1;
        }
        proof {
            assert(self@.subrange(0, self@.len() as int) =~= self@);
        }
        bytes
    }

    /// The log that `bytes` stores, if they are the stored form of one.
    pub fn from_bytes(bytes: &[u8]) -> (log: Option<AuditLog>)
        ensures
            match log {
                Some(l) => log_decoding(bytes@) == Some(l@),
                None => log_decoding(bytes@).is_none(),
            },
    {
        match decode_entries(bytes) {
            Some(entries) => Some(AuditLog(entries)),
            None => None,
        }
    }
}

/// The entries that `bytes` store one after another, if they do.
fn decode_entries(bytes: &[u8]) -> (log: Option<Vec<AuditEntry>>)
    ensures
        match log {
            Some(l) => log_decoding(bytes@) == Some(l@),
            None => log_decoding(bytes@).is_none(),
        },
{
    let n: usize = bytes.len();
    let mut out: Vec<AuditEntry> = Vec::new();
    let mut at: usize = 0;
    while n - at >= AUDIT_ENTRY_SIZE
        invariant
            n == bytes@.len(),
            at <= n,
            at == out.len() * AUDIT_ENTRY_SIZE,
            log_encoding(out@) == bytes@.subrange(0, at as int),
        decreases n - at,
    {
        let ghost part = bytes@.subrange(at as int, at + AUDIT_ENTRY_SIZE);
        match AuditEntry::decode(bytes, at) {
            Some(entry) => {
                proof {
                    let next = out@.push(entry);
                    assert(next.drop_last() =~= out@);
                    assert(entry.encoding() == part);
                    assert(log_encoding(next) =~= bytes@.subrange(0, at + AUDIT_ENTRY_SIZE));
                }
                out.push(entry);
                at += AUDIT_ENTRY_SIZE;
            },
            None => {
                proof {
                    assert forall|l: Seq<AuditEntry>| log_encoding(l) != bytes@ by {
                        if log_encoding(l) == bytes@ {
                            lemma_log_layout(l);
                            let i = out.len() as int;
                            assert(l[i].encoding() == part);
                        }
                    }
                }
                return None;
            },
        }
    }
    if at != n {
        proof {
            assert forall|l: Seq<AuditEntry>| log_encoding(l) != bytes@ by {
                if log_encoding(l) == bytes@ {
                    lemma_log_layout(l);
                    assert(l.len() * 90 == n);
                    assert(out.len() * 90 == at);
                    assert(n - at < 90);
                }
            }
        }
        return None;
    }
    proof {
        assert(bytes@.subrange(0, n as int) =~= bytes@);
        lemma_log_decoding_of_encoding(out@);
    }
    Some(out)
}

} // verus!
