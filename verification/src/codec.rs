//! The key codec: hierarchical identifiers (user, version, room, session)
//! encoded into flat composite byte keys, separated by one reserved byte
//! that no identifier component may contain.
//!
//! Also holds the two value codecs: decimal rendering of counter values
//! (version identifiers, rendered etags) and the 8-byte big-endian encoding
//! of stored etags.

use vstd::prelude::*;

use crate::Error;

verus! {

/// The reserved separator byte. Identifier components must not contain it.
pub const SEP: u8 = 0xff;

/// An identifier component is valid when it does not contain the separator.
pub open spec fn valid_component(s: Seq<u8>) -> bool {
    forall|i: int| 0 <= i < s.len() ==> s[i] != SEP
}

/// Key of the metadata and etag tables: `user 0xFF version`.
pub open spec fn backup_key(user: Seq<u8>, version: Seq<u8>) -> Seq<u8> {
    user + seq![SEP] + version
}

/// Scan prefix selecting every metadata row of one user.
pub open spec fn version_scan_prefix(user: Seq<u8>) -> Seq<u8> {
    user + seq![SEP]
}

/// Key of the entry table: `user 0xFF version 0xFF room 0xFF session`.
pub open spec fn entry_key(user: Seq<u8>, version: Seq<u8>, room: Seq<u8>, session: Seq<u8>) -> Seq<u8> {
    backup_key(user, version) + seq![SEP] + room + seq![SEP] + session
}

/// Scan prefix selecting every entry of one backup version.
pub open spec fn version_entry_prefix(user: Seq<u8>, version: Seq<u8>) -> Seq<u8> {
    backup_key(user, version) + seq![SEP]
}

/// Scan prefix selecting every entry of one room within a version.
pub open spec fn room_entry_prefix(user: Seq<u8>, version: Seq<u8>, room: Seq<u8>) -> Seq<u8> {
    version_entry_prefix(user, version) + room + seq![SEP]
}

/// `p` is an initial segment of `k`.
pub open spec fn is_prefix_of(p: Seq<u8>, k: Seq<u8>) -> bool {
    p.len() <= k.len() && k.subrange(0, p.len() as int) == p
}

/// Strict byte-lexicographic order, the order the underlying store keeps
/// its keys in.
pub open spec fn lex_lt(a: Seq<u8>, b: Seq<u8>) -> bool
    decreases a.len(),
{
    if b.len() == 0 {
        false
    } else if a.len() == 0 {
        true
    } else if a[0] < b[0] {
        true
    } else if a[0] > b[0] {
        false
    } else {
        lex_lt(a.drop_first(), b.drop_first())
    }
}

pub open spec fn lex_leq(a: Seq<u8>, b: Seq<u8>) -> bool {
    lex_lt(a, b) || a == b
}

pub proof fn lemma_lex_lt_irreflexive(a: Seq<u8>)
    ensures
        !lex_lt(a, a),
    decreases a.len(),
{
    if a.len() > 0 {
        lemma_lex_lt_irreflexive(a.drop_first());
    }
}

pub proof fn lemma_lex_lt_transitive(a: Seq<u8>, b: Seq<u8>, c: Seq<u8>)
    requires
        lex_lt(a, b),
        lex_lt(b, c),
    ensures
        lex_lt(a, c),
    decreases a.len(),
{
    if a.len() > 0 && a[0] == b[0] && b[0] == c[0] {
        lemma_lex_lt_transitive(a.drop_first(), b.drop_first(), c.drop_first());
    }
}

/// A shared prefix does not affect the order of what follows it.
pub proof fn lemma_lex_lt_common_prefix(p: Seq<u8>, a: Seq<u8>, b: Seq<u8>)
    ensures
        lex_lt(p + a, p + b) == lex_lt(a, b),
    decreases p.len(),
{
    if p.len() == 0 {
        assert(p + a =~= a);
        assert(p + b =~= b);
    } else {
        assert((p + a)[0] == p[0] && (p + b)[0] == p[0]);
        assert((p + a).drop_first() =~= p.drop_first() + a);
        assert((p + b).drop_first() =~= p.drop_first() + b);
        lemma_lex_lt_common_prefix(p.drop_first(), a, b);
    }
}

/// Two keys continuing with distinct separator-free components are ordered
/// before anything after the separator matters: the separator, being the
/// largest byte, fences the comparison.
pub proof fn lemma_lex_lt_sep_bounded(r1: Seq<u8>, s1: Seq<u8>, r2: Seq<u8>, s2: Seq<u8>)
    requires
        valid_component(r1),
        valid_component(r2),
        r1 != r2,
    ensures
        lex_lt(r1 + seq![SEP] + s1, r2 + seq![SEP] + s2) == lex_lt(r1 + seq![SEP], r2 + seq![SEP]),
    decreases r1.len(),
{
    let x1 = r1 + seq![SEP] + s1;
    let x2 = r2 + seq![SEP] + s2;
    let y1 = r1 + seq![SEP];
    let y2 = r2 + seq![SEP];
    if r1.len() == 0 {
        assert(r2.len() > 0) by {
            if r2.len() == 0 {
                assert(r1 =~= r2);
            }
        }
        assert(x1[0] == SEP && y1[0] == SEP);
        assert(x2[0] == r2[0] && y2[0] == r2[0]);
        assert(r2[0] != SEP);
        assert(!lex_lt(x1, x2) && !lex_lt(y1, y2));
    } else if r2.len() == 0 {
        assert(x1[0] == r1[0] && y1[0] == r1[0]);
        assert(x2[0] == SEP && y2[0] == SEP);
        assert(r1[0] != SEP);
        assert(lex_lt(x1, x2) && lex_lt(y1, y2));
    } else if r1[0] != r2[0] {
        assert(x1[0] == r1[0] && x2[0] == r2[0]);
        assert(y1[0] == r1[0] && y2[0] == r2[0]);
    } else {
        assert(r1.drop_first() != r2.drop_first()) by {
            if r1.drop_first() == r2.drop_first() {
                assert(r1.drop_first().len() == r2.drop_first().len());
                assert(r1.len() == r2.len());
                assert forall|i: int| 0 <= i < r1.len() implies r1[i] == r2[i] by {
                    if i > 0 {
                        assert(r1.drop_first()[i - 1] == r2.drop_first()[i - 1]);
                    }
                }
                assert(r1 =~= r2);
            }
        }
        assert(valid_component(r1.drop_first()) && valid_component(r2.drop_first()));
        assert(x1.drop_first() =~= r1.drop_first() + seq![SEP] + s1);
        assert(x2.drop_first() =~= r2.drop_first() + seq![SEP] + s2);
        assert(y1.drop_first() =~= r1.drop_first() + seq![SEP]);
        assert(y2.drop_first() =~= r2.drop_first() + seq![SEP]);
        assert(x1[0] == r1[0] && x2[0] == r2[0] && y1[0] == r1[0] && y2[0] == r2[0]);
        lemma_lex_lt_sep_bounded(r1.drop_first(), s1, r2.drop_first(), s2);
    }
}

/// The suffix of `k` after its last separator; `k` itself if it has none.
/// Decoding splits from the right because the rightmost components are
/// atomic while the remaining prefix may itself be compound.
pub open spec fn after_last_sep(k: Seq<u8>) -> Seq<u8>
    decreases k.len(),
{
    if k.len() == 0 {
        Seq::<u8>::empty()
    } else if k.last() == SEP {
        Seq::<u8>::empty()
    } else {
        after_last_sep(k.drop_last()).push(k.last())
    }
}

/// The prefix of `k` before its last separator; empty if it has none.
pub open spec fn before_last_sep(k: Seq<u8>) -> Seq<u8>
    decreases k.len(),
{
    if k.len() == 0 {
        Seq::<u8>::empty()
    } else if k.last() == SEP {
        k.drop_last()
    } else {
        before_last_sep(k.drop_last())
    }
}

/// How many separator bytes `k` contains.
pub open spec fn sep_count(k: Seq<u8>) -> nat
    decreases k.len(),
{
    if k.len() == 0 {
        0
    } else if k.last() == SEP {
        1 + sep_count(k.drop_last())
    } else {
        sep_count(k.drop_last())
    }
}

/// The room an entry key decodes to: the second segment from the right.
pub open spec fn room_of(k: Seq<u8>) -> Seq<u8> {
    after_last_sep(before_last_sep(k))
}

/// The session an entry key decodes to: the rightmost segment.
pub open spec fn session_of(k: Seq<u8>) -> Seq<u8> {
    after_last_sep(k)
}

/// Splitting a key of the form `x 0xFF b`, with `b` a valid component,
/// recovers `b` and `x` exactly.
pub proof fn lemma_split_concat(x: Seq<u8>, b: Seq<u8>)
    requires
        valid_component(b),
    ensures
        after_last_sep(x + seq![SEP] + b) == b,
        before_last_sep(x + seq![SEP] + b) == x,
        sep_count(x + seq![SEP] + b) == sep_count(x) + 1,
    decreases b.len(),
{
    let k = x + seq![SEP] + b;
    if b.len() == 0 {
        assert(k.last() == SEP);
        assert(k.drop_last() =~= x);
        assert(after_last_sep(k) =~= b);
    } else {
        assert(k.last() == b.last());
        assert(b.last() != SEP);
        assert(k.drop_last() =~= x + seq![SEP] + b.drop_last());
        assert(valid_component(b.drop_last()));
        lemma_split_concat(x, b.drop_last());
        assert(after_last_sep(k) =~= b.drop_last().push(b.last()));
        assert(b.drop_last().push(b.last()) =~= b);
    }
}

/// A key without separators splits into itself and an empty remainder.
pub proof fn lemma_split_no_sep(k: Seq<u8>)
    requires
        sep_count(k) == 0,
    ensures
        after_last_sep(k) == k,
        valid_component(k),
    decreases k.len(),
{
    if k.len() > 0 {
        assert(k.last() != SEP);
        lemma_split_no_sep(k.drop_last());
        assert(after_last_sep(k) =~= k.drop_last().push(k.last()));
        assert(k.drop_last().push(k.last()) =~= k);
        assert(forall|i: int| 0 <= i < k.len() - 1 ==> k[i] == k.drop_last()[i]);
    }
}

/// A valid component contains no separator at all.
pub proof fn lemma_component_sep_count(k: Seq<u8>)
    requires
        valid_component(k),
    ensures
        sep_count(k) == 0,
    decreases k.len(),
{
    if k.len() > 0 {
        assert(valid_component(k.drop_last()));
        lemma_component_sep_count(k.drop_last());
    }
}

/// Taking off the rightmost segment consumes exactly one separator.
pub proof fn lemma_sep_count_before(k: Seq<u8>)
    requires
        sep_count(k) >= 1,
    ensures
        sep_count(before_last_sep(k)) == sep_count(k) - 1,
    decreases k.len(),
{
    if k.len() > 0 && k.last() != SEP {
        lemma_sep_count_before(k.drop_last());
    }
}

/// Separators are counted segment by segment across a concatenation.
pub proof fn lemma_sep_count_concat(a: Seq<u8>, b: Seq<u8>)
    ensures
        sep_count(a + b) == sep_count(a) + sep_count(b),
    decreases b.len(),
{
    if b.len() == 0 {
        assert(a + b =~= a);
    } else {
        assert((a + b).drop_last() =~= a + b.drop_last());
        assert((a + b).last() == b.last());
        lemma_sep_count_concat(a, b.drop_last());
    }
}

/// Appending a separator raises the count by one.
pub proof fn lemma_sep_count_append_sep(x: Seq<u8>)
    ensures
        sep_count(x + seq![SEP]) == sep_count(x) + 1,
{
    assert((x + seq![SEP]).last() == SEP);
    assert((x + seq![SEP]).drop_last() =~= x);
}

/// A key that extends a prefix has at least the prefix's separators.
pub proof fn lemma_sep_count_prefix(p: Seq<u8>, k: Seq<u8>)
    requires
        is_prefix_of(p, k),
    ensures
        sep_count(k) >= sep_count(p),
{
    assert(k =~= p + k.subrange(p.len() as int, k.len() as int));
    lemma_sep_count_concat(p, k.subrange(p.len() as int, k.len() as int));
}

/// The version-and-etag-table encoding is injective on valid components.
pub proof fn lemma_backup_key_injective(u1: Seq<u8>, v1: Seq<u8>, u2: Seq<u8>, v2: Seq<u8>)
    requires
        valid_component(v1),
        valid_component(v2),
        backup_key(u1, v1) == backup_key(u2, v2),
    ensures
        u1 == u2,
        v1 == v2,
{
    lemma_split_concat(u1, v1);
    lemma_split_concat(u2, v2);
}

/// The entry-table encoding is injective on valid components.
pub proof fn lemma_entry_key_injective(
    u1: Seq<u8>, v1: Seq<u8>, r1: Seq<u8>, s1: Seq<u8>,
    u2: Seq<u8>, v2: Seq<u8>, r2: Seq<u8>, s2: Seq<u8>,
)
    requires
        valid_component(v1),
        valid_component(r1),
        valid_component(s1),
        valid_component(v2),
        valid_component(r2),
        valid_component(s2),
        entry_key(u1, v1, r1, s1) == entry_key(u2, v2, r2, s2),
    ensures
        u1 == u2,
        v1 == v2,
        r1 == r2,
        s1 == s2,
{
    lemma_split_concat(backup_key(u1, v1) + seq![SEP] + r1, s1);
    lemma_split_concat(backup_key(u2, v2) + seq![SEP] + r2, s2);
    lemma_split_concat(backup_key(u1, v1), r1);
    lemma_split_concat(backup_key(u2, v2), r2);
    lemma_backup_key_injective(u1, v1, u2, v2);
}

/// A key that continues a separator-terminated prefix with a valid
/// component has exactly that continuation as its rightmost segment.
pub proof fn lemma_session_of_flat_key(p: Seq<u8>, k: Seq<u8>)
    requires
        p.len() >= 1,
        p.last() == SEP,
        is_prefix_of(p, k),
        valid_component(k.subrange(p.len() as int, k.len() as int)),
    ensures
        after_last_sep(k) == k.subrange(p.len() as int, k.len() as int),
{
    let suffix = k.subrange(p.len() as int, k.len() as int);
    assert(forall|i: int| 0 <= i < p.len() ==> k[i] == k.subrange(0, p.len() as int)[i]);
    assert(k =~= p.drop_last() + seq![SEP] + suffix);
    lemma_split_concat(p.drop_last(), suffix);
}

/// A well-formed backup key decodes back to the user and version it was
/// built from: the version is the segment after the last separator.
pub proof fn lemma_backup_key_decodes(u: Seq<u8>, v: Seq<u8>)
    requires
        valid_component(v),
    ensures
        after_last_sep(backup_key(u, v)) == v,
        before_last_sep(backup_key(u, v)) == u,
{
    lemma_split_concat(u, v);
}

/// A well-formed entry key decodes back to the components it was built from.
pub proof fn lemma_entry_key_decodes(u: Seq<u8>, v: Seq<u8>, r: Seq<u8>, s: Seq<u8>)
    requires
        valid_component(r),
        valid_component(s),
    ensures
        session_of(entry_key(u, v, r, s)) == s,
        room_of(entry_key(u, v, r, s)) == r,
        before_last_sep(before_last_sep(entry_key(u, v, r, s))) == backup_key(u, v),
{
    lemma_split_concat(backup_key(u, v) + seq![SEP] + r, s);
    lemma_split_concat(backup_key(u, v), r);
}

// ---------------------------------------------------------------------------
// Executable byte-vector helpers
// ---------------------------------------------------------------------------

/// Appends all of `src` to `dst`.
pub fn push_all(dst: &mut Vec<u8>, src: &Vec<u8>)
    ensures
        final(dst)@ == old(dst)@ + src@,
{
    let mut i: usize = 0;
    while i < src.len()
        invariant
            i <= src@.len(),
            dst@ == old(dst)@ + src@.take(i as int),
        decreases src@.len() - i,
    {
        let b = src[i];
        dst.push(b);
        proof {
            assert(src@.take(i as int).push(b) =~= src@.take(i + 1));
        }
        i = i + 1;
    }
    proof {
        assert(src@.take(src@.len() as int) =~= src@);
    }
}

/// A fresh copy of a byte vector.
pub fn copy_bytes(src: &Vec<u8>) -> (r: Vec<u8>)
    ensures
        r@ == src@,
{
    let mut r: Vec<u8> = Vec::new();
    push_all(&mut r, src);
    proof {
        assert(Seq::<u8>::empty() + src@ =~= src@);
    }
    r
}

/// The bytes of `v` from `start` (inclusive) to `end` (exclusive).
pub fn sub_bytes(v: &Vec<u8>, start: usize, end: usize) -> (r: Vec<u8>)
    requires
        start <= end <= v@.len(),
    ensures
        r@ == v@.subrange(start as int, end as int),
{
    let mut r: Vec<u8> = Vec::new();
    let mut i: usize = start;
    while i < end
        invariant
            start <= i <= end <= v@.len(),
            r@ == v@.subrange(start as int, i as int),
        decreases end - i,
    {
        let b = v[i];
        r.push(b);
        proof {
            assert(v@.subrange(start as int, i as int).push(b) =~= v@.subrange(
                start as int,
                i + 1,
            ));
        }
        i = i + 1;
    }
    r
}

/// Byte-for-byte equality of two vectors.
pub fn bytes_eq(a: &Vec<u8>, b: &Vec<u8>) -> (r: bool)
    ensures
        r == (a@ == b@),
{
    if a.len() != b.len() {
        assert(a@ != b@);
        return false;
    }
    let mut i: usize = 0;
    while i < a.len()
        invariant
            i <= a@.len(),
            a@.len() == b@.len(),
            forall|j: int| 0 <= j < i ==> a@[j] == b@[j],
        decreases a@.len() - i,
    {
        if a[i] != b[i] {
            return false;
        }
        i = i + 1;
    }
    proof {
        assert(a@ =~= b@);
    }
    true
}

// ---------------------------------------------------------------------------
// Executable key builders
// ---------------------------------------------------------------------------

pub fn backup_key_bytes(user: &Vec<u8>, version: &Vec<u8>) -> (k: Vec<u8>)
    ensures
        k@ == backup_key(user@, version@),
{
    let mut k: Vec<u8> = Vec::new();
    push_all(&mut k, user);
    k.push(SEP);
    push_all(&mut k, version);
    proof {
        assert(k@ =~= backup_key(user@, version@));
    }
    k
}

pub fn version_scan_prefix_bytes(user: &Vec<u8>) -> (k: Vec<u8>)
    ensures
        k@ == version_scan_prefix(user@),
{
    let mut k: Vec<u8> = Vec::new();
    push_all(&mut k, user);
    k.push(SEP);
    proof {
        assert(k@ =~= version_scan_prefix(user@));
    }
    k
}

pub fn version_entry_prefix_bytes(user: &Vec<u8>, version: &Vec<u8>) -> (k: Vec<u8>)
    ensures
        k@ == version_entry_prefix(user@, version@),
{
    let mut k = backup_key_bytes(user, version);
    k.push(SEP);
    proof {
        assert(k@ =~= version_entry_prefix(user@, version@));
    }
    k
}

pub fn room_entry_prefix_bytes(user: &Vec<u8>, version: &Vec<u8>, room: &Vec<u8>) -> (k: Vec<u8>)
    ensures
        k@ == room_entry_prefix(user@, version@, room@),
{
    let mut k = version_entry_prefix_bytes(user, version);
    push_all(&mut k, room);
    k.push(SEP);
    proof {
        assert(k@ =~= room_entry_prefix(user@, version@, room@));
    }
    k
}

pub fn entry_key_bytes(user: &Vec<u8>, version: &Vec<u8>, room: &Vec<u8>, session: &Vec<u8>) -> (k:
    Vec<u8>)
    ensures
        k@ == entry_key(user@, version@, room@, session@),
{
    let mut k = backup_key_bytes(user, version);
    k.push(SEP);
    push_all(&mut k, room);
    k.push(SEP);
    push_all(&mut k, session);
    proof {
        assert(k@ =~= entry_key(user@, version@, room@, session@));
    }
    k
}

// ---------------------------------------------------------------------------
// Executable decoding
// ---------------------------------------------------------------------------

/// Relates an explicit last-separator position to the splitting functions.
proof fn lemma_split_at_index(k: Seq<u8>, j: int)
    requires
        0 <= j < k.len(),
        k[j] == SEP,
        forall|t: int| j < t < k.len() ==> k[t] != SEP,
    ensures
        sep_count(k) >= 1,
        before_last_sep(k) == k.subrange(0, j),
        after_last_sep(k) == k.subrange(j + 1, k.len() as int),
    decreases k.len(),
{
    if j == k.len() - 1 {
        assert(k.last() == SEP);
        assert(k.drop_last() =~= k.subrange(0, j));
        assert(after_last_sep(k) =~= k.subrange(j + 1, k.len() as int));
    } else {
        assert(k.last() != SEP);
        lemma_split_at_index(k.drop_last(), j);
        assert(k.drop_last().subrange(0, j) =~= k.subrange(0, j));
        assert(before_last_sep(k) == before_last_sep(k.drop_last()));
        assert(k.drop_last().subrange(j + 1, k.len() - 1).push(k.last()) =~= k.subrange(
            j + 1,
            k.len() as int,
        ));
    }
}

/// Splits `k` at its last separator: `Some((before, after))`, or `None` if
/// `k` contains no separator.
pub fn split_last_sep(k: &Vec<u8>) -> (r: Option<(Vec<u8>, Vec<u8>)>)
    ensures
        match r {
            Some(p) => sep_count(k@) >= 1 && p.0@ == before_last_sep(k@) && p.1@ == after_last_sep(
                k@,
            ),
            None => sep_count(k@) == 0,
        },
{
    let mut i: usize = k.len();
    while i > 0
        invariant
            i <= k@.len(),
            forall|t: int| i <= t < k@.len() ==> k@[t] != SEP,
        decreases i,
    {
        i = i - 1;
        if k[i] == SEP {
            let before = sub_bytes(k, 0, i);
            let after = sub_bytes(k, i + 1, k.len());
            proof {
                lemma_split_at_index(k@, i as int);
            }
            return Some((before, after));
        }
    }
    proof {
        assert(valid_component(k@));
        lemma_component_sep_count(k@);
    }
    None
}

/// Decodes an entry key from the right: the rightmost segment is the
/// session, the next one the room, and the remaining prefix is left as it
/// stands. Fails when fewer than two separators are present.
pub fn split_entry_key(k: &Vec<u8>) -> (r: Result<(Vec<u8>, Vec<u8>, Vec<u8>), Error>)
    ensures
        sep_count(k@) >= 2 ==> (r matches Ok(t) && t.0@ == before_last_sep(before_last_sep(k@))
            && t.1@ == room_of(k@) && t.2@ == session_of(k@)),
        sep_count(k@) < 2 ==> r == Err::<(Vec<u8>, Vec<u8>, Vec<u8>), Error>(Error::DataCorruption),
{
    match split_last_sep(k) {
        None => Err(Error::DataCorruption),
        Some(p) => {
            let session = p.1;
            proof {
                lemma_sep_count_before(k@);
            }
            match split_last_sep(&p.0) {
                None => Err(Error::DataCorruption),
                Some(q) => Ok((q.0, q.1, session)),
            }
        },
    }
}

/// The rightmost separator-delimited segment of `k` (all of `k` if it has
/// no separator).
pub fn after_last_sep_bytes(k: &Vec<u8>) -> (r: Vec<u8>)
    ensures
        r@ == after_last_sep(k@),
{
    match split_last_sep(k) {
        Some(p) => p.1,
        None => {
            proof {
                lemma_split_no_sep(k@);
            }
            copy_bytes(k)
        },
    }
}

// ---------------------------------------------------------------------------
// Decimal rendering of counter values
// ---------------------------------------------------------------------------

/// The decimal digits of `n`, most significant first, no leading zeros.
pub open spec fn dec_digits(n: nat) -> Seq<u8>
    decreases n,
{
    if n < 10 {
        seq![(0x30 + n) as u8]
    } else {
        dec_digits(n / 10).push((0x30 + n % 10) as u8)
    }
}

/// Decimal digits never contain the separator, so a rendered counter value
/// is always a valid identifier component.
pub proof fn lemma_dec_digits_valid(n: nat)
    ensures
        valid_component(dec_digits(n)),
        dec_digits(n).len() >= 1,
    decreases n,
{
    if n >= 10 {
        lemma_dec_digits_valid(n / 10);
    }
}

/// Decimal rendering has no leading zeros, so distinct counter values
/// yield distinct version identifiers: a version identifier is never
/// reused.
pub proof fn lemma_dec_digits_injective(n1: nat, n2: nat)
    requires
        dec_digits(n1) == dec_digits(n2),
    ensures
        n1 == n2,
    decreases n1,
{
    lemma_dec_digits_valid(n1);
    lemma_dec_digits_valid(n2);
    if n1 < 10 && n2 < 10 {
        assert(dec_digits(n1)[0] == (0x30 + n1) as u8);
    } else if n1 >= 10 && n2 >= 10 {
        assert(dec_digits(n1).last() == (0x30 + n1 % 10) as u8);
        assert(dec_digits(n1).drop_last() =~= dec_digits(n1 / 10));
        assert(dec_digits(n2).drop_last() =~= dec_digits(n2 / 10));
        lemma_dec_digits_injective(n1 / 10, n2 / 10);
    } else {
        let big = if n1 >= 10 {
            n1
        } else {
            n2
        };
        assert(dec_digits(big).len() >= 2) by {
            lemma_dec_digits_valid(big / 10);
        }
    }
}

/// Renders `n` in decimal.
pub fn u64_to_dec(n: u64) -> (r: Vec<u8>)
    ensures
        r@ == dec_digits(n as nat),
    decreases n,
{
    if n < 10 {
        let mut r: Vec<u8> = Vec::new();
        r.push(0x30 + (n as u8));
        proof {
            assert(r@ =~= dec_digits(n as nat));
        }
        r
    } else {
        let mut r = u64_to_dec(n / 10);
        r.push(0x30 + ((n % 10) as u8));
        r
    }
}

// ---------------------------------------------------------------------------
// Big-endian etag encoding
// ---------------------------------------------------------------------------

/// The value of a byte string read as a big-endian unsigned integer.
pub open spec fn be_val(s: Seq<u8>) -> nat
    decreases s.len(),
{
    if s.len() == 0 {
        0
    } else {
        be_val(s.drop_last()) * 256 + s.last() as nat
    }
}

/// The low `len` bytes of `n`, most significant first.
pub open spec fn be_bytes_rec(n: nat, len: nat) -> Seq<u8>
    decreases len,
{
    if len == 0 {
        Seq::<u8>::empty()
    } else {
        be_bytes_rec(n / 256, (len - 1) as nat).push((n % 256) as u8)
    }
}

/// The 8-byte big-endian encoding of a counter value, the stored form of an
/// etag.
pub open spec fn be_bytes_of(n: u64) -> Seq<u8> {
    be_bytes_rec(n as nat, 8)
}

pub open spec fn pow256(len: nat) -> nat
    decreases len,
{
    if len == 0 {
        1
    } else {
        256 * pow256((len - 1) as nat)
    }
}

pub proof fn lemma_pow256_pos(len: nat)
    ensures
        pow256(len) >= 1,
    decreases len,
{
    if len > 0 {
        lemma_pow256_pos((len - 1) as nat);
    }
}

pub proof fn lemma_pow256_mono(a: nat, b: nat)
    requires
        a <= b,
    ensures
        pow256(a) <= pow256(b),
    decreases b,
{
    if a < b {
        lemma_pow256_mono(a, (b - 1) as nat);
        lemma_pow256_pos((b - 1) as nat);
    }
}

pub proof fn lemma_be_val_bound(s: Seq<u8>)
    ensures
        be_val(s) < pow256(s.len()),
    decreases s.len(),
{
    if s.len() > 0 {
        lemma_be_val_bound(s.drop_last());
        assert(be_val(s.drop_last()) * 256 <= (pow256((s.len() - 1) as nat) - 1) * 256) by (nonlinear_arith)
            requires
                be_val(s.drop_last()) <= pow256((s.len() - 1) as nat) - 1,
        ;
    }
}

pub proof fn lemma_be_rec_val(n: nat, len: nat)
    ensures
        be_bytes_rec(n, len).len() == len,
        be_val(be_bytes_rec(n, len)) == n % pow256(len),
    decreases len,
{
    if len == 0 {
        assert(n % 1 == 0) by (nonlinear_arith);
    } else {
        lemma_be_rec_val(n / 256, (len - 1) as nat);
        let s = be_bytes_rec(n, len);
        assert(s.drop_last() =~= be_bytes_rec(n / 256, (len - 1) as nat));
        lemma_pow256_pos((len - 1) as nat);
        vstd::arithmetic::div_mod::lemma_mod_breakdown(
            n as int,
            256,
            pow256((len - 1) as nat) as int,
        );
    }
}

/// An etag round-trips: decoding its stored 8-byte form yields the counter
/// value it was made from.
pub proof fn lemma_be_roundtrip(n: u64)
    ensures
        be_bytes_of(n).len() == 8,
        be_val(be_bytes_of(n)) == n as nat,
{
    lemma_be_rec_val(n as nat, 8);
    assert(pow256(8) == 0x10000000000000000) by {
        reveal_with_fuel(pow256, 9);
    }
    vstd::arithmetic::div_mod::lemma_small_mod(n as nat, pow256(8));
}

/// Encodes the low `len` bytes of `n`, most significant first.
fn be_encode_rec(n: u64, len: u8) -> (r: Vec<u8>)
    ensures
        r@ == be_bytes_rec(n as nat, len as nat),
    decreases len,
{
    if len == 0 {
        Vec::new()
    } else {
        let mut r = be_encode_rec(n / 256, len - 1);
        r.push((n % 256) as u8);
        r
    }
}

/// The stored form of an etag: 8 bytes, big-endian.
pub fn u64_to_be(n: u64) -> (r: Vec<u8>)
    ensures
        r@ == be_bytes_of(n),
{
    be_encode_rec(n, 8)
}

/// Reads a stored etag value. Exactly 8 bytes are required; anything else
/// is corruption.
pub fn be_to_u64(bytes: &Vec<u8>) -> (r: Result<u64, Error>)
    ensures
        bytes@.len() == 8 ==> (r matches Ok(v) && v as nat == be_val(bytes@)),
        bytes@.len() != 8 ==> r == Err::<u64, Error>(Error::DataCorruption),
{
    if bytes.len() != 8 {
        return Err(Error::DataCorruption);
    }
    let ghost s = bytes@;
    let mut acc: u64 = 0;
    let mut i: usize = 0;
    proof {
        assert(s.take(0) =~= Seq::<u8>::empty());
    }
    while i < 8
        invariant
            i <= 8,
            bytes@ == s,
            s.len() == 8,
            acc as nat == be_val(s.take(i as int)),
        decreases 8 - i,
    {
        proof {
            lemma_be_val_bound(s.take(i as int));
            lemma_pow256_mono(i as nat, 7);
            assert(pow256(7) == 0x100000000000000) by {
                reveal_with_fuel(pow256, 8);
            }
        }
        let b = bytes[i];
        acc = acc * 256 + (b as u64);
        proof {
            assert(s.take(i + 1).drop_last() =~= s.take(i as int));
            assert(s.take(i + 1).last() == b);
        }
        i = i + 1;
    }
    proof {
        assert(s.take(8) =~= s);
    }
    Ok(acc)
}

} // verus!
