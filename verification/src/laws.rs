//! Laws of the backup store, stated over the logical table models that the
//! operations' contracts use.
//!
//! Each operation's `ensures` pins the new table contents (an insert, a
//! remove, or a prefix-wide removal); the proof functions here state what
//! those table transformations mean when operations are chained: lookups
//! after writes, counts after additions and deletions, the effect of a
//! cascade delete, and etag growth.

use vstd::prelude::*;

use crate::backups::{entries_keyed_under, group_has, listed_session, listing_has, prefixed_keys};
use crate::codec::{
    backup_key, be_bytes_of, be_val, entry_key, is_prefix_of, lemma_backup_key_injective,
    lemma_be_roundtrip, lemma_entry_key_decodes, lemma_entry_key_injective, room_entry_prefix,
    room_of, session_of, valid_component, version_entry_prefix, SEP,
};

verus! {

/// A prefix of a prefix of `k` is a prefix of `k`.
pub proof fn lemma_prefix_transitive(p1: Seq<u8>, p2: Seq<u8>, k: Seq<u8>)
    requires
        is_prefix_of(p1, p2),
        is_prefix_of(p2, k),
    ensures
        is_prefix_of(p1, k),
{
    assert(k.subrange(0, p1.len() as int) =~= p1) by {
        assert(forall|i: int|
            0 <= i < p1.len() ==> k[i] == k.subrange(0, p2.len() as int)[i] && p1[i] == p2.subrange(
                0,
                p1.len() as int,
            )[i]);
    }
}

/// Law: once a backup's metadata is stored under its key, a lookup of the
/// same `(user, version)` yields exactly that metadata, while every other
/// `(user, version)` pair is untouched — the encoding being injective on
/// valid version components.
pub proof fn lemma_create_then_get(
    alg: Map<Seq<u8>, Seq<u8>>,
    u: Seq<u8>,
    v: Seq<u8>,
    meta: Seq<u8>,
    u2: Seq<u8>,
    v2: Seq<u8>,
)
    requires
        valid_component(v),
        valid_component(v2),
    ensures
        alg.insert(backup_key(u, v), meta).contains_key(backup_key(u, v)),
        alg.insert(backup_key(u, v), meta)[backup_key(u, v)] == meta,
        !(u2 == u && v2 == v) ==> (alg.insert(backup_key(u, v), meta).contains_key(
            backup_key(u2, v2),
        ) <==> alg.contains_key(backup_key(u2, v2))),
        !(u2 == u && v2 == v) && alg.contains_key(backup_key(u2, v2)) ==> alg.insert(
            backup_key(u, v),
            meta,
        )[backup_key(u2, v2)] == alg[backup_key(u2, v2)],
{
    if backup_key(u2, v2) == backup_key(u, v) {
        lemma_backup_key_injective(u2, v2, u, v);
    }
}

/// Law: stored key material is read back exactly by a lookup of the same
/// `(user, version, room, session)`; a second store under the same 4-tuple
/// replaces the material (the key is idempotent, the value is not); and no
/// other 4-tuple's entry is disturbed.
pub proof fn lemma_add_key_then_get_session(
    entries: Map<Seq<u8>, Seq<u8>>,
    u: Seq<u8>,
    v: Seq<u8>,
    r: Seq<u8>,
    s: Seq<u8>,
    d1: Seq<u8>,
    d2: Seq<u8>,
    u2: Seq<u8>,
    v2: Seq<u8>,
    r2: Seq<u8>,
    s2: Seq<u8>,
)
    requires
        valid_component(v),
        valid_component(r),
        valid_component(s),
        valid_component(v2),
        valid_component(r2),
        valid_component(s2),
    ensures
        entries.insert(entry_key(u, v, r, s), d1)[entry_key(u, v, r, s)] == d1,
        entries.insert(entry_key(u, v, r, s), d1).insert(entry_key(u, v, r, s), d2)
            == entries.insert(entry_key(u, v, r, s), d2),
        !(u2 == u && v2 == v && r2 == r && s2 == s) ==> (entries.insert(
            entry_key(u, v, r, s),
            d1,
        ).contains_key(entry_key(u2, v2, r2, s2)) <==> entries.contains_key(
            entry_key(u2, v2, r2, s2),
        )),
        !(u2 == u && v2 == v && r2 == r && s2 == s) && entries.contains_key(
            entry_key(u2, v2, r2, s2),
        ) ==> entries.insert(entry_key(u, v, r, s), d1)[entry_key(u2, v2, r2, s2)]
            == entries[entry_key(u2, v2, r2, s2)],
{
    assert(entries.insert(entry_key(u, v, r, s), d1).insert(entry_key(u, v, r, s), d2)
        =~= entries.insert(entry_key(u, v, r, s), d2));
    if entry_key(u2, v2, r2, s2) == entry_key(u, v, r, s) {
        lemma_entry_key_injective(u2, v2, r2, s2, u, v, r, s);
    }
}

/// Law: a version's key count is the cardinality of its prefixed key set;
/// adding an entry for a fresh `(room, session)` raises it by one, while
/// overwriting an existing pair leaves it unchanged.
pub proof fn lemma_count_after_add(
    entries: Map<Seq<u8>, Seq<u8>>,
    u: Seq<u8>,
    v: Seq<u8>,
    r: Seq<u8>,
    s: Seq<u8>,
    d: Seq<u8>,
)
    requires
        prefixed_keys(entries, version_entry_prefix(u, v)).finite(),
    ensures
        prefixed_keys(entries.insert(entry_key(u, v, r, s), d), version_entry_prefix(u, v))
            == prefixed_keys(entries, version_entry_prefix(u, v)).insert(entry_key(u, v, r, s)),
        !entries.contains_key(entry_key(u, v, r, s)) ==> prefixed_keys(
            entries.insert(entry_key(u, v, r, s), d),
            version_entry_prefix(u, v),
        ).len() == prefixed_keys(entries, version_entry_prefix(u, v)).len() + 1,
        entries.contains_key(entry_key(u, v, r, s)) ==> prefixed_keys(
            entries.insert(entry_key(u, v, r, s), d),
            version_entry_prefix(u, v),
        ).len() == prefixed_keys(entries, version_entry_prefix(u, v)).len(),
{
    let vp = version_entry_prefix(u, v);
    let ek = entry_key(u, v, r, s);
    assert(is_prefix_of(vp, ek)) by {
        assert(ek.subrange(0, vp.len() as int) =~= vp);
    }
    assert(prefixed_keys(entries.insert(ek, d), vp) =~= prefixed_keys(entries, vp).insert(ek));
    if entries.contains_key(ek) {
        assert(prefixed_keys(entries, vp).contains(ek));
        assert(prefixed_keys(entries, vp).insert(ek) =~= prefixed_keys(entries, vp));
    }
}

/// Law: deleting the entry of one `(room, session)` lowers the version's
/// key count by one when it was present (and changes nothing when it was
/// not) — provided no other stored key extends the deleted key, the full
/// key being used as a deletion prefix.
pub proof fn lemma_count_after_delete_one(
    entries: Map<Seq<u8>, Seq<u8>>,
    u: Seq<u8>,
    v: Seq<u8>,
    r: Seq<u8>,
    s: Seq<u8>,
)
    requires
        prefixed_keys(entries, version_entry_prefix(u, v)).finite(),
        forall|k: Seq<u8>|
            entries.contains_key(k) && #[trigger] is_prefix_of(entry_key(u, v, r, s), k) ==> k
                == entry_key(u, v, r, s),
    ensures
        prefixed_keys(
            entries.remove_keys(prefixed_keys(entries, entry_key(u, v, r, s))),
            version_entry_prefix(u, v),
        ) == prefixed_keys(entries, version_entry_prefix(u, v)).remove(entry_key(u, v, r, s)),
        entries.contains_key(entry_key(u, v, r, s)) ==> prefixed_keys(
            entries.remove_keys(prefixed_keys(entries, entry_key(u, v, r, s))),
            version_entry_prefix(u, v),
        ).len() == prefixed_keys(entries, version_entry_prefix(u, v)).len() - 1,
        !entries.contains_key(entry_key(u, v, r, s)) ==> prefixed_keys(
            entries.remove_keys(prefixed_keys(entries, entry_key(u, v, r, s))),
            version_entry_prefix(u, v),
        ).len() == prefixed_keys(entries, version_entry_prefix(u, v)).len(),
{
    let vp = version_entry_prefix(u, v);
    let ek = entry_key(u, v, r, s);
    assert(is_prefix_of(vp, ek)) by {
        assert(ek.subrange(0, vp.len() as int) =~= vp);
    }
    assert(is_prefix_of(ek, ek)) by {
        assert(ek.subrange(0, ek.len() as int) =~= ek);
    }
    assert(prefixed_keys(entries.remove_keys(prefixed_keys(entries, ek)), vp) =~= prefixed_keys(
        entries,
        vp,
    ).remove(ek));
    if entries.contains_key(ek) {
        assert(prefixed_keys(entries, vp).contains(ek));
    } else {
        assert(!prefixed_keys(entries, vp).contains(ek));
        assert(prefixed_keys(entries, vp).remove(ek) =~= prefixed_keys(entries, vp));
    }
}

/// Law: after a version's cascade delete, its metadata key is gone and its
/// key count is zero; deleting the same version again changes nothing.
pub proof fn lemma_delete_backup_clears(
    alg: Map<Seq<u8>, Seq<u8>>,
    entries: Map<Seq<u8>, Seq<u8>>,
    u: Seq<u8>,
    v: Seq<u8>,
)
    ensures
        !alg.remove(backup_key(u, v)).contains_key(backup_key(u, v)),
        prefixed_keys(
            entries.remove_keys(prefixed_keys(entries, version_entry_prefix(u, v))),
            version_entry_prefix(u, v),
        ).len() == 0,
        alg.remove(backup_key(u, v)).remove(backup_key(u, v)) == alg.remove(backup_key(u, v)),
        ({
            let cleared = entries.remove_keys(prefixed_keys(entries, version_entry_prefix(u, v)));
            cleared.remove_keys(prefixed_keys(cleared, version_entry_prefix(u, v))) == cleared
        }),
{
    let bk = backup_key(u, v);
    let vp = version_entry_prefix(u, v);
    let cleared = entries.remove_keys(prefixed_keys(entries, vp));
    assert forall|x: Seq<u8>| !(#[trigger] prefixed_keys(cleared, vp).contains(x)) by {
        if cleared.contains_key(x) && is_prefix_of(vp, x) {
            assert(prefixed_keys(entries, vp).contains(x));
        }
    }
    assert(prefixed_keys(cleared, vp) =~= Set::<Seq<u8>>::empty());
    assert(cleared.remove_keys(prefixed_keys(cleared, vp)) =~= cleared);
    assert(alg.remove(bk).remove(bk) =~= alg.remove(bk));
}

/// Law: a room-grouped listing that is sound and complete for a version's
/// entries — which is what the listing operation's contract states —
/// answers a lookup of valid `(room, session)` components exactly like the
/// entry table, provided every stored key under the version's prefix is a
/// well-formed entry key.
pub proof fn lemma_listing_lookup(
    m: Map<Seq<u8>, Seq<u8>>,
    groups: Seq<(Vec<u8>, Vec<(Vec<u8>, Vec<u8>)>)>,
    u: Seq<u8>,
    v: Seq<u8>,
    r: Seq<u8>,
    s: Seq<u8>,
)
    requires
        valid_component(r),
        valid_component(s),
        forall|k: Seq<u8>|
            m.contains_key(k) && #[trigger] is_prefix_of(version_entry_prefix(u, v), k)
                ==> group_has(groups, room_of(k), session_of(k), m[k]),
        forall|room: Seq<u8>, session: Seq<u8>, data: Seq<u8>|
            #[trigger] group_has(groups, room, session, data) ==> exists|k: Seq<u8>|
                m.contains_key(k) && #[trigger] is_prefix_of(version_entry_prefix(u, v), k)
                    && room_of(k) == room && session_of(k) == session && m[k] == data,
        entries_keyed_under(m, u, v),
    ensures
        m.contains_key(entry_key(u, v, r, s)) ==> group_has(
            groups,
            r,
            s,
            m[entry_key(u, v, r, s)],
        ),
        forall|d: Seq<u8>|
            #[trigger] group_has(groups, r, s, d) ==> m.contains_key(entry_key(u, v, r, s))
                && m[entry_key(u, v, r, s)] == d,
{
    let vp = version_entry_prefix(u, v);
    let ek = entry_key(u, v, r, s);
    assert(is_prefix_of(vp, ek)) by {
        assert(ek.subrange(0, vp.len() as int) =~= vp);
    }
    lemma_entry_key_decodes(u, v, r, s);
    assert forall|d: Seq<u8>| #[trigger] group_has(groups, r, s, d) implies m.contains_key(ek)
        && m[ek] == d by {
        let k = choose|k: Seq<u8>|
            m.contains_key(k) && #[trigger] is_prefix_of(vp, k) && room_of(k) == r && session_of(k)
                == s && m[k] == d;
        let (r2, s2) = choose|r2: Seq<u8>, s2: Seq<u8>|
            valid_component(r2) && valid_component(s2) && k == #[trigger] entry_key(u, v, r2, s2);
        lemma_entry_key_decodes(u, v, r2, s2);
        assert(r2 == r && s2 == s);
    }
}

/// Every key of the entry table is a well-formed entry key built from
/// valid components. The mutating operations keep this invariant: adding
/// an entry writes such a key, and deletions only remove keys.
pub open spec fn well_formed_entries(m: Map<Seq<u8>, Seq<u8>>) -> bool {
    forall|k: Seq<u8>| #[trigger]
        m.contains_key(k) ==> exists|u: Seq<u8>, v: Seq<u8>, r: Seq<u8>, s: Seq<u8>|
            valid_component(u) && valid_component(v) && valid_component(r) && valid_component(s)
                && k == #[trigger] entry_key(u, v, r, s)
}

/// Law: storing an entry under valid components preserves entry-table
/// well-formedness.
pub proof fn lemma_well_formed_after_add(
    m: Map<Seq<u8>, Seq<u8>>,
    u: Seq<u8>,
    v: Seq<u8>,
    r: Seq<u8>,
    s: Seq<u8>,
    d: Seq<u8>,
)
    requires
        well_formed_entries(m),
        valid_component(u),
        valid_component(v),
        valid_component(r),
        valid_component(s),
    ensures
        well_formed_entries(m.insert(entry_key(u, v, r, s), d)),
{
    assert forall|k: Seq<u8>| #[trigger]
        m.insert(entry_key(u, v, r, s), d).contains_key(k) implies exists|
        u2: Seq<u8>,
        v2: Seq<u8>,
        r2: Seq<u8>,
        s2: Seq<u8>,
    |
        valid_component(u2) && valid_component(v2) && valid_component(r2) && valid_component(s2)
            && k == #[trigger] entry_key(u2, v2, r2, s2) by {
        if k == entry_key(u, v, r, s) {
            assert(valid_component(u) && valid_component(v) && valid_component(r)
                && valid_component(s) && k == entry_key(u, v, r, s));
        } else {
            assert(m.contains_key(k));
        }
    }
}

/// Law: removing keys preserves entry-table well-formedness.
pub proof fn lemma_well_formed_after_remove(m: Map<Seq<u8>, Seq<u8>>, keys: Set<Seq<u8>>)
    requires
        well_formed_entries(m),
    ensures
        well_formed_entries(m.remove_keys(keys)),
{
    assert forall|k: Seq<u8>| #[trigger] m.remove_keys(keys).contains_key(k) implies exists|
        u2: Seq<u8>,
        v2: Seq<u8>,
        r2: Seq<u8>,
        s2: Seq<u8>,
    |
        valid_component(u2) && valid_component(v2) && valid_component(r2) && valid_component(s2)
            && k == #[trigger] entry_key(u2, v2, r2, s2) by {
        assert(m.contains_key(k));
    }
}

/// Law: in a well-formed entry table, a key under a version's scan prefix
/// parses as an entry key of exactly that user and version: neither a
/// valid user nor a valid version component can straddle a separator.
pub proof fn lemma_well_formed_localizes(
    m: Map<Seq<u8>, Seq<u8>>,
    u: Seq<u8>,
    v: Seq<u8>,
    k: Seq<u8>,
)
    requires
        well_formed_entries(m),
        m.contains_key(k),
        valid_component(u),
        valid_component(v),
        is_prefix_of(version_entry_prefix(u, v), k),
    ensures
        exists|r: Seq<u8>, s: Seq<u8>|
            valid_component(r) && valid_component(s) && k == #[trigger] entry_key(u, v, r, s),
{
    let (u2, v2, r2, s2) = choose|u2: Seq<u8>, v2: Seq<u8>, r2: Seq<u8>, s2: Seq<u8>|
        valid_component(u2) && valid_component(v2) && valid_component(r2) && valid_component(s2)
            && k == #[trigger] entry_key(u2, v2, r2, s2);
    let vp = version_entry_prefix(u, v);
    let tail = v2 + seq![SEP] + r2 + seq![SEP] + s2;
    assert(k =~= u2 + seq![SEP] + tail);
    assert(vp =~= u + seq![SEP] + (v + seq![SEP]));
    assert(forall|i: int| 0 <= i < vp.len() ==> k[i] == k.subrange(0, vp.len() as int)[i]);
    if u.len() < u2.len() {
        assert(vp[u.len() as int] == SEP);
        assert(k[u.len() as int] == u2[u.len() as int]);
        assert(false);
    } else if u.len() > u2.len() {
        assert(k[u2.len() as int] == SEP);
        assert(vp[u2.len() as int] == u[u2.len() as int]);
        assert(false);
    }
    assert(u2 =~= u) by {
        assert(forall|i: int| 0 <= i < u.len() ==> k[i] == u2[i] && vp[i] == u[i]);
    }
    let off = u.len() as int + 1;
    assert(forall|i: int| 0 <= i < tail.len() ==> k[off + i] == tail[i]);
    if v.len() < v2.len() {
        assert(vp[off + v.len() as int] == SEP);
        assert(k[off + v.len() as int] == v2[v.len() as int]);
        assert(false);
    } else if v.len() > v2.len() {
        assert(k[off + v2.len() as int] == SEP);
        assert(vp[off + v2.len() as int] == v[v2.len() as int]);
        assert(false);
    }
    assert(v2 =~= v) by {
        assert(forall|i: int| 0 <= i < v.len() ==> k[off + i] == v2[i] && vp[off + i] == v[i]);
    }
    assert(k == entry_key(u, v, r2, s2));
}

/// Law: in a well-formed entry table, every key under a valid user's and
/// version's scan prefix is a well-formed entry key of exactly that user
/// and version — the hypothesis under which the listing operations return
/// ordered, exactly decodable results.
pub proof fn lemma_well_formed_keys_under(m: Map<Seq<u8>, Seq<u8>>, u: Seq<u8>, v: Seq<u8>)
    requires
        well_formed_entries(m),
        valid_component(u),
        valid_component(v),
    ensures
        entries_keyed_under(m, u, v),
{
    assert forall|k: Seq<u8>|
        m.contains_key(k) && #[trigger] is_prefix_of(version_entry_prefix(u, v), k) implies exists|
        r: Seq<u8>,
        s: Seq<u8>,
    | valid_component(r) && valid_component(s) && k == #[trigger] entry_key(u, v, r, s) by {
        lemma_well_formed_localizes(m, u, v, k);
    }
}

/// A well-formed entry key that starts with a room's scan prefix belongs
/// to exactly that room: no valid room component can straddle the
/// separator.
pub proof fn lemma_room_prefix_forces_room(
    u: Seq<u8>,
    v: Seq<u8>,
    room: Seq<u8>,
    r2: Seq<u8>,
    s2: Seq<u8>,
)
    requires
        valid_component(room),
        valid_component(r2),
        is_prefix_of(room_entry_prefix(u, v, room), entry_key(u, v, r2, s2)),
    ensures
        r2 == room,
{
    let vp = version_entry_prefix(u, v);
    let rp = room_entry_prefix(u, v, room);
    let k = entry_key(u, v, r2, s2);
    assert(k =~= ((vp + r2) + seq![SEP]) + s2);
    assert(rp =~= (vp + room) + seq![SEP]);
    assert(forall|i: int| 0 <= i < rp.len() ==> k[i] == k.subrange(0, rp.len() as int)[i]);
    if room.len() < r2.len() {
        let at = vp.len() + room.len() as int;
        assert(rp[at] == SEP);
        assert(k[at] == r2[room.len() as int]);
        assert(false);
    } else if room.len() > r2.len() {
        let at = vp.len() + r2.len() as int;
        assert(k[at] == SEP);
        assert(rp[at] == room[r2.len() as int]);
        assert(false);
    } else {
        assert(r2 =~= room) by {
            assert(forall|i: int|
                0 <= i < room.len() ==> k[vp.len() + i] == r2[i] && rp[vp.len() + i] == room[i]);
        }
    }
}

/// Law: a per-room listing that is sound and complete for a room's entries
/// — which is what the room listing operation's contract states — answers
/// a lookup of a valid session component exactly like the entry table,
/// provided every stored key under the version's prefix is a well-formed
/// entry key.
pub proof fn lemma_room_listing_lookup(
    m: Map<Seq<u8>, Seq<u8>>,
    listing: Seq<(Vec<u8>, Vec<u8>)>,
    u: Seq<u8>,
    v: Seq<u8>,
    room: Seq<u8>,
    s: Seq<u8>,
)
    requires
        valid_component(room),
        valid_component(s),
        forall|k: Seq<u8>|
            m.contains_key(k) && #[trigger] is_prefix_of(room_entry_prefix(u, v, room), k)
                ==> listing_has(listing, session_of(k), m[k]),
        forall|i: int|
            0 <= i < listing.len() ==> listed_session(
                m,
                room_entry_prefix(u, v, room),
                (#[trigger] listing[i]).0@,
                listing[i].1@,
            ),
        entries_keyed_under(m, u, v),
    ensures
        m.contains_key(entry_key(u, v, room, s)) ==> listing_has(
            listing,
            s,
            m[entry_key(u, v, room, s)],
        ),
        forall|d: Seq<u8>|
            #[trigger] listing_has(listing, s, d) ==> m.contains_key(entry_key(u, v, room, s))
                && m[entry_key(u, v, room, s)] == d,
{
    let vp = version_entry_prefix(u, v);
    let rp = room_entry_prefix(u, v, room);
    let ek = entry_key(u, v, room, s);
    assert(is_prefix_of(rp, ek)) by {
        assert(ek.subrange(0, rp.len() as int) =~= rp);
    }
    assert(is_prefix_of(vp, rp)) by {
        assert(rp.subrange(0, vp.len() as int) =~= vp);
    }
    lemma_entry_key_decodes(u, v, room, s);
    assert forall|d: Seq<u8>| #[trigger] listing_has(listing, s, d) implies m.contains_key(ek)
        && m[ek] == d by {
        let i = choose|i: int| 0 <= i < listing.len() && (#[trigger] listing[i]).0@ == s
            && listing[i].1@ == d;
        assert(listed_session(m, rp, s, d));
        let k = choose|k: Seq<u8>|
            m.contains_key(k) && #[trigger] is_prefix_of(rp, k) && session_of(k) == s && m[k] == d;
        lemma_prefix_transitive(vp, rp, k);
        let (r2, s2) = choose|r2: Seq<u8>, s2: Seq<u8>|
            valid_component(r2) && valid_component(s2) && k == #[trigger] entry_key(u, v, r2, s2);
        lemma_room_prefix_forces_room(u, v, room, r2, s2);
        lemma_entry_key_decodes(u, v, r2, s2);
        assert(s2 == s);
    }
}

/// Every stored etag value is at most the counter's current count — true
/// of any store whose etags were all written by draws of this counter,
/// since each draw hands out a number it never hands out again.
pub open spec fn etags_bounded(etags: Map<Seq<u8>, Seq<u8>>, count: u64) -> bool {
    forall|k: Seq<u8>| #[trigger] etags.contains_key(k) ==> be_val(etags[k]) <= count as nat
}

/// Law: the etag of a backup version strictly increases, as an unsigned
/// integer, across every mutation — each metadata update and each added
/// key inserts the encoding of a freshly drawn count, strictly above the
/// bound on everything stored — and the bound carries to the new state, so
/// the growth continues across any chain of mutations.
pub proof fn lemma_etag_bound_after_mutation(
    etags: Map<Seq<u8>, Seq<u8>>,
    count: u64,
    key: Seq<u8>,
    fresh: u64,
)
    requires
        etags_bounded(etags, count),
        count < fresh,
    ensures
        etags_bounded(etags.insert(key, be_bytes_of(fresh)), fresh),
        be_val(etags.insert(key, be_bytes_of(fresh))[key]) == fresh as nat,
        etags.contains_key(key) ==> be_val(etags.insert(key, be_bytes_of(fresh))[key]) > be_val(
            etags[key],
        ),
{
    lemma_be_roundtrip(fresh);
    assert forall|k: Seq<u8>| #[trigger]
        etags.insert(key, be_bytes_of(fresh)).contains_key(k) implies be_val(
        etags.insert(key, be_bytes_of(fresh))[k],
    ) <= fresh as nat by {
        if k != key {
            assert(etags.contains_key(k));
        }
    }
}

/// Law: removing etags preserves the bound on everything stored.
pub proof fn lemma_etag_bound_after_remove(
    etags: Map<Seq<u8>, Seq<u8>>,
    count: u64,
    key: Seq<u8>,
)
    requires
        etags_bounded(etags, count),
    ensures
        etags_bounded(etags.remove(key), count),
{
    assert forall|k: Seq<u8>| #[trigger] etags.remove(key).contains_key(k) implies be_val(
        etags.remove(key)[k],
    ) <= count as nat by {
        assert(etags.contains_key(k));
    }
}

/// Law: a stored etag decodes to the counter value it was encoded from, so
/// etags written by later counter draws are strictly larger as unsigned
/// integers — every metadata update and every added key draws a fresh,
/// strictly larger count.
pub proof fn lemma_etag_strictly_increases(c1: u64, c2: u64)
    requires
        c1 < c2,
    ensures
        be_val(be_bytes_of(c1)) == c1 as nat,
        be_val(be_bytes_of(c2)) == c2 as nat,
        be_val(be_bytes_of(c1)) < be_val(be_bytes_of(c2)),
{
    lemma_be_roundtrip(c1);
    lemma_be_roundtrip(c2);
}

} // verus!
