//! The backup store: three logical tables (version metadata, version etag,
//! per-session entries) kept in an ordered byte store and addressed through
//! the key codec.
//!
//! Every operation's contract is stated over the logical contents of the
//! three tables, each a `Map<Seq<u8>, Seq<u8>>`. Identifier components
//! (user, version, room, session) are byte strings that must not contain
//! the separator byte; that precondition belongs to the caller and is not
//! validated here. A store failure can interrupt a multi-write operation
//! between writes; nothing is claimed about the tables in that case beyond
//! what the per-call contracts give.

use vstd::prelude::*;

use crate::codec::{
    after_last_sep, after_last_sep_bytes, backup_key, backup_key_bytes, be_val, be_bytes_of,
    be_to_u64, bytes_eq, copy_bytes, dec_digits, entry_key, entry_key_bytes, is_prefix_of,
    lemma_entry_key_decodes, lemma_lex_lt_common_prefix, lemma_lex_lt_irreflexive,
    lemma_lex_lt_sep_bounded, lemma_lex_lt_transitive, lemma_sep_count_append_sep,
    lemma_sep_count_concat, lemma_sep_count_prefix, lemma_session_of_flat_key, lex_leq, lex_lt,
    room_entry_prefix, room_entry_prefix_bytes, room_of,
    session_of, sep_count, split_entry_key, u64_to_be, u64_to_dec, valid_component,
    version_entry_prefix,
    version_entry_prefix_bytes, version_scan_prefix, version_scan_prefix_bytes, SEP,
};
use crate::store::{tree_del, tree_entries, tree_get, tree_put, tree_scan_prefix};
use crate::Counter;
use crate::Error;

verus! {

/// The keys of `m` that start with `p`.
pub open spec fn prefixed_keys(m: Map<Seq<u8>, Seq<u8>>, p: Seq<u8>) -> Set<Seq<u8>> {
    m.dom().filter(|k: Seq<u8>| is_prefix_of(p, k))
}

/// `groups` (a room-grouped listing) holds `data` under `room` and
/// `session`.
pub open spec fn group_has(
    groups: Seq<(Vec<u8>, Vec<(Vec<u8>, Vec<u8>)>)>,
    room: Seq<u8>,
    session: Seq<u8>,
    data: Seq<u8>,
) -> bool {
    exists|i: int, j: int|
        0 <= i < groups.len() && 0 <= j < groups[i].1@.len() && groups[i].0@ == room && (
        #[trigger] groups[i].1@[j]).0@ == session && groups[i].1@[j].1@ == data
}

/// Some stored entry under prefix `p` of `m` decodes to `session` and
/// holds `data`.
pub open spec fn listed_session(
    m: Map<Seq<u8>, Seq<u8>>,
    p: Seq<u8>,
    session: Seq<u8>,
    data: Seq<u8>,
) -> bool {
    exists|k: Seq<u8>|
        m.contains_key(k) && #[trigger] is_prefix_of(p, k) && session_of(k) == session && m[k]
            == data
}

/// The listing `v` holds `data` under `session`.
pub open spec fn listing_has(v: Seq<(Vec<u8>, Vec<u8>)>, session: Seq<u8>, data: Seq<u8>) -> bool {
    exists|i: int| 0 <= i < v.len() && (#[trigger] v[i]).0@ == session && v[i].1@ == data
}

/// Every stored key under prefix `p` continues with a single valid
/// component: nothing under the prefix carries a further separator.
pub open spec fn flat_under(m: Map<Seq<u8>, Seq<u8>>, p: Seq<u8>) -> bool {
    forall|k: Seq<u8>|
        m.contains_key(k) && #[trigger] is_prefix_of(p, k) ==> valid_component(
            k.subrange(p.len() as int, k.len() as int),
        )
}

/// Every stored key under the version's scan prefix is a well-formed
/// entry key of that user and version, built from valid room and session
/// components.
pub open spec fn entries_keyed_under(m: Map<Seq<u8>, Seq<u8>>, u: Seq<u8>, v: Seq<u8>) -> bool {
    forall|k: Seq<u8>|
        m.contains_key(k) && #[trigger] is_prefix_of(version_entry_prefix(u, v), k) ==> exists|
            r: Seq<u8>,
            s: Seq<u8>,
        | valid_component(r) && valid_component(s) && k == #[trigger] entry_key(u, v, r, s)
}

/// The sessions of a listing strictly ascend in byte order.
pub open spec fn ascending_sessions(v: Seq<(Vec<u8>, Vec<u8>)>) -> bool {
    forall|i: int, j: int|
        0 <= i < j < v.len() ==> lex_lt((#[trigger] v[i]).0@, (#[trigger] v[j]).0@)
}

/// Groups ascend by room — compared with the separator appended, the
/// order the key space gives rooms — and sessions strictly ascend within
/// each group.
pub open spec fn ordered_groups(groups: Seq<(Vec<u8>, Vec<(Vec<u8>, Vec<u8>)>)>) -> bool {
    &&& forall|g: int, h: int|
        0 <= g < h < groups.len() ==> lex_lt(
            (#[trigger] groups[g]).0@ + seq![SEP],
            (#[trigger] groups[h]).0@ + seq![SEP],
        )
    &&& forall|g: int| 0 <= g < groups.len() ==> ascending_sessions((#[trigger] groups[g]).1@)
}

/// How many sessions a room-grouped listing holds in all.
pub open spec fn sessions_total(groups: Seq<(Vec<u8>, Vec<(Vec<u8>, Vec<u8>)>)>) -> nat
    decreases groups.len(),
{
    if groups.len() == 0 {
        0
    } else {
        sessions_total(groups.drop_last()) + groups.last().1@.len()
    }
}

/// The per-user versioned key-backup store.
///
/// Three trees of one ordered byte store: metadata and etag are keyed by
/// `user 0xFF version`, entries by `user 0xFF version 0xFF room 0xFF
/// session`.
pub struct KeyBackups {
    backupid_algorithm: sled::Tree,
    backupid_etag: sled::Tree,
    backupkeyid_backup: sled::Tree,
}

impl KeyBackups {
    /// The metadata table: backup key to encoded algorithm metadata.
    pub closed spec fn algorithms(self) -> Map<Seq<u8>, Seq<u8>> {
        tree_entries(self.backupid_algorithm)
    }

    /// The etag table: backup key to 8-byte big-endian counter value.
    pub closed spec fn etags(self) -> Map<Seq<u8>, Seq<u8>> {
        tree_entries(self.backupid_etag)
    }

    /// The entry table: entry key to escrowed key material.
    pub closed spec fn entries(self) -> Map<Seq<u8>, Seq<u8>> {
        tree_entries(self.backupkeyid_backup)
    }

    pub fn new(
        backupid_algorithm: sled::Tree,
        backupid_etag: sled::Tree,
        backupkeyid_backup: sled::Tree,
    ) -> (s: KeyBackups)
        ensures
            s.algorithms() == tree_entries(backupid_algorithm),
            s.etags() == tree_entries(backupid_etag),
            s.entries() == tree_entries(backupkeyid_backup),
    {
        KeyBackups { backupid_algorithm, backupid_etag, backupkeyid_backup }
    }

    /// Creates a new backup version for `user_id`: draws a fresh version
    /// number, stores the metadata, then stores a fresh etag. Returns the
    /// decimal version identifier.
    pub fn create_backup(
        &mut self,
        user_id: &Vec<u8>,
        backup_metadata: &Vec<u8>,
        counter: &mut Counter,
    ) -> (r: Result<Vec<u8>, Error>)
        requires
            old(counter).count() < u64::MAX - 1,
        ensures
            ({
                let version = dec_digits((old(counter).count() + 1) as nat);
                let key = backup_key(user_id@, version);
                &&& (r matches Ok(v) ==> {
                    &&& v@ == version
                    &&& final(counter).count() == old(counter).count() + 2
                    &&& final(self).algorithms() == old(self).algorithms().insert(
                        key,
                        backup_metadata@,
                    )
                    &&& final(self).etags() == old(self).etags().insert(
                        key,
                        be_bytes_of((old(counter).count() + 2) as u64),
                    )
                })
                &&& (r matches Err(e) ==> e == Error::StoreFailure)
                &&& final(self).entries() == old(self).entries()
                &&& old(counter).count() <= final(counter).count() <= old(counter).count() + 2
            }),
    {
        let count = counter.next_count();
        let version = u64_to_dec(count);
        let key = backup_key_bytes(user_id, &version);
        match tree_put(&mut self.backupid_algorithm, &key, backup_metadata) {
            Ok(u) => {},
            Err(_) => {
                return Err(Error::StoreFailure);
            },
        }
        let etag_count = counter.next_count();
        let etag = u64_to_be(etag_count);
        match tree_put(&mut self.backupid_etag, &key, &etag) {
            Ok(u) => {},
            Err(_) => {
                return Err(Error::StoreFailure);
            },
        }
        Ok(version)
    }

    /// Overwrites the metadata of an existing backup version and bumps its
    /// etag. Fails with `NotFound`, changing nothing, when the version has
    /// no metadata.
    pub fn update_backup(
        &mut self,
        user_id: &Vec<u8>,
        version: &Vec<u8>,
        backup_metadata: &Vec<u8>,
        counter: &mut Counter,
    ) -> (r: Result<Vec<u8>, Error>)
        requires
            old(counter).count() < u64::MAX,
        ensures
            ({
                let key = backup_key(user_id@, version@);
                &&& (r matches Ok(v) ==> {
                    &&& v@ == version@
                    &&& old(self).algorithms().contains_key(key)
                    &&& final(counter).count() == old(counter).count() + 1
                    &&& final(self).algorithms() == old(self).algorithms().insert(
                        key,
                        backup_metadata@,
                    )
                    &&& final(self).etags() == old(self).etags().insert(
                        key,
                        be_bytes_of((old(counter).count() + 1) as u64),
                    )
                })
                &&& (r == Err::<Vec<u8>, Error>(Error::NotFound) ==> {
                    &&& !old(self).algorithms().contains_key(key)
                    &&& final(self).algorithms() == old(self).algorithms()
                    &&& final(self).etags() == old(self).etags()
                    &&& final(counter).count() == old(counter).count()
                })
                &&& (old(self).algorithms().contains_key(key) ==> r != Err::<Vec<u8>, Error>(
                    Error::NotFound,
                ))
                &&& (r matches Err(e) ==> e == Error::NotFound || e == Error::StoreFailure)
                &&& final(self).entries() == old(self).entries()
                &&& old(counter).count() <= final(counter).count() <= old(counter).count() + 1
            }),
    {
        let key = backup_key_bytes(user_id, version);
        match tree_get(&self.backupid_algorithm, &key) {
            Err(_) => {
                return Err(Error::StoreFailure);
            },
            Ok(None) => {
                return Err(Error::NotFound);
            },
            Ok(Some(existing)) => {},
        }
        match tree_put(&mut self.backupid_algorithm, &key, backup_metadata) {
            Ok(u) => {},
            Err(_) => {
                return Err(Error::StoreFailure);
            },
        }
        let etag_count = counter.next_count();
        let etag = u64_to_be(etag_count);
        match tree_put(&mut self.backupid_etag, &key, &etag) {
            Ok(u) => {},
            Err(_) => {
                return Err(Error::StoreFailure);
            },
        }
        Ok(copy_bytes(version))
    }

    /// Stores (or overwrites) one escrowed session key under an existing
    /// backup version, bumping the version's etag first. Fails with
    /// `NotFound`, changing nothing, when the version has no metadata.
    pub fn add_key(
        &mut self,
        user_id: &Vec<u8>,
        version: &Vec<u8>,
        room_id: &Vec<u8>,
        session_id: &Vec<u8>,
        key_data: &Vec<u8>,
        counter: &mut Counter,
    ) -> (r: Result<(), Error>)
        requires
            old(counter).count() < u64::MAX,
        ensures
            ({
                let bkey = backup_key(user_id@, version@);
                let ekey = entry_key(user_id@, version@, room_id@, session_id@);
                &&& (r matches Ok(u) ==> {
                    &&& old(self).algorithms().contains_key(bkey)
                    &&& final(counter).count() == old(counter).count() + 1
                    &&& final(self).etags() == old(self).etags().insert(
                        bkey,
                        be_bytes_of((old(counter).count() + 1) as u64),
                    )
                    &&& final(self).entries() == old(self).entries().insert(ekey, key_data@)
                })
                &&& (r == Err::<(), Error>(Error::NotFound) ==> {
                    &&& !old(self).algorithms().contains_key(bkey)
                    &&& final(self).etags() == old(self).etags()
                    &&& final(self).entries() == old(self).entries()
                    &&& final(counter).count() == old(counter).count()
                })
                &&& (old(self).algorithms().contains_key(bkey) ==> r != Err::<(), Error>(
                    Error::NotFound,
                ))
                &&& (r matches Err(e) ==> e == Error::NotFound || e == Error::StoreFailure)
                &&& final(self).algorithms() == old(self).algorithms()
                &&& old(counter).count() <= final(counter).count() <= old(counter).count() + 1
            }),
    {
        let bkey = backup_key_bytes(user_id, version);
        match tree_get(&self.backupid_algorithm, &bkey) {
            Err(_) => {
                return Err(Error::StoreFailure);
            },
            Ok(None) => {
                return Err(Error::NotFound);
            },
            Ok(Some(existing)) => {},
        }
        let etag_count = counter.next_count();
        let etag = u64_to_be(etag_count);
        match tree_put(&mut self.backupid_etag, &bkey, &etag) {
            Ok(u) => {},
            Err(_) => {
                return Err(Error::StoreFailure);
            },
        }
        let ekey = entry_key_bytes(user_id, version, room_id, session_id);
        match tree_put(&mut self.backupkeyid_backup, &ekey, key_data) {
            Ok(u) => {},
            Err(_) => {
                return Err(Error::StoreFailure);
            },
        }
        Ok(())
    }

    /// Removes the metadata and etag of a backup version, then
    /// cascade-deletes every entry under it. Removing what does not exist
    /// is a no-op, so the operation is idempotent.
    pub fn delete_backup(&mut self, user_id: &Vec<u8>, version: &Vec<u8>) -> (r: Result<(), Error>)
        ensures
            ({
                let key = backup_key(user_id@, version@);
                let p = version_entry_prefix(user_id@, version@);
                &&& (r matches Ok(u) ==> {
                    &&& final(self).algorithms() == old(self).algorithms().remove(key)
                    &&& final(self).etags() == old(self).etags().remove(key)
                    &&& final(self).entries() == old(self).entries().remove_keys(
                        prefixed_keys(old(self).entries(), p),
                    )
                })
                &&& (r matches Err(e) ==> e == Error::StoreFailure)
            }),
    {
        let key = backup_key_bytes(user_id, version);
        match tree_del(&mut self.backupid_algorithm, &key) {
            Ok(u) => {},
            Err(_) => {
                return Err(Error::StoreFailure);
            },
        }
        match tree_del(&mut self.backupid_etag, &key) {
            Ok(u) => {},
            Err(_) => {
                return Err(Error::StoreFailure);
            },
        }
        let mut prefix = key;
        prefix.push(SEP);
        proof {
            assert(prefix@ =~= version_entry_prefix(user_id@, version@));
        }
        remove_prefixed(&mut self.backupkeyid_backup, &prefix)
    }

    /// Returns the metadata of the backup version of `user_id` whose
    /// encoded key sorts last, together with the version identifier decoded
    /// from that key. Versions are compared as byte strings, not as
    /// numbers.
    pub fn get_latest_backup(&self, user_id: &Vec<u8>) -> (r: Result<
        Option<(Vec<u8>, Vec<u8>)>,
        Error,
    >)
        ensures
            ({
                let p = version_scan_prefix(user_id@);
                &&& (r matches Ok(o) ==> match o {
                    None => forall|k: Seq<u8>|
                        self.algorithms().contains_key(k) ==> !(#[trigger] is_prefix_of(p, k)),
                    Some(pair) => exists|k: Seq<u8>|
                        {
                            &&& #[trigger] self.algorithms().contains_key(k)
                            &&& is_prefix_of(p, k)
                            &&& pair.0@ == after_last_sep(k)
                            &&& pair.1@ == self.algorithms()[k]
                            &&& forall|k2: Seq<u8>|
                                self.algorithms().contains_key(k2) && #[trigger] is_prefix_of(
                                    p,
                                    k2,
                                ) ==> lex_leq(k2, k)
                        },
                })
                &&& (r matches Err(e) ==> e == Error::StoreFailure)
            }),
    {
        let prefix = version_scan_prefix_bytes(user_id);
        let pairs = match tree_scan_prefix(&self.backupid_algorithm, &prefix) {
            Ok(p) => p,
            Err(_) => {
                return Err(Error::StoreFailure);
            },
        };
        if pairs.len() == 0 {
            return Ok(None);
        }
        let n = pairs.len();
        let version = after_last_sep_bytes(&pairs[n - 1].0);
        let meta = copy_bytes(&pairs[n - 1].1);
        proof {
            let k = pairs@[n - 1].0@;
            assert(self.algorithms().contains_key(k));
            assert forall|k2: Seq<u8>|
                self.algorithms().contains_key(k2) && #[trigger] is_prefix_of(
                    prefix@,
                    k2,
                ) implies lex_leq(k2, k) by {
                let j = choose|j: int| 0 <= j < pairs@.len() && (#[trigger] pairs@[j].0)@ == k2;
                if j < n - 1 {
                    assert(lex_lt(pairs@[j].0@, pairs@[n - 1].0@));
                }
            }
        }
        Ok(Some((version, meta)))
    }

    /// Point lookup of a backup version's metadata.
    pub fn get_backup(&self, user_id: &Vec<u8>, version: &Vec<u8>) -> (r: Result<
        Option<Vec<u8>>,
        Error,
    >)
        ensures
            ({
                let key = backup_key(user_id@, version@);
                &&& (r matches Ok(o) ==> match o {
                    Some(m) => self.algorithms().contains_key(key) && m@ == self.algorithms()[key],
                    None => !self.algorithms().contains_key(key),
                })
                &&& (r matches Err(e) ==> e == Error::StoreFailure)
            }),
    {
        let key = backup_key_bytes(user_id, version);
        match tree_get(&self.backupid_algorithm, &key) {
            Err(_) => Err(Error::StoreFailure),
            Ok(o) => Ok(o),
        }
    }

    /// Counts every escrowed session key of one backup version: the
    /// entries under the separator-terminated prefix `user 0xFF version
    /// 0xFF`, so exactly that version's entries.
    pub fn count_keys(&self, user_id: &Vec<u8>, version: &Vec<u8>) -> (r: Result<usize, Error>)
        ensures
            ({
                let p = version_entry_prefix(user_id@, version@);
                &&& (r matches Ok(n) ==> n as nat == prefixed_keys(self.entries(), p).len())
                &&& (r matches Err(e) ==> e == Error::StoreFailure)
            }),
    {
        let prefix = version_entry_prefix_bytes(user_id, version);
        let pairs = match tree_scan_prefix(&self.backupkeyid_backup, &prefix) {
            Ok(p) => p,
            Err(_) => {
                return Err(Error::StoreFailure);
            },
        };
        proof {
            lemma_scan_counts_prefixed(self.entries(), prefix@, pairs@);
        }
        Ok(pairs.len())
    }

    /// Reads the stored etag of a backup version and renders it in
    /// decimal. An existing version must always have a stored 8-byte etag;
    /// anything else is reported as corruption.
    pub fn get_etag(&self, user_id: &Vec<u8>, version: &Vec<u8>) -> (r: Result<Vec<u8>, Error>)
        ensures
            ({
                let key = backup_key(user_id@, version@);
                &&& (r matches Ok(d) ==> self.etags().contains_key(key) && self.etags()[key].len()
                    == 8 && d@ == dec_digits(be_val(self.etags()[key])))
                &&& (r == Err::<Vec<u8>, Error>(Error::DataCorruption) ==> (!self.etags(
                ).contains_key(key) || self.etags()[key].len() != 8))
                &&& (r matches Err(e) ==> e == Error::DataCorruption || e == Error::StoreFailure)
            }),
    {
        let key = backup_key_bytes(user_id, version);
        match tree_get(&self.backupid_etag, &key) {
            Err(_) => Err(Error::StoreFailure),
            Ok(None) => Err(Error::DataCorruption),
            Ok(Some(stored)) => match be_to_u64(&stored) {
                Err(_) => Err(Error::DataCorruption),
                Ok(n) => Ok(u64_to_dec(n)),
            },
        }
    }

    /// Lists every entry of a backup version, grouped by room: each group
    /// is a room with its sessions and their key material, adjacent groups
    /// holding different rooms. Rooms and sessions are decoded from the
    /// right of each key.
    pub fn get_all(&self, user_id: &Vec<u8>, version: &Vec<u8>) -> (r: Result<
        Vec<(Vec<u8>, Vec<(Vec<u8>, Vec<u8>)>)>,
        Error,
    >)
        ensures
            ({
                let p = version_entry_prefix(user_id@, version@);
                &&& (r matches Ok(groups) ==> {
                    &&& forall|k: Seq<u8>|
                        self.entries().contains_key(k) && #[trigger] is_prefix_of(p, k)
                            ==> group_has(groups@, room_of(k), session_of(k), self.entries()[k])
                    &&& forall|room: Seq<u8>, session: Seq<u8>, data: Seq<u8>|
                        #[trigger] group_has(groups@, room, session, data) ==> exists|k: Seq<u8>|
                            self.entries().contains_key(k) && #[trigger] is_prefix_of(p, k)
                                && room_of(k) == room && session_of(k) == session && self.entries()[k]
                                == data
                    &&& forall|i: int| 0 <= i < groups@.len() ==> (#[trigger] groups@[i]).1@.len() >= 1
                    &&& forall|i: int|
                        0 <= i < groups@.len() - 1 ==> (#[trigger] groups@[i]).0@ != groups@[i
                            + 1].0@
                    &&& sessions_total(groups@) == prefixed_keys(self.entries(), p).len()
                })
                &&& (r matches Err(e) ==> e == Error::StoreFailure)
            }),
            r matches Ok(groups) ==> (entries_keyed_under(self.entries(), user_id@, version@)
                ==> ordered_groups(groups@)),
    {
        let prefix = version_entry_prefix_bytes(user_id, version);
        let pairs = match tree_scan_prefix(&self.backupkeyid_backup, &prefix) {
            Ok(p) => p,
            Err(_) => {
                return Err(Error::StoreFailure);
            },
        };
        proof {
            lemma_sep_count_append_sep(user_id@);
            lemma_sep_count_concat(user_id@ + seq![SEP], version@);
            lemma_sep_count_append_sep(backup_key(user_id@, version@));
            assert(sep_count(version_entry_prefix(user_id@, version@)) >= 2);
        }
        let ghost m = self.entries();
        let mut groups: Vec<(Vec<u8>, Vec<(Vec<u8>, Vec<u8>)>)> = Vec::new();
        let mut i: usize = 0;
        while i < pairs.len()
            invariant
                i <= pairs@.len(),
                m == self.entries(),
                sep_count(prefix@) >= 2,
                prefix@ == version_entry_prefix(user_id@, version@),
                forall|a: int, b: int|
                    0 <= a < b < pairs@.len() ==> lex_lt(
                        (#[trigger] pairs@[a].0)@,
                        (#[trigger] pairs@[b].0)@,
                    ),
                i == 0 ==> groups@.len() == 0,
                i > 0 ==> groups@.len() >= 1,
                entries_keyed_under(m, user_id@, version@) ==> ordered_groups(groups@),
                entries_keyed_under(m, user_id@, version@) && i > 0 ==> (groups@.last().0@
                    == room_of(pairs@[i - 1].0@) && groups@.last().1@.len() >= 1
                    && groups@.last().1@.last().0@ == session_of(pairs@[i - 1].0@)),
                forall|j: int|
                    0 <= j < pairs@.len() ==> m.contains_key(#[trigger] pairs@[j].0@)
                        && is_prefix_of(prefix@, pairs@[j].0@) && m[pairs@[j].0@] == pairs@[j].1@,
                forall|t: int|
                    0 <= t < i ==> group_has(
                        groups@,
                        room_of(#[trigger] pairs@[t].0@),
                        session_of(pairs@[t].0@),
                        pairs@[t].1@,
                    ),
                forall|room: Seq<u8>, session: Seq<u8>, data: Seq<u8>|
                    #[trigger] group_has(groups@, room, session, data) ==> exists|t: int|
                        0 <= t < i && room_of((#[trigger] pairs@[t].0)@) == room && session_of(
                            pairs@[t].0@,
                        ) == session && pairs@[t].1@ == data,
                forall|g: int| 0 <= g < groups@.len() ==> (#[trigger] groups@[g]).1@.len() >= 1,
                forall|g: int|
                    0 <= g < groups@.len() - 1 ==> (#[trigger] groups@[g]).0@ != groups@[g
                        + 1].0@,
                sessions_total(groups@) == i,
            decreases pairs@.len() - i,
        {
            proof {
                lemma_sep_count_prefix(prefix@, pairs@[i as int].0@);
            }
            let decoded = split_entry_key(&pairs[i].0);
            let (room, session) = match decoded {
                Ok(t) => (t.1, t.2),
                Err(_) => {
                    // A key under the version prefix always carries at
                    // least two separators, so it always decodes.
                    proof {
                        assert(false);
                    }
                    return Err(Error::StoreFailure);
                },
            };
            let data = copy_bytes(&pairs[i].1);
            let ghost rs = room@;
            let ghost ss = session@;
            let ghost ds = data@;
            let ghost pre = groups@;
            match groups.pop() {
                Some(lastg) => {
                    if bytes_eq(&lastg.0, &room) {
                        let mut lastg = lastg;
                        lastg.1.push((session, data));
                        groups.push(lastg);
                        proof {
                            assert(groups@.drop_last() =~= pre.drop_last());
                            assert(groups@.last().1@.last().0@ == ss);
                            assert(groups@.last().1@ == pre.last().1@.push(
                                groups@.last().1@.last(),
                            ));
                            lemma_group_extend_last(pre, groups@, rs, ss, ds);
                            if entries_keyed_under(m, user_id@, version@) {
                                let k = pairs@[i as int].0@;
                                assert(rs == room_of(k) && ss == session_of(k));
                                assert(i > 0);
                                let kp = pairs@[i - 1].0@;
                                assert(lex_lt(kp, k));
                                assert(pre.last().0@ == room_of(kp));
                                assert(pre[pre.len() - 1].1@.len() >= 1);
                                assert(room_of(k) == room_of(kp));
                                lemma_ordered_extend(pre, groups@, m, user_id@, version@, kp, k);
                            }
                        }
                    } else {
                        groups.push(lastg);
                        let mut sessions: Vec<(Vec<u8>, Vec<u8>)> = Vec::new();
                        sessions.push((session, data));
                        groups.push((room, sessions));
                        proof {
                            assert(groups@.drop_last() =~= pre);
                            assert(groups@.last().1@[0].0@ == ss);
                            lemma_group_new_last(pre, groups@, rs, ss, ds);
                            if entries_keyed_under(m, user_id@, version@) {
                                let k = pairs@[i as int].0@;
                                assert(rs == room_of(k) && ss == session_of(k));
                                assert(i > 0);
                                let kp = pairs@[i - 1].0@;
                                assert(lex_lt(kp, k));
                                assert(pre.last().0@ == room_of(kp));
                                assert(room_of(k) != room_of(kp));
                                lemma_ordered_new(pre, groups@, m, user_id@, version@, kp, k);
                            }
                        }
                    }
                },
                None => {
                    let mut sessions: Vec<(Vec<u8>, Vec<u8>)> = Vec::new();
                    sessions.push((session, data));
                    groups.push((room, sessions));
                    proof {
                        assert(groups@.drop_last() =~= pre);
                        assert(groups@.last().1@[0].0@ == ss);
                        lemma_group_new_last(pre, groups@, rs, ss, ds);
                        if entries_keyed_under(m, user_id@, version@) {
                            let k = pairs@[i as int].0@;
                            assert(rs == room_of(k) && ss == session_of(k));
                            lemma_ordered_new(pre, groups@, m, user_id@, version@, k, k);
                        }
                    }
                },
            }
            i = i + 1;
        }
        proof {
            assert forall|k: Seq<u8>|
                m.contains_key(k) && #[trigger] is_prefix_of(prefix@, k) implies group_has(
                groups@,
                room_of(k),
                session_of(k),
                m[k],
            ) by {
                let j = choose|j: int| 0 <= j < pairs@.len() && (#[trigger] pairs@[j].0)@ == k;
                assert(group_has(groups@, room_of(pairs@[j].0@), session_of(pairs@[j].0@), pairs@[j].1@));
            }
            lemma_scan_counts_prefixed(self.entries(), prefix@, pairs@);
            assert(entries_keyed_under(self.entries(), user_id@, version@) ==> ordered_groups(
                groups@,
            ));
        }
        Ok(groups)
    }

    /// Lists the sessions of one room within a backup version, each with
    /// its key material, decoded from the right of each key.
    pub fn get_room(&self, user_id: &Vec<u8>, version: &Vec<u8>, room_id: &Vec<u8>) -> (r: Result<
        Vec<(Vec<u8>, Vec<u8>)>,
        Error,
    >)
        ensures
            r matches Ok(v) ==> forall|k: Seq<u8>|
                self.entries().contains_key(k) && #[trigger] is_prefix_of(
                    room_entry_prefix(user_id@, version@, room_id@),
                    k,
                ) ==> listing_has(v@, session_of(k), self.entries()[k]),
            r matches Ok(v) ==> forall|i: int|
                0 <= i < v@.len() ==> listed_session(
                    self.entries(),
                    room_entry_prefix(user_id@, version@, room_id@),
                    (#[trigger] v@[i]).0@,
                    v@[i].1@,
                ),
            r matches Ok(v) ==> v@.len() == prefixed_keys(
                self.entries(),
                room_entry_prefix(user_id@, version@, room_id@),
            ).len(),
            r matches Ok(v) ==> (flat_under(
                self.entries(),
                room_entry_prefix(user_id@, version@, room_id@),
            ) ==> ascending_sessions(v@)),
            r matches Err(e) ==> e == Error::StoreFailure,
    {
        let prefix = room_entry_prefix_bytes(user_id, version, room_id);
        let pairs = match tree_scan_prefix(&self.backupkeyid_backup, &prefix) {
            Ok(p) => p,
            Err(_) => {
                return Err(Error::StoreFailure);
            },
        };
        let ghost m = self.entries();
        let mut out: Vec<(Vec<u8>, Vec<u8>)> = Vec::new();
        let mut i: usize = 0;
        while i < pairs.len()
            invariant
                i <= pairs@.len(),
                m == self.entries(),
                out@.len() == i,
                forall|j: int|
                    0 <= j < pairs@.len() ==> m.contains_key(#[trigger] pairs@[j].0@)
                        && is_prefix_of(prefix@, pairs@[j].0@) && m[pairs@[j].0@] == pairs@[j].1@,
                forall|j: int|
                    0 <= j < i ==> (#[trigger] out@[j]).0@ == session_of(pairs@[j].0@) && out@[j].1@
                        == pairs@[j].1@,
            decreases pairs@.len() - i,
        {
            let session = after_last_sep_bytes(&pairs[i].0);
            let data = copy_bytes(&pairs[i].1);
            out.push((session, data));
            i = i + 1;
        }
        proof {
            assert forall|k: Seq<u8>|
                m.contains_key(k) && #[trigger] is_prefix_of(prefix@, k) implies listing_has(
                out@,
                session_of(k),
                m[k],
            ) by {
                let j = choose|j: int| 0 <= j < pairs@.len() && (#[trigger] pairs@[j].0)@ == k;
                assert((out@[j]).0@ == session_of(k) && out@[j].1@ == m[k]);
            }
            lemma_scan_counts_prefixed(m, prefix@, pairs@);
            assert forall|i: int| 0 <= i < out@.len() implies listed_session(
                m,
                prefix@,
                (#[trigger] out@[i]).0@,
                out@[i].1@,
            ) by {
                let k = pairs@[i].0@;
                assert(m.contains_key(k) && is_prefix_of(prefix@, k) && session_of(k) == (
                out@[i]).0@ && m[k] == out@[i].1@);
            }
            assert(flat_under(m, prefix@) ==> ascending_sessions(out@)) by {
                if flat_under(m, prefix@) {
                    assert(prefix@.last() == SEP);
                    assert forall|i: int, j: int| 0 <= i < j < out@.len() implies lex_lt(
                        (#[trigger] out@[i]).0@,
                        (#[trigger] out@[j]).0@,
                    ) by {
                        let ki = pairs@[i].0@;
                        let kj = pairs@[j].0@;
                        assert(m.contains_key(ki) && is_prefix_of(prefix@, ki));
                        assert(m.contains_key(kj) && is_prefix_of(prefix@, kj));
                        let si = ki.subrange(prefix@.len() as int, ki.len() as int);
                        let sj = kj.subrange(prefix@.len() as int, kj.len() as int);
                        lemma_session_of_flat_key(prefix@, ki);
                        lemma_session_of_flat_key(prefix@, kj);
                        assert(ki =~= prefix@ + si);
                        assert(kj =~= prefix@ + sj);
                        assert(lex_lt(ki, kj));
                        lemma_lex_lt_common_prefix(prefix@, si, sj);
                    }
                    assert(ascending_sessions(out@));
                }
            }
        }
        Ok(out)
    }

    /// Point lookup of one escrowed session key.
    pub fn get_session(
        &self,
        user_id: &Vec<u8>,
        version: &Vec<u8>,
        room_id: &Vec<u8>,
        session_id: &Vec<u8>,
    ) -> (r: Result<Option<Vec<u8>>, Error>)
        ensures
            ({
                let key = entry_key(user_id@, version@, room_id@, session_id@);
                &&& (r matches Ok(o) ==> match o {
                    Some(d) => self.entries().contains_key(key) && d@ == self.entries()[key],
                    None => !self.entries().contains_key(key),
                })
                &&& (r matches Err(e) ==> e == Error::StoreFailure)
            }),
    {
        let key = entry_key_bytes(user_id, version, room_id, session_id);
        match tree_get(&self.backupkeyid_backup, &key) {
            Err(_) => Err(Error::StoreFailure),
            Ok(o) => Ok(o),
        }
    }

    /// Removes every entry of a backup version; metadata and etag are left
    /// alone.
    pub fn delete_all_keys(&mut self, user_id: &Vec<u8>, version: &Vec<u8>) -> (r: Result<
        (),
        Error,
    >)
        ensures
            ({
                let p = version_entry_prefix(user_id@, version@);
                &&& (r matches Ok(u) ==> final(self).entries() == old(self).entries().remove_keys(
                    prefixed_keys(old(self).entries(), p),
                ))
                &&& (r matches Err(e) ==> e == Error::StoreFailure)
                &&& final(self).algorithms() == old(self).algorithms()
                &&& final(self).etags() == old(self).etags()
            }),
    {
        let prefix = version_entry_prefix_bytes(user_id, version);
        remove_prefixed(&mut self.backupkeyid_backup, &prefix)
    }

    /// Removes every entry of one room within a backup version.
    pub fn delete_room_keys(
        &mut self,
        user_id: &Vec<u8>,
        version: &Vec<u8>,
        room_id: &Vec<u8>,
    ) -> (r: Result<(), Error>)
        ensures
            ({
                let p = room_entry_prefix(user_id@, version@, room_id@);
                &&& (r matches Ok(u) ==> final(self).entries() == old(self).entries().remove_keys(
                    prefixed_keys(old(self).entries(), p),
                ))
                &&& (r matches Err(e) ==> e == Error::StoreFailure)
                &&& final(self).algorithms() == old(self).algorithms()
                &&& final(self).etags() == old(self).etags()
            }),
    {
        let prefix = room_entry_prefix_bytes(user_id, version, room_id);
        remove_prefixed(&mut self.backupkeyid_backup, &prefix)
    }

    /// Removes one escrowed session key — and, the full key being used as a
    /// scan prefix, any entry whose session identifier merely extends the
    /// given one.
    pub fn delete_room_key(
        &mut self,
        user_id: &Vec<u8>,
        version: &Vec<u8>,
        room_id: &Vec<u8>,
        session_id: &Vec<u8>,
    ) -> (r: Result<(), Error>)
        ensures
            ({
                let p = entry_key(user_id@, version@, room_id@, session_id@);
                &&& (r matches Ok(u) ==> final(self).entries() == old(self).entries().remove_keys(
                    prefixed_keys(old(self).entries(), p),
                ))
                &&& (r matches Err(e) ==> e == Error::StoreFailure)
                &&& final(self).algorithms() == old(self).algorithms()
                &&& final(self).etags() == old(self).etags()
            }),
    {
        let prefix = entry_key_bytes(user_id, version, room_id, session_id);
        remove_prefixed(&mut self.backupkeyid_backup, &prefix)
    }
}

/// In a well-formed entry table, a key under the version's prefix splits
/// into that prefix and its decoded room and session, both valid.
proof fn lemma_keyed_decode(m: Map<Seq<u8>, Seq<u8>>, u: Seq<u8>, v: Seq<u8>, k: Seq<u8>)
    requires
        entries_keyed_under(m, u, v),
        m.contains_key(k),
        is_prefix_of(version_entry_prefix(u, v), k),
    ensures
        valid_component(room_of(k)),
        valid_component(session_of(k)),
        k == version_entry_prefix(u, v) + (room_of(k) + seq![SEP] + session_of(k)),
{
    let (r, s) = choose|r: Seq<u8>, s: Seq<u8>|
        valid_component(r) && valid_component(s) && k == #[trigger] entry_key(u, v, r, s);
    lemma_entry_key_decodes(u, v, r, s);
    assert(k =~= version_entry_prefix(u, v) + (r + seq![SEP] + s));
}

/// In a well-formed entry table, the key order of two entries under one
/// version is the order of their rooms (separator appended), and of their
/// sessions when the rooms agree.
proof fn lemma_adjacent_entry_order(
    m: Map<Seq<u8>, Seq<u8>>,
    u: Seq<u8>,
    v: Seq<u8>,
    k1: Seq<u8>,
    k2: Seq<u8>,
)
    requires
        entries_keyed_under(m, u, v),
        m.contains_key(k1),
        is_prefix_of(version_entry_prefix(u, v), k1),
        m.contains_key(k2),
        is_prefix_of(version_entry_prefix(u, v), k2),
        lex_lt(k1, k2),
    ensures
        room_of(k1) == room_of(k2) ==> lex_lt(session_of(k1), session_of(k2)),
        room_of(k1) != room_of(k2) ==> lex_lt(
            room_of(k1) + seq![SEP],
            room_of(k2) + seq![SEP],
        ),
{
    let vp = version_entry_prefix(u, v);
    lemma_keyed_decode(m, u, v, k1);
    lemma_keyed_decode(m, u, v, k2);
    let t1 = room_of(k1) + seq![SEP] + session_of(k1);
    let t2 = room_of(k2) + seq![SEP] + session_of(k2);
    lemma_lex_lt_common_prefix(vp, t1, t2);
    if room_of(k1) == room_of(k2) {
        assert(t1 =~= (room_of(k1) + seq![SEP]) + session_of(k1));
        assert(t2 =~= (room_of(k1) + seq![SEP]) + session_of(k2));
        lemma_lex_lt_common_prefix(room_of(k1) + seq![SEP], session_of(k1), session_of(k2));
    } else {
        lemma_lex_lt_sep_bounded(room_of(k1), session_of(k1), room_of(k2), session_of(k2));
    }
}

/// Extending the last group with the next entry's session keeps the
/// listing ordered.
proof fn lemma_ordered_extend(
    pre: Seq<(Vec<u8>, Vec<(Vec<u8>, Vec<u8>)>)>,
    post: Seq<(Vec<u8>, Vec<(Vec<u8>, Vec<u8>)>)>,
    m: Map<Seq<u8>, Seq<u8>>,
    u: Seq<u8>,
    v: Seq<u8>,
    kp: Seq<u8>,
    k: Seq<u8>,
)
    requires
        entries_keyed_under(m, u, v),
        m.contains_key(kp),
        is_prefix_of(version_entry_prefix(u, v), kp),
        m.contains_key(k),
        is_prefix_of(version_entry_prefix(u, v), k),
        lex_lt(kp, k),
        ordered_groups(pre),
        pre.len() >= 1,
        pre.last().0@ == room_of(kp),
        pre.last().1@.len() >= 1,
        pre.last().1@.last().0@ == session_of(kp),
        room_of(k) == room_of(kp),
        post.len() == pre.len(),
        post.drop_last() == pre.drop_last(),
        post.last().0@ == pre.last().0@,
        post.last().1@ == pre.last().1@.push(post.last().1@.last()),
        post.last().1@.last().0@ == session_of(k),
    ensures
        ordered_groups(post),
        post.last().0@ == room_of(k),
        post.last().1@.len() >= 1,
        post.last().1@.last().0@ == session_of(k),
{
    lemma_adjacent_entry_order(m, u, v, kp, k);
    let n = pre.len();
    let olds = pre.last().1@;
    let news = post.last().1@;
    let ln = news.len();
    assert(ascending_sessions(olds));
    assert forall|a: int, b: int| 0 <= a < b < ln implies lex_lt(
        (#[trigger] news[a]).0@,
        (#[trigger] news[b]).0@,
    ) by {
        if b < ln - 1 {
            assert(news[a] == olds[a] && news[b] == olds[b]);
            assert(lex_lt((olds[a]).0@, (olds[b]).0@));
        } else {
            assert(news[b].0@ == session_of(k));
            if a == ln - 2 {
                assert(news[a] == olds[a]);
                assert(olds[a] == olds.last());
            } else {
                assert(news[a] == olds[a]);
                assert(olds[ln - 2] == olds.last());
                assert(lex_lt((olds[a]).0@, (olds[ln - 2]).0@));
                lemma_lex_lt_transitive((olds[a]).0@, session_of(kp), session_of(k));
            }
        }
    }
    assert(ascending_sessions(news));
    assert forall|g: int| 0 <= g < post.len() implies ascending_sessions(
        (#[trigger] post[g]).1@,
    ) by {
        if g < n - 1 {
            assert(post.drop_last()[g] == post[g]);
            assert(pre.drop_last()[g] == pre[g]);
            assert(ascending_sessions((pre[g]).1@));
        } else {
            assert(post[g].1@ == news);
        }
    }
    assert forall|g: int, h: int| 0 <= g < h < post.len() implies lex_lt(
        (#[trigger] post[g]).0@ + seq![SEP],
        (#[trigger] post[h]).0@ + seq![SEP],
    ) by {
        assert(post.drop_last()[g] == post[g] && pre.drop_last()[g] == pre[g]);
        if h < n - 1 {
            assert(post.drop_last()[h] == post[h] && pre.drop_last()[h] == pre[h]);
        }
        assert(post[g].0@ == pre[g].0@ && post[h].0@ == pre[h].0@);
        assert(lex_lt((pre[g]).0@ + seq![SEP], (pre[h]).0@ + seq![SEP]));
    }
}

/// Opening a fresh group for the next entry's room keeps the listing
/// ordered; when an earlier group exists its room sorts strictly before
/// the new one.
proof fn lemma_ordered_new(
    pre: Seq<(Vec<u8>, Vec<(Vec<u8>, Vec<u8>)>)>,
    post: Seq<(Vec<u8>, Vec<(Vec<u8>, Vec<u8>)>)>,
    m: Map<Seq<u8>, Seq<u8>>,
    u: Seq<u8>,
    v: Seq<u8>,
    kp: Seq<u8>,
    k: Seq<u8>,
)
    requires
        entries_keyed_under(m, u, v),
        m.contains_key(k),
        is_prefix_of(version_entry_prefix(u, v), k),
        ordered_groups(pre),
        pre.len() >= 1 ==> {
            &&& m.contains_key(kp)
            &&& is_prefix_of(version_entry_prefix(u, v), kp)
            &&& lex_lt(kp, k)
            &&& pre.last().0@ == room_of(kp)
            &&& room_of(k) != room_of(kp)
        },
        post.len() == pre.len() + 1,
        post.drop_last() == pre,
        post.last().0@ == room_of(k),
        post.last().1@.len() == 1,
        post.last().1@[0].0@ == session_of(k),
    ensures
        ordered_groups(post),
        post.last().0@ == room_of(k),
        post.last().1@.len() >= 1,
        post.last().1@.last().0@ == session_of(k),
{
    let n = post.len();
    if pre.len() >= 1 {
        lemma_adjacent_entry_order(m, u, v, kp, k);
    }
    assert forall|g: int, h: int| 0 <= g < h < n implies lex_lt(
        (#[trigger] post[g]).0@ + seq![SEP],
        (#[trigger] post[h]).0@ + seq![SEP],
    ) by {
        assert(post.drop_last()[g] == post[g]);
        assert(post[g] == pre[g]);
        if h < n - 1 {
            assert(post.drop_last()[h] == post[h]);
            assert(post[h] == pre[h]);
            assert(lex_lt((pre[g]).0@ + seq![SEP], (pre[h]).0@ + seq![SEP]));
        } else {
            assert(post[h].0@ == room_of(k));
            assert(pre[pre.len() - 1] == post.drop_last()[pre.len() - 1]);
            if g < pre.len() - 1 {
                assert(lex_lt((pre[g]).0@ + seq![SEP], (pre[pre.len() - 1]).0@ + seq![SEP]));
                lemma_lex_lt_transitive(
                    (pre[g]).0@ + seq![SEP],
                    room_of(kp) + seq![SEP],
                    room_of(k) + seq![SEP],
                );
            }
        }
    }
    assert forall|g: int| 0 <= g < n implies ascending_sessions((#[trigger] post[g]).1@) by {
        if g < n - 1 {
            assert(post.drop_last()[g] == post[g]);
            assert(post[g] == pre[g]);
            assert(ascending_sessions((pre[g]).1@));
        }
    }
    assert(post.last().1@.last() == post.last().1@[0]);
}

/// Scanning a prefix lists exactly the prefixed keys, without duplicates,
/// so its length is the cardinality of the prefixed key set.
proof fn lemma_scan_counts_prefixed(
    m: Map<Seq<u8>, Seq<u8>>,
    p: Seq<u8>,
    pairs: Seq<(Vec<u8>, Vec<u8>)>,
)
    requires
        forall|j: int|
            0 <= j < pairs.len() ==> m.contains_key(#[trigger] pairs[j].0@) && is_prefix_of(
                p,
                pairs[j].0@,
            ),
        forall|k: Seq<u8>|
            m.contains_key(k) && #[trigger] is_prefix_of(p, k) ==> exists|i: int|
                0 <= i < pairs.len() && (#[trigger] pairs[i].0)@ == k,
        forall|i: int, j: int| 0 <= i < j < pairs.len() ==> lex_lt(pairs[i].0@, pairs[j].0@),
    ensures
        pairs.len() == prefixed_keys(m, p).len(),
{
    let ks = pairs.map_values(|q: (Vec<u8>, Vec<u8>)| q.0@);
    assert forall|i: int, j: int| 0 <= i < j < ks.len() implies ks[i] != ks[j] by {
        lemma_lex_lt_irreflexive(ks[i]);
        assert(lex_lt(pairs[i].0@, pairs[j].0@));
    }
    assert(ks.no_duplicates());
    ks.unique_seq_to_set();
    assert forall|x: Seq<u8>| ks.to_set().contains(x) implies prefixed_keys(m, p).contains(x) by {
        let i = choose|i: int| 0 <= i < ks.len() && ks[i] == x;
        assert(m.contains_key(pairs[i].0@) && is_prefix_of(p, pairs[i].0@));
    }
    assert forall|x: Seq<u8>| prefixed_keys(m, p).contains(x) implies ks.to_set().contains(x) by {
        let i = choose|i: int| 0 <= i < pairs.len() && (#[trigger] pairs[i].0)@ == x;
        assert(ks[i] == x);
    }
    assert(ks.to_set() =~= prefixed_keys(m, p));
}

/// Extending the last group's session list with one more pair adds exactly
/// that association.
proof fn lemma_group_extend_last(
    pre: Seq<(Vec<u8>, Vec<(Vec<u8>, Vec<u8>)>)>,
    post: Seq<(Vec<u8>, Vec<(Vec<u8>, Vec<u8>)>)>,
    room: Seq<u8>,
    session: Seq<u8>,
    data: Seq<u8>,
)
    requires
        pre.len() >= 1,
        post.len() == pre.len(),
        post.drop_last() == pre.drop_last(),
        post.last().0@ == pre.last().0@,
        post.last().0@ == room,
        post.last().1@ == pre.last().1@.push((post.last().1@.last())),
        post.last().1@.last().0@ == session,
        post.last().1@.last().1@ == data,
    ensures
        group_has(post, room, session, data),
        forall|r2: Seq<u8>, s2: Seq<u8>, d2: Seq<u8>|
            #[trigger] group_has(pre, r2, s2, d2) ==> group_has(post, r2, s2, d2),
        forall|r2: Seq<u8>, s2: Seq<u8>, d2: Seq<u8>|
            #[trigger] group_has(post, r2, s2, d2) ==> group_has(pre, r2, s2, d2) || (r2 == room
                && s2 == session && d2 == data),
{
    let n = pre.len();
    let ln = post.last().1@.len();
    assert(post[n - 1].1@[ln - 1] == post.last().1@.last());
    assert(group_has(post, room, session, data));
    assert forall|r2: Seq<u8>, s2: Seq<u8>, d2: Seq<u8>|
        #[trigger] group_has(pre, r2, s2, d2) implies group_has(post, r2, s2, d2) by {
        let (i, j) = choose|i: int, j: int|
            0 <= i < pre.len() && 0 <= j < pre[i].1@.len() && pre[i].0@ == r2 && (#[trigger] pre[i].1@[j]).0@
                == s2 && pre[i].1@[j].1@ == d2;
        if i < n - 1 {
            assert(post.drop_last()[i] == post[i]);
            assert(pre.drop_last()[i] == pre[i]);
            assert(post[i] == pre[i]);
            assert((post[i].1@[j]).0@ == s2);
        } else {
            assert(post[n - 1].1@[j] == pre[n - 1].1@[j]);
        }
    }
    assert forall|r2: Seq<u8>, s2: Seq<u8>, d2: Seq<u8>|
        #[trigger] group_has(post, r2, s2, d2) implies group_has(pre, r2, s2, d2) || (r2 == room
        && s2 == session && d2 == data) by {
        let (i, j) = choose|i: int, j: int|
            0 <= i < post.len() && 0 <= j < post[i].1@.len() && post[i].0@ == r2 && (
            #[trigger] post[i].1@[j]).0@ == s2 && post[i].1@[j].1@ == d2;
        if i < n - 1 {
            assert(post.drop_last()[i] == post[i]);
            assert(pre.drop_last()[i] == pre[i]);
            assert(pre[i] == post[i]);
            assert((pre[i].1@[j]).0@ == s2);
        } else {
            if j < ln - 1 {
                assert(pre[n - 1].1@[j] == post[n - 1].1@[j]);
                assert((pre[n - 1].1@[j]).0@ == s2);
            } else {
                assert(post[n - 1].1@[j] == post.last().1@.last());
            }
        }
    }
}

/// Appending a fresh one-session group adds exactly that association.
proof fn lemma_group_new_last(
    pre: Seq<(Vec<u8>, Vec<(Vec<u8>, Vec<u8>)>)>,
    post: Seq<(Vec<u8>, Vec<(Vec<u8>, Vec<u8>)>)>,
    room: Seq<u8>,
    session: Seq<u8>,
    data: Seq<u8>,
)
    requires
        post.len() == pre.len() + 1,
        post.drop_last() == pre,
        post.last().0@ == room,
        post.last().1@.len() == 1,
        post.last().1@[0].0@ == session,
        post.last().1@[0].1@ == data,
    ensures
        group_has(post, room, session, data),
        forall|r2: Seq<u8>, s2: Seq<u8>, d2: Seq<u8>|
            #[trigger] group_has(pre, r2, s2, d2) ==> group_has(post, r2, s2, d2),
        forall|r2: Seq<u8>, s2: Seq<u8>, d2: Seq<u8>|
            #[trigger] group_has(post, r2, s2, d2) ==> group_has(pre, r2, s2, d2) || (r2 == room
                && s2 == session && d2 == data),
{
    let n = post.len();
    assert(post[n - 1].1@[0] == post.last().1@[0]);
    assert(group_has(post, room, session, data));
    assert forall|r2: Seq<u8>, s2: Seq<u8>, d2: Seq<u8>|
        #[trigger] group_has(pre, r2, s2, d2) implies group_has(post, r2, s2, d2) by {
        let (i, j) = choose|i: int, j: int|
            0 <= i < pre.len() && 0 <= j < pre[i].1@.len() && pre[i].0@ == r2 && (#[trigger] pre[i].1@[j]).0@
                == s2 && pre[i].1@[j].1@ == d2;
        assert(post.drop_last()[i] == post[i]);
        assert(post[i] == pre[i]);
        assert((post[i].1@[j]).0@ == s2);
    }
    assert forall|r2: Seq<u8>, s2: Seq<u8>, d2: Seq<u8>|
        #[trigger] group_has(post, r2, s2, d2) implies group_has(pre, r2, s2, d2) || (r2 == room
        && s2 == session && d2 == data) by {
        let (i, j) = choose|i: int, j: int|
            0 <= i < post.len() && 0 <= j < post[i].1@.len() && post[i].0@ == r2 && (
            #[trigger] post[i].1@[j]).0@ == s2 && post[i].1@[j].1@ == d2;
        if i < n - 1 {
            assert(post.drop_last()[i] == post[i]);
            assert(pre[i] == post[i]);
            assert((pre[i].1@[j]).0@ == s2);
        } else {
            assert(post[n - 1].1@[j] == post.last().1@[0]);
        }
    }
}

/// Removes every key of the tree that starts with `prefix`.
fn remove_prefixed(t: &mut sled::Tree, prefix: &Vec<u8>) -> (r: Result<(), Error>)
    ensures
        r matches Ok(u) ==> tree_entries(*final(t)) == tree_entries(*old(t)).remove_keys(
            prefixed_keys(tree_entries(*old(t)), prefix@),
        ),
        r matches Err(e) ==> e == Error::StoreFailure,
{
    let ghost m0 = tree_entries(*t);
    let pairs = match tree_scan_prefix(t, prefix) {
        Ok(p) => p,
        Err(_) => {
            return Err(Error::StoreFailure);
        },
    };
    let ghost ks = pairs@.map_values(|q: (Vec<u8>, Vec<u8>)| q.0@);
    let mut i: usize = 0;
    proof {
        assert(ks.take(0) =~= Seq::<Seq<u8>>::empty());
        assert(Seq::<Seq<u8>>::empty().to_set() =~= Set::<Seq<u8>>::empty());
        assert(m0.remove_keys(Set::<Seq<u8>>::empty()) =~= m0);
    }
    while i < pairs.len()
        invariant
            i <= pairs@.len(),
            ks == pairs@.map_values(|q: (Vec<u8>, Vec<u8>)| q.0@),
            tree_entries(*t) == m0.remove_keys(ks.take(i as int).to_set()),
            forall|j: int|
                0 <= j < pairs@.len() ==> m0.contains_key(#[trigger] pairs@[j].0@) && is_prefix_of(
                    prefix@,
                    pairs@[j].0@,
                ),
            forall|k: Seq<u8>|
                m0.contains_key(k) && #[trigger] is_prefix_of(prefix@, k) ==> exists|j: int|
                    0 <= j < pairs@.len() && (#[trigger] pairs@[j].0)@ == k,
        decreases pairs@.len() - i,
    {
        let ghost pre = tree_entries(*t);
        match tree_del(t, &pairs[i].0) {
            Ok(u) => {},
            Err(_) => {
                return Err(Error::StoreFailure);
            },
        }
        proof {
            assert(ks.take(i + 1) =~= ks.take(i as int) + seq![ks[i as int]]);
            Seq::<Seq<u8>>::lemma_to_set_insert_commutes(ks.take(i as int), ks[i as int]);
            assert(pre.remove(pairs@[i as int].0@) =~= m0.remove_keys(ks.take(i + 1).to_set()));
        }
        i = i + 1;
    }
    proof {
        assert(ks.take(ks.len() as int) =~= ks);
        assert forall|x: Seq<u8>| ks.to_set().contains(x) implies prefixed_keys(m0, prefix@).contains(
            x,
        ) by {
            let j = choose|j: int| 0 <= j < ks.len() && ks[j] == x;
            assert(m0.contains_key(pairs@[j].0@) && is_prefix_of(prefix@, pairs@[j].0@));
        }
        assert forall|x: Seq<u8>| prefixed_keys(m0, prefix@).contains(x) implies ks.to_set().contains(
            x,
        ) by {
            let j = choose|j: int| 0 <= j < pairs@.len() && (#[trigger] pairs@[j].0)@ == x;
            assert(ks[j] == x);
        }
        assert(ks.to_set() =~= prefixed_keys(m0, prefix@));
    }
    Ok(())
}

} // verus!
