use key_backups::backups::KeyBackups;
use key_backups::{Counter, Error};

fn open_store() -> KeyBackups {
    let db = sled::Config::new()
        .temporary(true)
        .open()
        .expect("open temporary store");
    KeyBackups::new(
        db.open_tree("backupid_algorithm").expect("tree"),
        db.open_tree("backupid_etag").expect("tree"),
        db.open_tree("backupkeyid_backup").expect("tree"),
    )
}

fn etag_value(kb: &KeyBackups, user: &Vec<u8>, version: &Vec<u8>) -> u64 {
    let rendered = kb.get_etag(user, version).expect("etag");
    String::from_utf8(rendered)
        .expect("decimal etag")
        .parse::<u64>()
        .expect("etag number")
}

#[test]
fn create_then_get_returns_metadata() {
    let mut kb = open_store();
    let mut counter = Counter::new(0);
    let user = b"@alice:example.org".to_vec();
    let meta = b"{\"algorithm\":\"m.megolm_backup.v1\"}".to_vec();
    let version = kb.create_backup(&user, &meta, &mut counter).expect("create");
    assert_eq!(version, b"1".to_vec());
    let got = kb.get_backup(&user, &version).expect("get").expect("present");
    assert_eq!(got, meta);
}

#[test]
fn update_nonexistent_fails_not_found_without_side_effects() {
    let mut kb = open_store();
    let mut counter = Counter::new(7);
    let user = b"@alice:example.org".to_vec();
    let version = b"3".to_vec();
    let meta = b"{\"algorithm\":\"x\"}".to_vec();
    let r = kb.update_backup(&user, &version, &meta, &mut counter);
    assert_eq!(r, Err(Error::NotFound));
    assert_eq!(counter.peek(), 7);
    assert_eq!(kb.get_backup(&user, &version).expect("get"), None);
    assert_eq!(kb.count_keys(&user, &version).expect("count"), 0);
    assert_eq!(kb.get_etag(&user, &version), Err(Error::DataCorruption));
}

#[test]
fn add_key_nonexistent_version_fails_not_found() {
    let mut kb = open_store();
    let mut counter = Counter::new(0);
    let r = kb.add_key(
        &b"u".to_vec(),
        &b"1".to_vec(),
        &b"!r:x".to_vec(),
        &b"s1".to_vec(),
        &b"d".to_vec(),
        &mut counter,
    );
    assert_eq!(r, Err(Error::NotFound));
}

#[test]
fn add_key_then_get_session_and_overwrite() {
    let mut kb = open_store();
    let mut counter = Counter::new(0);
    let user = b"@bob:example.org".to_vec();
    let meta = b"{}".to_vec();
    let version = kb.create_backup(&user, &meta, &mut counter).expect("create");
    let room = b"!room:example.org".to_vec();
    let session = b"session-one".to_vec();
    let d1 = b"{\"k\":1}".to_vec();
    let d2 = b"{\"k\":2}".to_vec();
    kb.add_key(&user, &version, &room, &session, &d1, &mut counter)
        .expect("add");
    let got = kb
        .get_session(&user, &version, &room, &session)
        .expect("get")
        .expect("present");
    assert_eq!(got, d1);
    kb.add_key(&user, &version, &room, &session, &d2, &mut counter)
        .expect("add again");
    let got = kb
        .get_session(&user, &version, &room, &session)
        .expect("get")
        .expect("present");
    assert_eq!(got, d2);
    assert_eq!(kb.count_keys(&user, &version).expect("count"), 1);
}

#[test]
fn count_keys_tracks_additions_and_deletions() {
    let mut kb = open_store();
    let mut counter = Counter::new(0);
    let user = b"u".to_vec();
    let version = kb
        .create_backup(&user, &b"{}".to_vec(), &mut counter)
        .expect("create");
    let room = b"!a:x".to_vec();
    let other_room = b"!b:x".to_vec();
    assert_eq!(kb.count_keys(&user, &version).expect("count"), 0);
    kb.add_key(&user, &version, &room, &b"s1".to_vec(), &b"d1".to_vec(), &mut counter)
        .expect("add");
    assert_eq!(kb.count_keys(&user, &version).expect("count"), 1);
    kb.add_key(&user, &version, &room, &b"s2".to_vec(), &b"d2".to_vec(), &mut counter)
        .expect("add");
    kb.add_key(&user, &version, &other_room, &b"s3".to_vec(), &b"d3".to_vec(), &mut counter)
        .expect("add");
    assert_eq!(kb.count_keys(&user, &version).expect("count"), 3);
    kb.add_key(&user, &version, &room, &b"s1".to_vec(), &b"d9".to_vec(), &mut counter)
        .expect("overwrite");
    assert_eq!(kb.count_keys(&user, &version).expect("count"), 3);
    kb.delete_room_key(&user, &version, &room, &b"s2".to_vec())
        .expect("delete one");
    assert_eq!(kb.count_keys(&user, &version).expect("count"), 2);
    kb.delete_room_keys(&user, &version, &room).expect("delete room");
    assert_eq!(kb.count_keys(&user, &version).expect("count"), 1);
    kb.delete_all_keys(&user, &version).expect("delete all");
    assert_eq!(kb.count_keys(&user, &version).expect("count"), 0);
}

#[test]
fn delete_room_key_also_removes_extending_sessions() {
    // The full key serves as a scan prefix, so deleting session "s1" also
    // removes sessions whose identifier extends it byte-wise.
    let mut kb = open_store();
    let mut counter = Counter::new(0);
    let user = b"u".to_vec();
    let version = kb
        .create_backup(&user, &b"{}".to_vec(), &mut counter)
        .expect("create");
    let room = b"!a:x".to_vec();
    kb.add_key(&user, &version, &room, &b"s1".to_vec(), &b"d1".to_vec(), &mut counter)
        .expect("add");
    kb.add_key(&user, &version, &room, &b"s1x".to_vec(), &b"d2".to_vec(), &mut counter)
        .expect("add");
    kb.delete_room_key(&user, &version, &room, &b"s1".to_vec())
        .expect("delete");
    assert_eq!(kb.count_keys(&user, &version).expect("count"), 0);
}

#[test]
fn count_keys_is_isolated_per_version() {
    // The count prefix is separator-terminated, so entries of version
    // "10" are not counted for version "1" of the same user, although
    // "1" is a byte prefix of "10".
    let mut kb = open_store();
    let user = b"u".to_vec();
    let mut c1 = Counter::new(0);
    let v1 = kb.create_backup(&user, &b"{}".to_vec(), &mut c1).expect("create");
    assert_eq!(v1, b"1".to_vec());
    let mut c10 = Counter::new(9);
    let v10 = kb.create_backup(&user, &b"{}".to_vec(), &mut c10).expect("create");
    assert_eq!(v10, b"10".to_vec());
    kb.add_key(&user, &v10, &b"!a:x".to_vec(), &b"s1".to_vec(), &b"d".to_vec(), &mut c10)
        .expect("add");
    assert_eq!(kb.count_keys(&user, &v10).expect("count"), 1);
    assert_eq!(kb.count_keys(&user, &v1).expect("count"), 0);
    kb.delete_backup(&user, &v1).expect("delete");
    assert_eq!(kb.count_keys(&user, &v1).expect("count"), 0);
    assert_eq!(kb.count_keys(&user, &v10).expect("count"), 1);
}

#[test]
fn delete_backup_clears_and_is_idempotent() {
    let mut kb = open_store();
    let mut counter = Counter::new(0);
    let user = b"u".to_vec();
    let version = kb
        .create_backup(&user, &b"{}".to_vec(), &mut counter)
        .expect("create");
    kb.add_key(&user, &version, &b"!a:x".to_vec(), &b"s1".to_vec(), &b"d1".to_vec(), &mut counter)
        .expect("add");
    kb.add_key(&user, &version, &b"!b:x".to_vec(), &b"s2".to_vec(), &b"d2".to_vec(), &mut counter)
        .expect("add");
    kb.delete_backup(&user, &version).expect("delete");
    assert_eq!(kb.get_backup(&user, &version).expect("get"), None);
    assert_eq!(kb.count_keys(&user, &version).expect("count"), 0);
    kb.delete_backup(&user, &version).expect("delete again is a no-op");
    assert_eq!(kb.get_backup(&user, &version).expect("get"), None);
}

#[test]
fn etag_strictly_increases_on_update_and_add_key() {
    let mut kb = open_store();
    let mut counter = Counter::new(0);
    let user = b"u".to_vec();
    let version = kb
        .create_backup(&user, &b"{}".to_vec(), &mut counter)
        .expect("create");
    let e1 = etag_value(&kb, &user, &version);
    kb.update_backup(&user, &version, &b"{\"a\":2}".to_vec(), &mut counter)
        .expect("update");
    let e2 = etag_value(&kb, &user, &version);
    assert!(e2 > e1);
    kb.add_key(&user, &version, &b"!r:x".to_vec(), &b"s1".to_vec(), &b"d".to_vec(), &mut counter)
        .expect("add");
    let e3 = etag_value(&kb, &user, &version);
    assert!(e3 > e2);
}

#[test]
fn update_backup_replaces_metadata_and_keeps_version() {
    let mut kb = open_store();
    let mut counter = Counter::new(0);
    let user = b"u".to_vec();
    let m1 = b"{\"a\":1}".to_vec();
    let m2 = b"{\"a\":2}".to_vec();
    let version = kb.create_backup(&user, &m1, &mut counter).expect("create");
    let returned = kb
        .update_backup(&user, &version, &m2, &mut counter)
        .expect("update");
    assert_eq!(returned, version);
    let got = kb.get_backup(&user, &version).expect("get").expect("present");
    assert_eq!(got, m2);
}
