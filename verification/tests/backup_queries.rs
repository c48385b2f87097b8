use key_backups::backups::KeyBackups;
use key_backups::{Counter, Error};

fn open_store() -> KeyBackups {
    let db = sled::Config::new()
        .temporary(true)
        .open()
        .expect("open temporary store");
    KeyBackups::new(
        db.open_tree("backupid_algorithm").expect("tree"),
        db.open_tree("backupid_etag").expect("tree"),
        db.open_tree("backupkeyid_backup").expect("tree"),
    )
}

#[test]
fn room_listing_scenario() {
    let mut kb = open_store();
    let mut counter = Counter::new(0);
    let user = b"u1".to_vec();
    let version = kb
        .create_backup(&user, &b"{}".to_vec(), &mut counter)
        .expect("create");
    assert_eq!(version, b"1".to_vec());
    let room = b"!r:x".to_vec();
    let session = b"s1".to_vec();
    let data = b"{\"k\":1}".to_vec();
    kb.add_key(&user, &version, &room, &session, &data, &mut counter)
        .expect("add");
    let listing = kb.get_room(&user, &version, &room).expect("room listing");
    assert_eq!(listing, vec![(session.clone(), data.clone())]);
    kb.delete_room_keys(&user, &version, &room).expect("delete room");
    let listing = kb.get_room(&user, &version, &room).expect("room listing");
    assert_eq!(listing, Vec::new());
}

#[test]
fn room_listing_is_session_ordered() {
    let mut kb = open_store();
    let mut counter = Counter::new(0);
    let user = b"u1".to_vec();
    let version = kb
        .create_backup(&user, &b"{}".to_vec(), &mut counter)
        .expect("create");
    let room = b"!r:x".to_vec();
    let d1 = b"d1".to_vec();
    let d2 = b"d2".to_vec();
    let d3 = b"d3".to_vec();
    kb.add_key(&user, &version, &room, &b"s3".to_vec(), &d3, &mut counter)
        .expect("add");
    kb.add_key(&user, &version, &room, &b"s1".to_vec(), &d1, &mut counter)
        .expect("add");
    kb.add_key(&user, &version, &room, &b"s2".to_vec(), &d2, &mut counter)
        .expect("add");
    let listing = kb.get_room(&user, &version, &room).expect("room listing");
    assert_eq!(
        listing,
        vec![
            (b"s1".to_vec(), d1),
            (b"s2".to_vec(), d2),
            (b"s3".to_vec(), d3),
        ]
    );
}

#[test]
fn latest_backup_follows_byte_order_not_numeric_order() {
    let mut kb = open_store();
    let user = b"u1".to_vec();
    let meta5 = b"{\"gen\":5}".to_vec();
    let meta10 = b"{\"gen\":10}".to_vec();
    let mut c5 = Counter::new(4);
    let v5 = kb.create_backup(&user, &meta5, &mut c5).expect("create");
    assert_eq!(v5, b"5".to_vec());
    let mut c10 = Counter::new(9);
    let v10 = kb.create_backup(&user, &meta10, &mut c10).expect("create");
    assert_eq!(v10, b"10".to_vec());
    // "10" sorts before "5" as a byte string, so the latest backup by key
    // order is version "5", not the most recently created "10".
    let (latest_version, latest_meta) = kb
        .get_latest_backup(&user)
        .expect("latest")
        .expect("present");
    assert_eq!(latest_version, b"5".to_vec());
    assert_eq!(latest_meta, meta5);
}

#[test]
fn latest_backup_with_equal_digit_counts_is_newest() {
    let mut kb = open_store();
    let mut counter = Counter::new(0);
    let user = b"u1".to_vec();
    let meta1 = b"{\"gen\":1}".to_vec();
    let meta3 = b"{\"gen\":3}".to_vec();
    let v1 = kb.create_backup(&user, &meta1, &mut counter).expect("create");
    assert_eq!(v1, b"1".to_vec());
    let v3 = kb.create_backup(&user, &meta3, &mut counter).expect("create");
    assert_eq!(v3, b"3".to_vec());
    let (latest_version, latest_meta) = kb
        .get_latest_backup(&user)
        .expect("latest")
        .expect("present");
    assert_eq!(latest_version, v3);
    assert_eq!(latest_meta, meta3);
}

#[test]
fn latest_backup_of_unknown_user_is_none() {
    let kb = open_store();
    assert_eq!(kb.get_latest_backup(&b"nobody".to_vec()).expect("latest"), None);
}

#[test]
fn get_all_groups_by_room_in_order() {
    let mut kb = open_store();
    let mut counter = Counter::new(0);
    let user = b"u".to_vec();
    let version = kb
        .create_backup(&user, &b"{}".to_vec(), &mut counter)
        .expect("create");
    let room_a = b"!a:x".to_vec();
    let room_b = b"!b:x".to_vec();
    let d1 = b"d1".to_vec();
    let d2 = b"d2".to_vec();
    let d3 = b"d3".to_vec();
    kb.add_key(&user, &version, &room_b, &b"s3".to_vec(), &d3, &mut counter)
        .expect("add");
    kb.add_key(&user, &version, &room_a, &b"s1".to_vec(), &d1, &mut counter)
        .expect("add");
    kb.add_key(&user, &version, &room_a, &b"s2".to_vec(), &d2, &mut counter)
        .expect("add");
    let groups = kb.get_all(&user, &version).expect("all");
    assert_eq!(
        groups,
        vec![
            (room_a.clone(), vec![(b"s1".to_vec(), d1), (b"s2".to_vec(), d2)]),
            (room_b.clone(), vec![(b"s3".to_vec(), d3)]),
        ]
    );
}

#[test]
fn get_all_of_empty_version_is_empty() {
    let mut kb = open_store();
    let mut counter = Counter::new(0);
    let user = b"u".to_vec();
    let version = kb
        .create_backup(&user, &b"{}".to_vec(), &mut counter)
        .expect("create");
    assert_eq!(kb.get_all(&user, &version).expect("all"), Vec::new());
}

#[test]
fn corrupt_etag_reports_data_corruption() {
    let db = sled::Config::new()
        .temporary(true)
        .open()
        .expect("open temporary store");
    let alg = db.open_tree("backupid_algorithm").expect("tree");
    let etag = db.open_tree("backupid_etag").expect("tree");
    let keys = db.open_tree("backupkeyid_backup").expect("tree");
    let etag_handle = etag.clone();
    let kb = KeyBackups::new(alg, etag, keys);
    // An etag that is not 8 bytes long is corrupt.
    etag_handle
        .insert(b"u\xffv".as_slice(), b"abc".as_slice())
        .expect("insert");
    assert_eq!(
        kb.get_etag(&b"u".to_vec(), &b"v".to_vec()),
        Err(Error::DataCorruption)
    );
}

#[test]
fn missing_etag_reports_data_corruption() {
    let kb = open_store();
    assert_eq!(
        kb.get_etag(&b"u".to_vec(), &b"v".to_vec()),
        Err(Error::DataCorruption)
    );
}
