use key_backups::codec::{
    backup_key_bytes, be_to_u64, entry_key_bytes, split_entry_key, u64_to_be, u64_to_dec,
};
use key_backups::Error;

#[test]
fn decimal_rendering() {
    assert_eq!(u64_to_dec(0), b"0".to_vec());
    assert_eq!(u64_to_dec(7), b"7".to_vec());
    assert_eq!(u64_to_dec(1234), b"1234".to_vec());
    assert_eq!(u64_to_dec(u64::MAX), b"18446744073709551615".to_vec());
}

#[test]
fn big_endian_encoding_and_roundtrip() {
    assert_eq!(u64_to_be(0), vec![0u8; 8]);
    assert_eq!(
        u64_to_be(0x0102030405060708),
        vec![1u8, 2, 3, 4, 5, 6, 7, 8]
    );
    let encoded = u64_to_be(987654321);
    assert_eq!(be_to_u64(&encoded), Ok(987654321));
}

#[test]
fn short_etag_bytes_are_corrupt() {
    assert_eq!(be_to_u64(&b"abc".to_vec()), Err(Error::DataCorruption));
    assert_eq!(be_to_u64(&Vec::new()), Err(Error::DataCorruption));
    assert_eq!(be_to_u64(&vec![0u8; 9]), Err(Error::DataCorruption));
}

#[test]
fn composite_key_layout() {
    let k = backup_key_bytes(&b"u".to_vec(), &b"1".to_vec());
    assert_eq!(k, b"u\xff1".to_vec());
    let e = entry_key_bytes(&b"u".to_vec(), &b"1".to_vec(), &b"!r:x".to_vec(), &b"s1".to_vec());
    assert_eq!(e, b"u\xff1\xff!r:x\xffs1".to_vec());
}

#[test]
fn entry_key_decodes_from_the_right() {
    let user = b"@a:x".to_vec();
    let version = b"12".to_vec();
    let room = b"!room:x".to_vec();
    let session = b"sess".to_vec();
    let key = entry_key_bytes(&user, &version, &room, &session);
    let (rest, got_room, got_session) = split_entry_key(&key).expect("well-formed key");
    assert_eq!(rest, backup_key_bytes(&user, &version));
    assert_eq!(got_room, room);
    assert_eq!(got_session, session);
}

#[test]
fn keys_without_separators_are_corrupt() {
    assert_eq!(
        split_entry_key(&b"no separators here".to_vec()),
        Err(Error::DataCorruption)
    );
    assert_eq!(
        split_entry_key(&b"only\xffone".to_vec()),
        Err(Error::DataCorruption)
    );
}
