//! The resume token of a walk.
use uring_fs::cursor::TreeCursor;
use uring_fs::errno::Error;

#[test]
fn cursor_round_trips_through_bytes() {
    let c = TreeCursor::from_key(b"a/b/c.txt".to_vec());
    let back = TreeCursor::from_bytes(&c.to_bytes()).expect("round trip");
    assert_eq!(back, c);

    // Non-UTF-8 names survive: the blob is length-prefixed bytes.
    let raw = TreeCursor::from_key(vec![0xff, b'/', 0xfe]);
    assert_eq!(TreeCursor::from_bytes(&raw.to_bytes()).expect("round trip"), raw);
}

#[test]
fn malformed_cursor_blobs_are_rejected() {
    assert!(TreeCursor::from_bytes(b"short").is_err());
    let mut bad_magic = TreeCursor::from_key(b"x".to_vec()).to_bytes();
    bad_magic[0] ^= 0xff;
    assert!(TreeCursor::from_bytes(&bad_magic).is_err());
    let mut bad_version = TreeCursor::from_key(b"x".to_vec()).to_bytes();
    bad_version[4] = 0xff;
    assert!(TreeCursor::from_bytes(&bad_version).is_err());
    let mut trailing = TreeCursor::from_key(b"x".to_vec()).to_bytes();
    trailing.push(0);
    assert!(TreeCursor::from_bytes(&trailing).is_err());
}

#[test]
fn components_drop_the_directory_separator() {
    let c = |k: &str| TreeCursor::from_key(k.as_bytes().to_vec()).components();
    assert_eq!(c("a/b/"), [b"a".as_slice(), b"b".as_slice()]);
    assert_eq!(c("a/b"), [b"a".as_slice(), b"b".as_slice()]);
    assert!(TreeCursor::default().components().is_empty());
}

fn why(data: &[u8]) -> String {
    match TreeCursor::from_bytes(data) {
        Err(Error::Validation(w)) => w,
        _ => String::new(),
    }
}

#[test]
fn a_malformed_blob_says_what_is_wrong_with_it() {
    assert_eq!(why(b"TnTc\x01\x00\x00\x00\x00"), "tree cursor: truncated header");
    assert_eq!(
        why(&[0x78, 0x56, 0x34, 0x12, 1, 0, 0, 0, 0, 0]),
        "tree cursor: not a cursor blob (magic 0x12345678)"
    );
    assert_eq!(
        why(b"TnTc\x39\x30\x00\x00\x00\x00"),
        "tree cursor: unsupported version 12345"
    );
    assert_eq!(
        why(b"TnTc\x01\x00\x02\x00\x00\x00a"),
        "tree cursor: length does not match the blob"
    );
}

#[test]
fn a_cursor_is_written_as_header_and_key() {
    assert_eq!(
        TreeCursor::from_key(b"ab".to_vec()).to_bytes(),
        b"TnTc\x01\x00\x02\x00\x00\x00ab".to_vec()
    );
    assert!(TreeCursor::from_key(Vec::new()).is_empty());
    assert!(!TreeCursor::from_key(b"x".to_vec()).is_empty());
    assert_eq!(TreeCursor::from_key(b"x/".to_vec()).key(), b"x/");
    assert!(TreeCursor::from_key(b"x/".to_vec()).into_dir());
    assert!(!TreeCursor::from_key(b"x".to_vec()).into_dir());
}
