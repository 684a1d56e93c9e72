use filepwn::identity::{parse_identity_db, IdentityError};
use filepwn::number::NumberError;

const PASSWD: &str = "root:x:0:0:root:/root:/bin/bash\n\
daemon:x:1:1:daemon:/usr/sbin:/usr/sbin/nologin\n\
alice:x:1000:1000:Alice:/home/alice:/bin/sh\n";

#[test]
fn reads_passwd() {
    let m = parse_identity_db(PASSWD).unwrap();
    assert_eq!(m.get("root"), Some(0));
    assert_eq!(m.get("daemon"), Some(1));
    assert_eq!(m.get("alice"), Some(1000));
    assert_eq!(m.get("bob"), None);
    assert_eq!(m.get("roo"), None);
}

#[test]
fn reads_group_file() {
    let m = parse_identity_db("wheel:x:10:alice,bob\nstaff:x:50:").unwrap();
    assert_eq!(m.get("wheel"), Some(10));
    assert_eq!(m.get("staff"), Some(50));
}

#[test]
fn later_record_wins() {
    let m = parse_identity_db("a:x:1\nb:x:2\na:x:3\n").unwrap();
    assert_eq!(m.get("a"), Some(3));
    assert_eq!(m.get("b"), Some(2));
}

#[test]
fn same_id_under_two_names() {
    let m = parse_identity_db("a:x:7\nb:x:7\n").unwrap();
    assert_eq!(m.get("a"), Some(7));
    assert_eq!(m.get("b"), Some(7));
}

#[test]
fn empty_lines_skipped() {
    let m = parse_identity_db("\n\na:x:5\n\n\nb:y:6").unwrap();
    assert_eq!(m.get("a"), Some(5));
    assert_eq!(m.get("b"), Some(6));
    assert_eq!(m.get(""), None);
}

#[test]
fn empty_text_gives_empty_map() {
    let m = parse_identity_db("").unwrap();
    assert_eq!(m.get("root"), None);
}

#[test]
fn crlf_lines() {
    let m = parse_identity_db("a:x:7\r\nb:x:8\r\n\r\n").unwrap();
    assert_eq!(m.get("a"), Some(7));
    assert_eq!(m.get("b"), Some(8));
}

#[test]
fn non_numeric_id_fails() {
    let r = parse_identity_db("root:x:0\nalice:x:zz:1\nbob:x:2\n");
    assert_eq!(
        r.err(),
        Some(IdentityError::MalformedIdentityField(b"alice".to_vec(), NumberError::InvalidDigit))
    );
}

#[test]
fn id_too_large_fails() {
    let r = parse_identity_db("big:x:4294967296\n");
    assert_eq!(
        r.err(),
        Some(IdentityError::MalformedIdentityField(b"big".to_vec(), NumberError::Overflow))
    );
}

#[test]
fn empty_id_fails() {
    let r = parse_identity_db("nobody:x::\n");
    assert_eq!(
        r.err(),
        Some(IdentityError::MalformedIdentityField(b"nobody".to_vec(), NumberError::Empty))
    );
}

#[test]
fn short_record_fails() {
    let r = parse_identity_db("root:x:0\nshort:x\n");
    assert_eq!(r.err(), Some(IdentityError::MissingIdentityField(b"short".to_vec())));
}

#[test]
fn first_bad_record_decides() {
    let r = parse_identity_db("a:x\nb:x:q\n");
    assert_eq!(r.err(), Some(IdentityError::MissingIdentityField(b"a".to_vec())));
}
