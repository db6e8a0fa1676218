use persistwd::entry::{parse_entry, ShadowEntry};
use persistwd::mirror::{export_contents, mirror_hash};
use persistwd::shadow::{lookup, shadow_path, ShadowScan};
use persistwd::utf8::is_utf8;

fn bytes(s: &str) -> Vec<u8> {
    s.as_bytes().to_vec()
}

#[test]
fn database_path() {
    assert_eq!(shadow_path(), "/etc/shadow");
}

#[test]
fn entry_fields_are_split_at_separators() {
    let e = parse_entry(&bytes("alice:$6$abc:19000:0:99999:7:::")).unwrap();
    assert_eq!(e.name, bytes("alice"));
    assert_eq!(e.hash, bytes("$6$abc"));
    assert_eq!(e.rest, bytes(":19000:0:99999:7:::"));
    assert_eq!(e.to_line(), bytes("alice:$6$abc:19000:0:99999:7:::"));
}

#[test]
fn entry_with_hash_only() {
    let e = parse_entry(&bytes("bob:")).unwrap();
    assert_eq!(e.name, bytes("bob"));
    assert!(e.hash.is_empty());
    assert!(e.rest.is_empty());
    assert_eq!(e.to_line(), bytes("bob:"));
}

#[test]
fn malformed_lines_hold_no_entry() {
    assert!(parse_entry(&bytes("")).is_none());
    assert!(parse_entry(&bytes("alice")).is_none());
    assert!(parse_entry(&bytes(":hash:1")).is_none());
}

#[test]
fn entry_line_from_fields() {
    let e = ShadowEntry { name: bytes("u"), hash: bytes("h"), rest: bytes(":1:2") };
    assert_eq!(e.to_line(), bytes("u:h:1:2"));
}

#[test]
fn scan_hands_out_entries_in_order() {
    let data = bytes("a:1\nbad\nb:2\n\nc:3");
    let mut scan = ShadowScan::open(&data);
    let mut names = Vec::new();
    while let Some(e) = scan.next() {
        names.push(e.name);
    }
    assert_eq!(names, vec![bytes("a"), bytes("b"), bytes("c")]);
    assert!(scan.next().is_none());
}

#[test]
fn lookup_finds_first_entry_of_name() {
    let data = bytes("a:1:x\nb:2:y\nb:3:z\n");
    let e = lookup(&data, &bytes("b")).unwrap();
    assert_eq!(e.hash, bytes("2"));
    assert!(lookup(&data, &bytes("c")).is_none());
    assert!(lookup(&data, &bytes("")).is_none());
}

#[test]
fn export_writes_hash_and_newline() {
    let data = bytes("alice:$6$abc:19000\nbob::1\n");
    assert_eq!(export_contents(&data, &bytes("alice")), bytes("$6$abc\n"));
    assert_eq!(export_contents(&data, &bytes("bob")), bytes("\n"));
    assert_eq!(export_contents(&data, &bytes("carol")), bytes("\n"));
}

#[test]
fn export_is_repeatable() {
    let data = bytes("alice:$6$abc:19000\n");
    let a = export_contents(&data, &bytes("alice"));
    let b = export_contents(&data, &bytes("alice"));
    assert_eq!(a, b);
}

#[test]
fn mirror_hash_is_first_line() {
    assert_eq!(mirror_hash(&bytes("$6$NEW\n")), Some(bytes("$6$NEW")));
    assert_eq!(mirror_hash(&bytes("$6$NEW")), Some(bytes("$6$NEW")));
    assert_eq!(mirror_hash(&bytes("H\nsecond\n")), Some(bytes("H")));
    assert_eq!(mirror_hash(&bytes("")), Some(bytes("")));
    assert_eq!(mirror_hash(&bytes("\n")), Some(bytes("")));
}

#[test]
fn unusable_mirror_has_no_hash() {
    assert_eq!(mirror_hash(&bytes("a:b\n")), None);
    assert_eq!(mirror_hash(&vec![b'a', 0, b'b', b'\n']), None);
    assert_eq!(mirror_hash(&bytes("ok\nx:y")), Some(bytes("ok")));
}

#[test]
fn users_without_entry_are_listed_in_order() {
    let mut config = persistwd::config::Config::new();
    assert!(config.add(bytes("carol"), "/m/c".to_string()));
    assert!(config.add(bytes("alice"), "/m/a".to_string()));
    assert!(config.add(bytes("dave"), "/m/d".to_string()));
    let data = bytes("alice:h:1\nbob:h:2\n");
    assert_eq!(
        persistwd::mirror::missing_users(&data, &config),
        vec![bytes("carol"), bytes("dave")]
    );
}

#[test]
fn utf8_check_follows_the_encoding() {
    assert!(is_utf8(&bytes("")));
    assert!(is_utf8(&bytes("$6$abc")));
    assert!(is_utf8(&bytes("h\u{e9}\u{20ac}\u{1f600}")));
    assert!(!is_utf8(&vec![0xff]));
    assert!(!is_utf8(&vec![b'a', 0xff, b'b']));
    assert!(!is_utf8(&vec![0xc0, 0x80]));
    assert!(!is_utf8(&vec![0xed, 0xa0, 0x80]));
    assert!(!is_utf8(&vec![0xf4, 0x90, 0x80, 0x80]));
    assert!(!is_utf8(&vec![0xe2, 0x82]));
}

#[test]
fn mirror_line_that_is_not_utf8_has_no_hash() {
    assert_eq!(mirror_hash(&vec![b'$', b'6', 0xff, b'\n']), None);
    assert_eq!(mirror_hash(&vec![b'o', b'k', b'\n', 0xff]), Some(bytes("ok")));
}

fn db_with_bad_hash() -> Vec<u8> {
    let mut data = bytes("alice:$6$");
    data.push(0xff);
    data.extend_from_slice(b":19000::\nbob:$6$def:19000::\n");
    data
}

#[test]
fn export_of_hash_that_is_not_utf8_is_empty_line() {
    let data = db_with_bad_hash();
    assert_eq!(export_contents(&data, &bytes("alice")), bytes("\n"));
    assert_eq!(export_contents(&data, &bytes("bob")), bytes("$6$def\n"));
}

#[test]
fn lookup_treats_hash_that_is_not_utf8_as_absent() {
    let data = db_with_bad_hash();
    let e = lookup(&data, &bytes("alice")).unwrap();
    assert_eq!(e.hash, vec![b'$', b'6', b'$', 0xff]);
    assert_eq!(e.decoded_hash(), None);
    assert_eq!(persistwd::shadow::lookup_hash(&data, &bytes("alice")), None);
    assert_eq!(persistwd::shadow::lookup_hash(&data, &bytes("bob")), Some(bytes("$6$def")));
}

#[test]
fn users_with_hash_that_is_not_utf8_are_listed() {
    let mut config = persistwd::config::Config::new();
    assert!(config.add(bytes("alice"), "/m/a".to_string()));
    assert!(config.add(bytes("bob"), "/m/b".to_string()));
    assert_eq!(persistwd::mirror::missing_users(&db_with_bad_hash(), &config), vec![bytes("alice")]);
}
