use persistwd::config::Config;
use persistwd::rewrite::rewrite_database;

fn config_of(users: &[(&str, &str)]) -> Config {
    let mut c = Config::new();
    for (name, path) in users {
        assert!(c.add(name.as_bytes().to_vec(), path.to_string()));
    }
    c
}

fn read(s: &str) -> Option<Vec<u8>> {
    Some(s.as_bytes().to_vec())
}

fn text(v: &[u8]) -> String {
    String::from_utf8(v.to_vec()).unwrap()
}

const DB: &str = "alice:$6$abc:19000:0:99999:7:::\nbob:$6$def:19000:0:99999:7:::\n";

#[test]
fn end_to_end_example() {
    let config = config_of(&[("alice", "/mirror/alice")]);
    let out = rewrite_database(&DB.as_bytes().to_vec(), &config, &vec![read("$6$NEW\n")]);
    assert_eq!(
        text(&out.data),
        "alice:$6$NEW:19000:0:99999:7:::\nbob:$6$def:19000:0:99999:7:::\n"
    );
    assert!(out.failed.is_empty());
}

#[test]
fn rewriting_twice_gives_same_bytes() {
    let config = config_of(&[("alice", "/m/a"), ("bob", "/m/b")]);
    let reads = vec![read("$6$A\n"), read("$6$B\n")];
    let first = rewrite_database(&DB.as_bytes().to_vec(), &config, &reads);
    let again = rewrite_database(&DB.as_bytes().to_vec(), &config, &reads);
    assert_eq!(first.data, again.data);
    let twice = rewrite_database(&first.data, &config, &reads);
    assert_eq!(twice.data, first.data);
}

#[test]
fn order_of_entries_is_kept() {
    let db = "zed:x:1\namy:y:2\nmia:z:3\nbo:w:4\n";
    let config = config_of(&[("bo", "/m/bo"), ("zed", "/m/zed")]);
    let out = rewrite_database(&db.as_bytes().to_vec(), &config, &vec![read("B\n"), read("Z\n")]);
    assert_eq!(text(&out.data), "zed:Z:1\namy:y:2\nmia:z:3\nbo:B:4\n");
}

#[test]
fn unmapped_entries_are_byte_identical() {
    let db = "root:!:19000::::::\ndaemon:*:18000:0:99999:7:::\n";
    let config = config_of(&[("alice", "/m/a")]);
    let out = rewrite_database(&db.as_bytes().to_vec(), &config, &vec![read("H\n")]);
    assert_eq!(text(&out.data), db);
    assert!(out.failed.is_empty());
}

#[test]
fn missing_mirror_keeps_hash_and_reports() {
    let config = config_of(&[("alice", "/m/a"), ("bob", "/m/b")]);
    let out = rewrite_database(&DB.as_bytes().to_vec(), &config, &vec![None, read("$6$B\n")]);
    assert_eq!(
        text(&out.data),
        "alice:$6$abc:19000:0:99999:7:::\nbob:$6$B:19000:0:99999:7:::\n"
    );
    assert_eq!(out.failed, vec![b"alice".to_vec()]);
}

#[test]
fn corrupt_mirror_keeps_hash_and_reports() {
    let config = config_of(&[("alice", "/m/a"), ("bob", "/m/b")]);
    let out = rewrite_database(&DB.as_bytes().to_vec(), &config, &vec![read("$6$A\n"), read("x:y\n")]);
    assert_eq!(
        text(&out.data),
        "alice:$6$A:19000:0:99999:7:::\nbob:$6$def:19000:0:99999:7:::\n"
    );
    assert_eq!(out.failed, vec![b"bob".to_vec()]);
}

#[test]
fn mirror_read_missing_at_end_counts_as_failed() {
    let config = config_of(&[("alice", "/m/a"), ("bob", "/m/b")]);
    let out = rewrite_database(&DB.as_bytes().to_vec(), &config, &vec![read("$6$A\n")]);
    assert_eq!(
        text(&out.data),
        "alice:$6$A:19000:0:99999:7:::\nbob:$6$def:19000:0:99999:7:::\n"
    );
    assert_eq!(out.failed, vec![b"bob".to_vec()]);
}

#[test]
fn empty_mirror_gives_empty_hash() {
    let config = config_of(&[("bob", "/m/b")]);
    let out = rewrite_database(&DB.as_bytes().to_vec(), &config, &vec![read("")]);
    assert_eq!(
        text(&out.data),
        "alice:$6$abc:19000:0:99999:7:::\nbob::19000:0:99999:7:::\n"
    );
}

#[test]
fn lines_without_entry_are_passed_over() {
    let db = "\nnocolon\n:x:1\ncarol:h:2";
    let config = config_of(&[]);
    let out = rewrite_database(&db.as_bytes().to_vec(), &config, &vec![]);
    assert_eq!(text(&out.data), "carol:h:2\n");
}

#[test]
fn empty_database_gives_empty_text() {
    let config = config_of(&[("alice", "/m/a")]);
    let out = rewrite_database(&Vec::new(), &config, &vec![read("H\n")]);
    assert!(out.data.is_empty());
    assert!(out.failed.is_empty());
}

#[test]
fn mirror_that_is_not_utf8_keeps_hash_and_reports() {
    let config = config_of(&[("alice", "/m/a"), ("bob", "/m/b")]);
    let out = rewrite_database(
        &DB.as_bytes().to_vec(),
        &config,
        &vec![Some(vec![b'$', b'6', 0xff, b'\n']), read("$6$B\n")],
    );
    assert_eq!(
        text(&out.data),
        "alice:$6$abc:19000:0:99999:7:::\nbob:$6$B:19000:0:99999:7:::\n"
    );
    assert_eq!(out.failed, vec![b"alice".to_vec()]);
}

#[test]
fn database_hash_that_is_not_utf8_passes_through() {
    let mut db = b"carol:".to_vec();
    db.push(0xff);
    db.extend_from_slice(b":1\n");
    let config = config_of(&[("alice", "/m/a")]);
    let out = rewrite_database(&db, &config, &vec![read("H\n")]);
    assert_eq!(out.data, db);
}
