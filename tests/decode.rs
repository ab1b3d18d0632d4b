use minigit::parse_object;
use minigit::parse_tree;
use minigit::BufUtils;
use minigit::Cursor;
use minigit::CursorError;
use minigit::EntryError;
use minigit::HeaderField;
use minigit::Object;
use minigit::ObjectError;
use minigit::Sha;
use minigit::TreeEntry;
use minigit::TreeEntryType;
use minigit::TreeError;

fn id(hex: &str) -> Sha {
    Sha::from_hex(hex).unwrap()
}

fn entry_bytes(mode: &str, name: &[u8], sha: &Sha) -> Vec<u8> {
    let mut out = Vec::new();
    out.extend_from_slice(mode.as_bytes());
    out.push(b' ');
    out.extend_from_slice(name);
    out.push(0);
    out.extend_from_slice(sha.as_bytes());
    out
}

fn with_header(tag: &str, body: &[u8]) -> Vec<u8> {
    let mut out = format!("{} {}\0", tag, body.len()).into_bytes();
    out.extend_from_slice(body);
    out
}

#[test]
fn blob_hello() {
    assert_eq!(parse_object(b"blob 5\0hello"), Ok(Object::Blob(b"hello".to_vec())));
}

#[test]
fn empty_tree() {
    assert_eq!(parse_object(b"tree 0\0"), Ok(Object::Tree(vec![])));
}

#[test]
fn empty_blob() {
    assert_eq!(parse_object(b"blob 0\0"), Ok(Object::Blob(vec![])));
}

#[test]
fn tree_with_one_entry() {
    let sha = id("22d351634acf3113b730bffd3638e14f62ef2af3");
    let mut buf = b"tree 29\0".to_vec();
    buf.extend_from_slice(&entry_bytes("100644", b"a", &sha));
    assert_eq!(
        parse_object(&buf),
        Ok(Object::Tree(vec![TreeEntry {
            permissions: 0o100644,
            entry_type: TreeEntryType::Blob,
            sha: id("22d351634acf3113b730bffd3638e14f62ef2af3"),
            filename: "a".to_owned(),
        }]))
    );
}

#[test]
fn tree_fixture() {
    let mut body = Vec::new();
    body.extend_from_slice(&entry_bytes(
        "100644",
        b".gitignore",
        &id("22d351634acf3113b730bffd3638e14f62ef2af3"),
    ));
    body.extend_from_slice(&entry_bytes(
        "100644",
        b"Cargo.toml",
        &id("123edcd7ebb3ea8086ee41077b22acc81c8db742"),
    ));
    body.extend_from_slice(&entry_bytes(
        "40000",
        b"src",
        &id("305157a396c6858705a9cb625bab219053264ee4"),
    ));
    assert_eq!(
        parse_object(&with_header("tree", &body)),
        Ok(Object::Tree(vec![
            TreeEntry {
                permissions: 0o100644,
                entry_type: TreeEntryType::Blob,
                sha: id("22d351634acf3113b730bffd3638e14f62ef2af3"),
                filename: ".gitignore".to_owned(),
            },
            TreeEntry {
                permissions: 0o100644,
                entry_type: TreeEntryType::Blob,
                sha: id("123edcd7ebb3ea8086ee41077b22acc81c8db742"),
                filename: "Cargo.toml".to_owned(),
            },
            TreeEntry {
                permissions: 0o040000,
                entry_type: TreeEntryType::Tree,
                sha: id("305157a396c6858705a9cb625bab219053264ee4"),
                filename: "src".to_owned(),
            },
        ]))
    );
}

#[test]
fn duplicate_names_are_kept_in_order() {
    let a = id("0000000000000000000000000000000000000001");
    let b = id("0000000000000000000000000000000000000002");
    let mut body = entry_bytes("100755", b"x", &a);
    body.extend_from_slice(&entry_bytes("100644", b"x", &b));
    let entries = parse_tree(&body).unwrap();
    assert_eq!(entries.len(), 2);
    assert_eq!(entries[0].permissions, 0o100755);
    assert_eq!(entries[0].sha, a);
    assert_eq!(entries[1].permissions, 0o100644);
    assert_eq!(entries[1].sha, b);
}

#[test]
fn blob_header_round_trip() {
    let payload: Vec<u8> = vec![0, 32, 255, 10, 0, b't', b'r', b'e', b'e'];
    assert_eq!(parse_object(&with_header("blob", &payload)), Ok(Object::Blob(payload.clone())));
}

#[test]
fn tree_header_round_trip() {
    let sha = id("ffeeddccbbaa99887766554433221100ffeeddcc");
    let mut body = entry_bytes("120000", "ünïcode name".as_bytes(), &sha);
    body.extend_from_slice(&entry_bytes("0", b" ", &sha));
    let decoded = parse_object(&with_header("tree", &body)).unwrap();
    match decoded {
        Object::Tree(entries) => {
            assert_eq!(entries.len(), 2);
            assert_eq!(entries[0].filename, "ünïcode name");
            assert_eq!(entries[0].permissions, 0o120000);
            assert_eq!(entries[0].entry_type, TreeEntryType::Blob);
            assert_eq!(entries[1].filename, " ");
            assert_eq!(entries[1].permissions, 0);
            assert_eq!(entries[1].sha, sha);
        }
        Object::Blob(_) => panic!("expected a tree"),
    }
}

#[test]
fn truncated_record_fails_cleanly() {
    let mut buf = b"tree 23\0100644 a.txt\0".to_vec();
    buf.extend_from_slice(&[7u8; 10]);
    assert_eq!(
        parse_object(&buf),
        Err(ObjectError::IncompleteTreeEntry(TreeError {
            offset: 0,
            error: EntryError::Cursor(CursorError::InsufficientBytes),
        }))
    );
}

#[test]
fn tree_record_without_name_end() {
    assert_eq!(
        parse_tree(b"100644 a.txt"),
        Err(TreeError { offset: 0, error: EntryError::Cursor(CursorError::DelimiterNotFound) })
    );
}

#[test]
fn unknown_type_rejected() {
    assert_eq!(
        parse_object(b"commit 10\0abcdefghij"),
        Err(ObjectError::UnknownObjectType("commit".to_owned()))
    );
}

#[test]
fn missing_space_in_header() {
    assert_eq!(
        parse_object(b"blob"),
        Err(ObjectError::Header(HeaderField::Tag, CursorError::DelimiterNotFound))
    );
}

#[test]
fn missing_nul_in_header() {
    assert_eq!(
        parse_object(b"blob 5hello"),
        Err(ObjectError::Header(HeaderField::Size, CursorError::DelimiterNotFound))
    );
}

#[test]
fn tag_that_is_not_text() {
    assert_eq!(
        parse_object(b"\xffblob 0\0"),
        Err(ObjectError::Header(HeaderField::Tag, CursorError::InvalidText))
    );
}

#[test]
fn malformed_size() {
    assert_eq!(parse_object(b"blob x5\0hello"), Err(ObjectError::MalformedHeader));
    assert_eq!(parse_object(b"blob \0"), Err(ObjectError::MalformedHeader));
    assert_eq!(
        parse_object(b"blob 18446744073709551616\0"),
        Err(ObjectError::MalformedHeader)
    );
}

#[test]
fn size_mismatch() {
    assert_eq!(parse_object(b"blob 3\0hello"), Err(ObjectError::SizeMismatch));
    assert_eq!(parse_object(b"tree 1\0"), Err(ObjectError::SizeMismatch));
}

#[test]
fn invalid_mode() {
    let sha = id("22d351634acf3113b730bffd3638e14f62ef2af3");
    let body = entry_bytes("100648", b"a", &sha);
    assert_eq!(
        parse_object(&with_header("tree", &body)),
        Err(ObjectError::IncompleteTreeEntry(TreeError { offset: 0, error: EntryError::InvalidMode }))
    );
    let body = entry_bytes("40000000000", b"a", &sha);
    assert_eq!(parse_tree(&body), Err(TreeError { offset: 0, error: EntryError::InvalidMode }));
    let body = entry_bytes("", b"a", &sha);
    assert_eq!(parse_tree(&body), Err(TreeError { offset: 0, error: EntryError::InvalidMode }));
}

#[test]
fn largest_mode() {
    let sha = id("22d351634acf3113b730bffd3638e14f62ef2af3");
    let body = entry_bytes("37777777777", b"a", &sha);
    let entries = parse_tree(&body).unwrap();
    assert_eq!(entries[0].permissions, u32::MAX);
}

#[test]
fn invalid_name() {
    let sha = id("22d351634acf3113b730bffd3638e14f62ef2af3");
    let body = entry_bytes("100644", b"\xc3(", &sha);
    assert_eq!(parse_tree(&body), Err(TreeError { offset: 0, error: EntryError::InvalidName }));
}

#[test]
fn directory_mode_gives_tree_kind() {
    let sha = id("305157a396c6858705a9cb625bab219053264ee4");
    let body = entry_bytes("040000", b"dir", &sha);
    let entries = parse_tree(&body).unwrap();
    assert_eq!(entries[0].entry_type, TreeEntryType::Tree);
    assert_eq!(entries[0].permissions, 0o40000);
}

#[test]
fn blob_fixture() {
    let text = "# Generated by Cargo\n# will have compiled files and executables\n/target/\n\n# Remove Cargo.lock from gitignore if creating an executable, leave it for libraries\n# More information here https://doc.rust-lang.org/cargo/guide/cargo-toml-vs-cargo-lock.html\nCargo.lock\n\n# These are backup files generated by rustfmt\n**/*.rs.bk\n\n\n# Added by cargo\n\n/target\n";
    assert_eq!(
        parse_object(&with_header("blob", text.as_bytes())),
        Ok(Object::Blob(text.as_bytes().to_vec()))
    );
}

#[test]
fn size_field_not_text() {
    assert_eq!(
        parse_object(b"blob \xff\0"),
        Err(ObjectError::Header(HeaderField::Size, CursorError::InvalidText))
    );
}

#[test]
fn failing_record_offset_is_reported() {
    let sha = id("22d351634acf3113b730bffd3638e14f62ef2af3");
    let mut body = entry_bytes("100644", b"first", &sha);
    body.extend_from_slice(&entry_bytes("100644", b"second", &sha));
    let second_start = body.len();
    body.extend_from_slice(b"100644 third\0short");
    assert_eq!(
        parse_tree(&body),
        Err(TreeError {
            offset: second_start,
            error: EntryError::Cursor(CursorError::InsufficientBytes),
        })
    );
    assert_eq!(
        parse_object(&with_header("tree", &body)),
        Err(ObjectError::IncompleteTreeEntry(TreeError {
            offset: second_start,
            error: EntryError::Cursor(CursorError::InsufficientBytes),
        }))
    );
}
