use minigit::BufUtils;
use minigit::Cursor;
use minigit::CursorError;
use minigit::EntryError;
use minigit::parse_tree_entry;
use minigit::Sha;

#[test]
fn cursor_advances_past_each_field() {
    let data = b"abc def\0xyz";
    let mut cur = Cursor::new(data);
    assert_eq!(cur.get_until(b' '), Ok(&b"abc"[..]));
    assert_eq!(cur.position(), 4);
    assert_eq!(cur.get_str_until(0), Ok("def"));
    assert_eq!(cur.position(), 8);
    assert_eq!(cur.get_n_exact(3), Ok(&b"xyz"[..]));
    assert_eq!(cur.position(), 11);
    assert!(cur.is_empty());
}

#[test]
fn empty_field_still_advances() {
    let mut cur = Cursor::new(b" rest");
    assert_eq!(cur.get_until(b' '), Ok(&b""[..]));
    assert_eq!(cur.position(), 1);
    assert_eq!(cur.rest(), b"rest");
}

#[test]
fn failed_reads_leave_cursor_in_place() {
    let mut cur = Cursor::new(b"ab\xff\0cd");
    assert_eq!(cur.get_until(b' '), Err(CursorError::DelimiterNotFound));
    assert_eq!(cur.position(), 0);
    assert_eq!(cur.get_str_until(0), Err(CursorError::InvalidText));
    assert_eq!(cur.position(), 0);
    assert_eq!(cur.get_n_exact(7), Err(CursorError::InsufficientBytes));
    assert_eq!(cur.position(), 0);
    assert_eq!(cur.remaining_len(), 6);
}

#[test]
fn one_entry_consumes_its_bytes() {
    let mut buf = b"644 n\0".to_vec();
    buf.extend_from_slice(&[1u8; 20]);
    buf.extend_from_slice(b"tail");
    let mut cur = Cursor::new(&buf);
    let e = parse_tree_entry(&mut cur).unwrap();
    assert_eq!(e.permissions, 0o644);
    assert_eq!(e.filename, "n");
    assert_eq!(e.sha, Sha([1u8; 20]));
    assert_eq!(cur.position(), 26);
    assert_eq!(cur.rest(), b"tail");
    assert_eq!(
        parse_tree_entry(&mut cur),
        Err(EntryError::Cursor(CursorError::DelimiterNotFound))
    );
}
