use allenap_shell_utils::bytes::{append, contains_byte, same_bytes, to_vec};
use allenap_shell_utils::list::{join_paths, split_bytes, split_paths, JoinPathsError, LIST_DELIMITER};

fn paths(items: &[&str]) -> Vec<Vec<u8>> {
    items.iter().map(|s| s.as_bytes().to_vec()).collect()
}

#[test]
fn delimiter_is_a_colon() {
    assert_eq!(LIST_DELIMITER, b':');
}

#[test]
fn split_empty_list_has_one_empty_entry() {
    assert_eq!(split_paths(b""), paths(&[""]));
}

#[test]
fn split_single_entry() {
    assert_eq!(split_paths(b"/usr/bin"), paths(&["/usr/bin"]));
}

#[test]
fn split_keeps_order() {
    assert_eq!(split_paths(b"/b:/a:/c"), paths(&["/b", "/a", "/c"]));
}

#[test]
fn split_keeps_empty_entries() {
    assert_eq!(split_paths(b":a::b:"), paths(&["", "a", "", "b", ""]));
    assert_eq!(split_paths(b":"), paths(&["", ""]));
}

#[test]
fn split_bytes_at_another_byte() {
    assert_eq!(split_bytes(b"a/b//c", b'/'), paths(&["a", "b", "", "c"]));
    assert_eq!(split_bytes(b"a:b", b'/'), paths(&["a:b"]));
}

#[test]
fn split_takes_any_bytes() {
    assert_eq!(split_paths(&[0xff, b':', 0x00]), vec![vec![0xffu8], vec![0x00u8]]);
}

#[test]
fn join_nothing_is_empty() {
    assert_eq!(join_paths(&paths(&[])), Ok(Vec::new()));
}

#[test]
fn join_one_path_is_that_path() {
    assert_eq!(join_paths(&paths(&["/usr/bin"])), Ok(b"/usr/bin".to_vec()));
    assert_eq!(join_paths(&paths(&[""])), Ok(Vec::new()));
}

#[test]
fn join_puts_a_delimiter_between_paths() {
    assert_eq!(join_paths(&paths(&["/a", "/b", "/c"])), Ok(b"/a:/b:/c".to_vec()));
    assert_eq!(join_paths(&paths(&["", "a", ""])), Ok(b":a:".to_vec()));
}

#[test]
fn join_refuses_a_path_with_the_delimiter() {
    assert_eq!(
        join_paths(&paths(&["/a", "/b:c", "/d:e"])),
        Err(JoinPathsError { position: 1, path: b"/b:c".to_vec() })
    );
    assert_eq!(
        join_paths(&paths(&[":"])),
        Err(JoinPathsError { position: 0, path: b":".to_vec() })
    );
}

#[test]
fn join_undoes_split() {
    for input in [&b""[..], b"a", b":", b"/a:/b", b"::", b"a/b:c//d:"] {
        assert_eq!(join_paths(&split_paths(input)), Ok(input.to_vec()));
    }
}

#[test]
fn split_undoes_join() {
    for items in [paths(&["a"]), paths(&["", ""]), paths(&["/x", "", "y/z"])] {
        let joined = join_paths(&items).unwrap();
        assert_eq!(split_paths(&joined), items);
    }
}

#[test]
fn contains_byte_finds_a_byte() {
    assert!(contains_byte(b"a:b", b':'));
    assert!(contains_byte(b":", b':'));
    assert!(!contains_byte(b"ab", b':'));
    assert!(!contains_byte(b"", b':'));
}

#[test]
fn same_bytes_compares_contents() {
    assert!(same_bytes(b"", b""));
    assert!(same_bytes(b"abc", b"abc"));
    assert!(!same_bytes(b"abc", b"abd"));
    assert!(!same_bytes(b"abc", b"ab"));
}

#[test]
fn to_vec_copies() {
    assert_eq!(to_vec(b"abc"), b"abc".to_vec());
    assert_eq!(to_vec(b""), Vec::<u8>::new());
}

#[test]
fn append_adds_at_the_end() {
    let mut buf = b"ab".to_vec();
    append(&mut buf, b"cd");
    assert_eq!(buf, b"abcd".to_vec());
    append(&mut buf, b"");
    assert_eq!(buf, b"abcd".to_vec());
}
