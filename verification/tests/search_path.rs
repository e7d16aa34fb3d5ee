use binary_mock::pieces::{bytes_equal, contains_byte, join_on, lists_equal, pieces_free, split_on};
use binary_mock::directory::is_same_directory;
use binary_mock::search_path::{
    join_paths, prepend, release_resolved, remove_resolved, split_paths, PATH_KEY, SEPARATOR,
};

fn list(items: &[&str]) -> Vec<Vec<u8>> {
    items.iter().map(|s| s.as_bytes().to_vec()).collect()
}

/// Removal where no entry is a link: every entry resolves to itself.
fn remove(value: &[u8], dir: &[u8]) -> Vec<u8> {
    remove_resolved(value, &split_paths(value), dir).unwrap()
}

/// Release where no entry is a link: every entry resolves to itself.
fn release(value: &[u8], dir: &[u8]) -> Vec<u8> {
    release_resolved(value, &split_paths(value), dir).unwrap()
}

#[test]
fn separator_is_a_colon() {
    assert_eq!(SEPARATOR, b':');
}

#[test]
fn variable_is_path() {
    assert_eq!(PATH_KEY, "PATH");
}

#[test]
fn split_of_usual_value() {
    assert_eq!(
        split_paths(b"/usr/local/bin:/usr/bin:/bin"),
        list(&["/usr/local/bin", "/usr/bin", "/bin"])
    );
}

#[test]
fn split_of_empty_value_is_one_empty_entry() {
    assert_eq!(split_paths(b""), list(&[""]));
}

#[test]
fn split_keeps_empty_entries() {
    assert_eq!(split_paths(b":/bin"), list(&["", "/bin"]));
    assert_eq!(split_paths(b"/bin:"), list(&["/bin", ""]));
    assert_eq!(split_paths(b"/a::/b"), list(&["/a", "", "/b"]));
    assert_eq!(split_paths(b"::"), list(&["", "", ""]));
}

#[test]
fn split_without_separator_is_one_entry() {
    assert_eq!(split_paths(b"/only"), list(&["/only"]));
}

#[test]
fn split_on_another_separator() {
    assert_eq!(split_on(b"/tmp/x", b'/'), list(&["", "tmp", "x"]));
    assert_eq!(split_on(b"a:b", b'/'), list(&["a:b"]));
}

#[test]
fn split_keeps_bytes_that_are_no_text() {
    let value: [u8; 5] = [0xff, 0x00, b':', 0x80, 0xfe];
    assert_eq!(split_paths(&value), vec![vec![0xff, 0x00], vec![0x80, 0xfe]]);
}

#[test]
fn join_of_usual_entries() {
    assert_eq!(
        join_paths(&list(&["/usr/bin", "/bin"])),
        Some(b"/usr/bin:/bin".to_vec())
    );
}

#[test]
fn join_of_nothing_is_empty() {
    assert_eq!(join_paths(&list(&[])), Some(Vec::new()));
    assert_eq!(join_paths(&list(&[""])), Some(Vec::new()));
}

#[test]
fn join_of_one_entry_has_no_separator() {
    assert_eq!(join_paths(&list(&["/bin"])), Some(b"/bin".to_vec()));
}

#[test]
fn join_refuses_an_entry_with_a_separator() {
    assert_eq!(join_paths(&list(&["/usr/bin", "/odd:dir"])), None);
    assert_eq!(join_paths(&list(&[":"])), None);
}

#[test]
fn join_on_writes_any_pieces() {
    assert_eq!(join_on(&list(&["a:b", "c"]), b':'), b"a:b:c".to_vec());
    assert_eq!(join_on(&list(&["", "tmp", "x"]), b'/'), b"/tmp/x".to_vec());
}

#[test]
fn join_undoes_split() {
    for value in [
        &b""[..],
        b":",
        b"/bin",
        b"/usr/bin:/bin",
        b":/a::/b:",
        b"relative:./here:..",
    ] {
        assert_eq!(join_paths(&split_paths(value)), Some(value.to_vec()));
    }
}

#[test]
fn split_undoes_join() {
    for entries in [
        list(&["/bin"]),
        list(&["/a", "/b", "/c"]),
        list(&["", ""]),
        list(&["/a", "", "/b"]),
    ] {
        let value = join_paths(&entries).unwrap();
        assert_eq!(split_paths(&value), entries);
    }
}

#[test]
fn pieces_free_looks_at_every_piece() {
    assert!(pieces_free(&list(&["/a", "/b"]), b':'));
    assert!(pieces_free(&list(&[]), b':'));
    assert!(!pieces_free(&list(&["/a", "/b:"]), b':'));
    assert!(!pieces_free(&list(&[":/a", "/b"]), b':'));
}

#[test]
fn contains_byte_finds_first_middle_last() {
    assert!(contains_byte(b":ab", b':'));
    assert!(contains_byte(b"a:b", b':'));
    assert!(contains_byte(b"ab:", b':'));
    assert!(!contains_byte(b"ab", b':'));
    assert!(!contains_byte(b"", b':'));
}

#[test]
fn bytes_equal_compares_every_byte() {
    assert!(bytes_equal(b"", b""));
    assert!(bytes_equal(b"/tmp", b"/tmp"));
    assert!(!bytes_equal(b"/tmp", b"/tmq"));
    assert!(!bytes_equal(b"/tmp", b"/tmp/"));
    assert!(!bytes_equal(b"xtmp", b"/tmp"));
}

#[test]
fn lists_equal_compares_every_piece() {
    assert!(lists_equal(&list(&[]), &list(&[])));
    assert!(lists_equal(&list(&["a", "b"]), &list(&["a", "b"])));
    assert!(!lists_equal(&list(&["a", "b"]), &list(&["a", "c"])));
    assert!(!lists_equal(&list(&["a", "b"]), &list(&["a"])));
    assert!(!lists_equal(&list(&["a"]), &list(&["a", ""])));
}

#[test]
fn prepend_puts_the_directory_first() {
    assert_eq!(
        prepend(b"/usr/bin:/bin", b"/tmp/mock"),
        Some(b"/tmp/mock:/usr/bin:/bin".to_vec())
    );
    let value = prepend(b"/usr/bin:/bin", b"/tmp/mock").unwrap();
    assert_eq!(split_paths(&value)[0], b"/tmp/mock".to_vec());
    assert_eq!(split_paths(&value)[1..], list(&["/usr/bin", "/bin"])[..]);
}

#[test]
fn prepend_to_empty_value_keeps_the_empty_entry() {
    assert_eq!(prepend(b"", b"/tmp/mock"), Some(b"/tmp/mock:".to_vec()));
}

#[test]
fn prepend_stacks_the_latest_first() {
    let one = prepend(b"/bin", b"/tmp/a").unwrap();
    let two = prepend(&one, b"/tmp/b").unwrap();
    assert_eq!(two, b"/tmp/b:/tmp/a:/bin".to_vec());
}

#[test]
fn prepend_refuses_a_directory_with_a_separator() {
    assert_eq!(prepend(b"/bin", b"/tmp/a:b"), None);
}

#[test]
fn remove_takes_the_directory_out() {
    assert_eq!(
        remove(b"/tmp/mock:/usr/bin:/bin", b"/tmp/mock"),
        b"/usr/bin:/bin".to_vec()
    );
    assert_eq!(
        remove(b"/usr/bin:/tmp/mock:/bin", b"/tmp/mock"),
        b"/usr/bin:/bin".to_vec()
    );
    assert_eq!(
        remove(b"/usr/bin:/bin:/tmp/mock", b"/tmp/mock"),
        b"/usr/bin:/bin".to_vec()
    );
}

#[test]
fn remove_takes_every_spelling_out() {
    assert_eq!(
        remove(b"/tmp/mock/:/usr/bin:/tmp//mock:/bin:/tmp/./mock", b"/tmp/mock"),
        b"/usr/bin:/bin".to_vec()
    );
}

#[test]
fn remove_of_a_missing_directory_changes_nothing() {
    assert_eq!(
        remove(b"/usr/bin:/bin", b"/tmp/mock"),
        b"/usr/bin:/bin".to_vec()
    );
    assert_eq!(remove(b"", b"/tmp/mock"), Vec::<u8>::new());
    assert_eq!(remove(b":/bin:", b"/tmp/mock"), b":/bin:".to_vec());
}

#[test]
fn remove_twice_is_remove_once() {
    let once = remove(b"/a:/tmp/mock:/b:/tmp/mock/", b"/tmp/mock");
    let twice = remove(&once, b"/tmp/mock");
    assert_eq!(once, b"/a:/b".to_vec());
    assert_eq!(twice, once);
}

#[test]
fn remove_of_the_only_entry_leaves_the_empty_value() {
    assert_eq!(remove(b"/tmp/mock", b"/tmp/mock"), Vec::<u8>::new());
    assert_eq!(remove(b"/tmp/mock:/tmp/mock/", b"/tmp/mock"), Vec::<u8>::new());
}

#[test]
fn remove_undoes_prepend() {
    for value in [&b"/usr/bin:/bin"[..], b"", b"/bin", b":/a::/b:"] {
        let with = prepend(value, b"/tmp/mock").unwrap();
        assert_eq!(split_paths(&with)[0], b"/tmp/mock".to_vec());
        assert_eq!(remove(&with, b"/tmp/mock"), value.to_vec());
    }
}

#[test]
fn remove_leaves_no_entry_that_spells_the_directory() {
    let left = remove(b"/x:/tmp/mock:/y:/tmp/mock//:/z", b"/tmp/mock/");
    for entry in split_paths(&left) {
        assert!(!is_same_directory(&entry, b"/tmp/mock"));
    }
    assert_eq!(left, b"/x:/y:/z".to_vec());
}

#[test]
fn release_takes_the_first_spelling_out() {
    assert_eq!(
        release(b"/tmp/mock:/usr/bin:/bin", b"/tmp/mock"),
        b"/usr/bin:/bin".to_vec()
    );
    assert_eq!(
        release(b"/usr/bin:/tmp/mock/:/bin", b"/tmp/mock"),
        b"/usr/bin:/bin".to_vec()
    );
    assert_eq!(
        release(b"/usr/bin:/bin:/tmp//mock", b"/tmp/mock"),
        b"/usr/bin:/bin".to_vec()
    );
}

#[test]
fn release_leaves_later_spellings_in_place() {
    assert_eq!(
        release(b"/tmp/mock:/x:/tmp/mock:/y:/tmp/mock/", b"/tmp/mock"),
        b"/x:/tmp/mock:/y:/tmp/mock/".to_vec()
    );
    assert_eq!(
        release(b"/x:/tmp/mock/:/tmp/mock", b"/tmp/mock"),
        b"/x:/tmp/mock".to_vec()
    );
    assert_eq!(release(b"/d:/d", b"/d"), b"/d".to_vec());
}

#[test]
fn release_of_a_missing_directory_changes_nothing() {
    for value in [&b"/usr/bin:/bin"[..], b"", b":/bin:", b"::"] {
        assert_eq!(release(value, b"/tmp/mock"), value.to_vec());
    }
}

#[test]
fn release_of_the_only_entry_leaves_the_empty_value() {
    assert_eq!(release(b"/tmp/mock", b"/tmp/mock"), Vec::<u8>::new());
    assert_eq!(release(b"", b""), Vec::<u8>::new());
}

#[test]
fn release_undoes_prepend_whatever_the_value_holds() {
    for value in [
        &b"/usr/bin:/bin"[..],
        b"",
        b"/bin",
        b":/a::/b:",
        b"/tmp/mock",
        b"/x:/tmp/mock/:/y:/tmp/mock",
    ] {
        let with = prepend(value, b"/tmp/mock").unwrap();
        assert_eq!(release(&with, b"/tmp/mock"), value.to_vec());
    }
}

#[test]
fn release_is_remove_where_one_entry_spells_the_directory() {
    for value in [
        &b"/tmp/mock:/usr/bin:/bin"[..],
        b"/usr/bin:/tmp/mock/",
        b"/usr/bin:/bin",
        b"",
        b"/tmp/mock",
    ] {
        assert_eq!(release(value, b"/tmp/mock"), remove(value, b"/tmp/mock"));
    }
}

#[test]
fn release_leaves_another_first_entry() {
    for value in [
        &b"/tmp/mock:/usr/bin:/bin"[..],
        b"/usr/bin:/tmp/mock:/tmp/mock",
        b"/tmp/mock",
        b"/tmp/mock:/x:/tmp/mock",
    ] {
        let left = release(value, b"/tmp/mock");
        assert!(!is_same_directory(&split_paths(&left)[0], b"/tmp/mock"));
    }
}

#[test]
fn remove_takes_out_an_entry_that_is_a_link_to_the_directory() {
    let value = b"/usr/bin:/link/to/mock:/bin";
    let resolved = list(&["/usr/bin", "/tmp/mock", "/bin"]);
    assert_eq!(
        remove_resolved(value, &resolved, b"/tmp/mock"),
        Some(b"/usr/bin:/bin".to_vec())
    );
}

#[test]
fn remove_compares_with_the_resolved_directory() {
    let value = b"/usr/bin:/private/tmp/mock:/bin";
    let resolved = list(&["/usr/bin", "/private/tmp/mock", "/bin"]);
    assert_eq!(
        remove_resolved(value, &resolved, b"/private/tmp/mock/"),
        Some(b"/usr/bin:/bin".to_vec())
    );
}

#[test]
fn remove_keeps_an_entry_spelled_alike_that_leads_elsewhere() {
    let value = b"/tmp/mock:/link:/bin";
    let resolved = list(&["/elsewhere", "/tmp/mock", "/bin"]);
    assert_eq!(
        remove_resolved(value, &resolved, b"/tmp/mock"),
        Some(b"/tmp/mock:/bin".to_vec())
    );
}

#[test]
fn remove_takes_out_every_spelling_and_every_link() {
    let value = b"/a:/tmp/mock/:/b:/link1:/c:/link2";
    let resolved = list(&["/a", "/tmp/mock/", "/b", "/tmp/mock", "/c", "/tmp//mock"]);
    assert_eq!(
        remove_resolved(value, &resolved, b"/tmp/mock"),
        Some(b"/a:/b:/c".to_vec())
    );
}

#[test]
fn remove_keeps_the_other_entries_as_they_are_spelled() {
    let value = b"/link/a:/tmp/mock:./b/";
    let resolved = list(&["/real/a", "/tmp/mock", "/cwd/b"]);
    assert_eq!(
        remove_resolved(value, &resolved, b"/tmp/mock"),
        Some(b"/link/a:./b/".to_vec())
    );
}

#[test]
fn remove_needs_one_resolved_path_for_each_entry() {
    assert_eq!(remove_resolved(b"/a:/b", &list(&["/a"]), b"/a"), None);
    assert_eq!(remove_resolved(b"/a:/b", &list(&["/a", "/b", "/c"]), b"/a"), None);
    assert_eq!(remove_resolved(b"", &list(&[]), b"/a"), None);
    assert_eq!(remove_resolved(b"", &list(&[""]), b"/a"), Some(Vec::new()));
}

#[test]
fn release_takes_out_the_first_entry_that_is_a_link_to_the_directory() {
    let value = b"/usr/bin:/link/to/mock:/tmp/mock:/bin";
    let resolved = list(&["/usr/bin", "/tmp/mock", "/tmp/mock", "/bin"]);
    assert_eq!(
        release_resolved(value, &resolved, b"/tmp/mock"),
        Some(b"/usr/bin:/tmp/mock:/bin".to_vec())
    );
}

#[test]
fn release_passes_an_entry_spelled_alike_that_leads_elsewhere() {
    let value = b"/tmp/mock:/link:/bin";
    let resolved = list(&["/elsewhere", "/tmp/mock", "/bin"]);
    assert_eq!(
        release_resolved(value, &resolved, b"/tmp/mock"),
        Some(b"/tmp/mock:/bin".to_vec())
    );
}

#[test]
fn release_needs_one_resolved_path_for_each_entry() {
    assert_eq!(release_resolved(b"/a:/b", &list(&["/a"]), b"/a"), None);
    assert_eq!(release_resolved(b"/a", &list(&["/a", "/b"]), b"/a"), None);
    assert_eq!(release_resolved(b"/a", &list(&["/a"]), b"/a"), Some(Vec::new()));
}

#[test]
fn release_undoes_prepend_of_a_linked_directory() {
    let value = b"/usr/bin:/bin";
    let with = prepend(value, b"/var/tmp/mock").unwrap();
    let resolved = list(&["/private/var/tmp/mock", "/usr/bin", "/bin"]);
    assert_eq!(
        release_resolved(&with, &resolved, b"/private/var/tmp/mock"),
        Some(value.to_vec())
    );
}

#[test]
fn remove_twice_with_links_is_remove_once() {
    let value = b"/a:/link:/b:/tmp/mock/";
    let resolved = list(&["/a", "/tmp/mock", "/b", "/tmp/mock/"]);
    let once = remove_resolved(value, &resolved, b"/tmp/mock").unwrap();
    assert_eq!(once, b"/a:/b".to_vec());
    let twice = remove_resolved(&once, &list(&["/a", "/b"]), b"/tmp/mock").unwrap();
    assert_eq!(twice, once);
}
