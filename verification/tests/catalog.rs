use rbtw::bootctl::{self, BootEntry};
use rbtw::errors::{Error, ParseIssue};

fn files(list: &[(&str, &str)]) -> Vec<(String, String)> {
    list.iter().map(|(id, c)| (String::from(*id), String::from(*c))).collect()
}

#[test]
fn from_file_reads_title_root_and_id() {
    let e = BootEntry::from_file(
        String::from("windows.conf"),
        "title Windows\nlinux /vmlinuz\noptions root=/dev/sda3 quiet splash\n",
    )
    .unwrap();
    assert_eq!(e.title, "Windows");
    assert_eq!(e.root, "/dev/sda3");
    assert_eq!(e.id, "windows.conf");
}

#[test]
fn from_file_trims_and_handles_crlf() {
    let e = BootEntry::from_file(
        String::from("w.conf"),
        "  title   Spaced Out  \r\n  options  root=PARTUUID=abcd other=1\r\n",
    )
    .unwrap();
    assert_eq!(e.title, "Spaced Out");
    // The first key=value token wins; its value runs to the next space.
    assert_eq!(e.root, "PARTUUID=abcd");
}

#[test]
fn from_file_takes_first_key_value_token() {
    let e = BootEntry::from_file(
        String::from("w.conf"),
        "title T\noptions quiet root=/dev/sda1 loglevel=3\n",
    )
    .unwrap();
    assert_eq!(e.root, "/dev/sda1");
}

#[test]
fn from_file_missing_options_fails() {
    let err = BootEntry::from_file(String::from("bad.conf"), "title Only\n").unwrap_err();
    match err {
        Error::CatalogParseError { id, reason } => {
            assert_eq!(id, "bad.conf");
            assert!(matches!(reason, ParseIssue::MissingOptions));
        }
        _ => panic!("expected CatalogParseError"),
    }
}

#[test]
fn from_file_missing_title_fails() {
    let err =
        BootEntry::from_file(String::from("bad.conf"), "options root=/dev/sda1\n").unwrap_err();
    assert!(matches!(
        err,
        Error::CatalogParseError { reason: ParseIssue::MissingTitle, .. }
    ));
}

#[test]
fn from_file_duplicate_title_fails() {
    let err = BootEntry::from_file(
        String::from("bad.conf"),
        "title One\ntitle Two\noptions root=/dev/sda1\n",
    )
    .unwrap_err();
    assert!(matches!(
        err,
        Error::CatalogParseError { reason: ParseIssue::DuplicateTitle, .. }
    ));
}

#[test]
fn from_file_duplicate_options_fails() {
    let err = BootEntry::from_file(
        String::from("bad.conf"),
        "title One\noptions root=/dev/sda1\noptions root=/dev/sda2\n",
    )
    .unwrap_err();
    assert!(matches!(
        err,
        Error::CatalogParseError { reason: ParseIssue::DuplicateOptions, .. }
    ));
}

#[test]
fn from_file_options_without_root_token_fails() {
    let err = BootEntry::from_file(String::from("bad.conf"), "title T\noptions quiet splash\n")
        .unwrap_err();
    assert!(matches!(
        err,
        Error::CatalogParseError { reason: ParseIssue::NoRootToken, .. }
    ));
}

#[test]
fn list_returns_all_entries_in_order() {
    let fs = files(&[
        ("a.conf", "title A\noptions root=/dev/sda1\n"),
        ("b.conf", "title B\noptions root=/dev/sda2\n"),
    ]);
    let es = bootctl::list(&fs).unwrap();
    assert_eq!(es.len(), 2);
    assert_eq!(es[0].title, "A");
    assert_eq!(es[1].id, "b.conf");
}

#[test]
fn one_corrupt_entry_fails_the_whole_listing() {
    // Scenario: a file missing its options line poisons the catalog,
    // even though the other entries are fine.
    let fs = files(&[
        ("good.conf", "title Good\noptions root=/dev/sda1\n"),
        ("bad.conf", "title Bad\n"),
        ("also-good.conf", "title Also\noptions root=/dev/sda2\n"),
    ]);
    let err = bootctl::list(&fs).unwrap_err();
    match err {
        Error::CatalogParseError { id, reason } => {
            assert_eq!(id, "bad.conf");
            assert!(matches!(reason, ParseIssue::MissingOptions));
        }
        _ => panic!("expected CatalogParseError"),
    }
}

#[test]
fn matching_pattern_picks_first_and_flags_multiple() {
    let entries = vec![
        BootEntry { title: "Arch".into(), root: "/dev/sda1".into(), id: "a".into() },
        BootEntry { title: "Windows 10".into(), root: "/dev/sda2".into(), id: "b".into() },
        BootEntry { title: "windows 11".into(), root: "/dev/sda3".into(), id: "c".into() },
    ];
    let (m, multiple) = bootctl::matching_pattern(&entries, "WINDOWS");
    let m = m.unwrap();
    assert_eq!(m.id, "b");
    assert!(multiple);
    let (none, multi2) = bootctl::matching_pattern(&entries, "gentoo");
    assert!(none.is_none());
    assert!(!multi2);
}

#[test]
fn matching_root_is_exact_and_case_sensitive() {
    let entries = vec![
        BootEntry { title: "A".into(), root: "/dev/SDA1".into(), id: "a".into() },
        BootEntry { title: "B".into(), root: "/dev/sda1".into(), id: "b".into() },
    ];
    let (m, multiple) = bootctl::matching_root(&entries, "/dev/sda1");
    assert_eq!(m.unwrap().id, "b");
    assert!(!multiple);
    let (none, _) = bootctl::matching_root(&entries, "/dev/sda");
    assert!(none.is_none());
}

#[test]
fn encode_is_utf16_little_endian() {
    let e = BootEntry { title: "T".into(), root: "r".into(), id: "ab".into() };
    assert_eq!(e.encode(), vec![0x61, 0x00, 0x62, 0x00]);
    let e2 = BootEntry { title: "T".into(), root: "r".into(), id: "é".into() };
    assert_eq!(e2.encode(), vec![0xE9, 0x00]);
    // An astral character becomes a surrogate pair.
    let e3 = BootEntry { title: "T".into(), root: "r".into(), id: "😀".into() };
    assert_eq!(e3.encode(), vec![0x3D, 0xD8, 0x00, 0xDE]);
    // Cross-check against the standard library's encoder.
    let reference: Vec<u8> = "ümlaut-😀.conf"
        .encode_utf16()
        .flat_map(|u| u.to_le_bytes())
        .collect();
    let e4 = BootEntry { title: "T".into(), root: "r".into(), id: "ümlaut-😀.conf".into() };
    assert_eq!(e4.encode(), reference);
}

#[test]
fn rename_entry_title_rewrites_only_title_lines() {
    // The trailing newline and every byte outside the title value
    // must come through unchanged.
    let renamed = bootctl::rename_entry_title(
        "title\t Old Name\nlinux /vmlinuz\noptions root=/dev/sda3\n",
        "Windows",
    );
    assert_eq!(renamed, "title\t Windows\nlinux /vmlinuz\noptions root=/dev/sda3\n");
}

#[test]
fn rename_entry_title_leaves_other_lines_untouched() {
    let renamed = bootctl::rename_entry_title("# a comment\nlinux /vmlinuz", "New");
    assert_eq!(renamed, "# a comment\nlinux /vmlinuz");
}

#[test]
fn rename_entry_title_preserves_carriage_returns() {
    // Windows-style endings stay Windows-style, on title lines too.
    let renamed =
        bootctl::rename_entry_title("title Old\r\noptions root=/dev/sda3\r\n", "Windows");
    assert_eq!(renamed, "title Windows\r\noptions root=/dev/sda3\r\n");
}

#[test]
fn rename_entry_title_without_final_newline_adds_none() {
    let renamed = bootctl::rename_entry_title("linux /vmlinuz\ntitle  Old", "New");
    assert_eq!(renamed, "linux /vmlinuz\ntitle  New");
}

#[test]
fn oneshot_write_constants() {
    assert_eq!(bootctl::oneshot_variable_name(), "LoaderEntryOneShot");
    assert_eq!(
        bootctl::systemd_boot_vendor_uuid(),
        "4a67b082-0a4c-41cf-b6c7-440b29bb8c4f"
    );
    // non-volatile | boot-service access | runtime access
    assert_eq!(bootctl::oneshot_variable_flags(), 0x7);
}
