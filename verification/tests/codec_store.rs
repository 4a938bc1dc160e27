use rbtw::boot_target::BootTarget;
use rbtw::bootctl::efi_protection;
use rbtw::errors::Error;
use rbtw::setuid;
use rbtw::store::{data_range, Store};

#[test]
fn serialized_form_is_readable_text() {
    let t = BootTarget::Efi { pattern: String::from("win") };
    assert_eq!(t.to_bytes(), b"Efi(pattern:\"win\")".to_vec());
    let t2 = BootTarget::SystemdBoot {
        title: String::from("Windows"),
        root: String::from("/dev/sda3"),
    };
    assert_eq!(
        t2.to_bytes(),
        b"SystemdBoot(title:\"Windows\",root:\"/dev/sda3\")".to_vec()
    );
}

#[test]
fn codec_round_trips_plain_targets() {
    let t = BootTarget::SystemdBoot {
        title: String::from("Windows"),
        root: String::from("/dev/sda3"),
    };
    let bytes = t.to_bytes();
    match BootTarget::from_bytes(&bytes).unwrap() {
        BootTarget::SystemdBoot { title, root } => {
            assert_eq!(title, "Windows");
            assert_eq!(root, "/dev/sda3");
        }
        _ => panic!("wrong variant back"),
    }
}

#[test]
fn codec_round_trips_quotes_backslashes_and_unicode() {
    let title = String::from("We\"ird\\Os — Ω😀");
    let root = String::from("PARTUUID=\\x5c\"q\"");
    let t = BootTarget::SystemdBoot { title: title.clone(), root: root.clone() };
    let bytes = t.to_bytes();
    match BootTarget::from_bytes(&bytes).unwrap() {
        BootTarget::SystemdBoot { title: t2, root: r2 } => {
            assert_eq!(t2, title);
            assert_eq!(r2, root);
        }
        _ => panic!("wrong variant back"),
    }
    let p = String::from("a\\\"b");
    let t3 = BootTarget::Efi { pattern: p.clone() };
    match BootTarget::from_bytes(&t3.to_bytes()).unwrap() {
        BootTarget::Efi { pattern } => assert_eq!(pattern, p),
        _ => panic!("wrong variant back"),
    }
}

#[test]
fn from_bytes_parses_literal_text() {
    let bytes = b"SystemdBoot(title:\"Ubuntu\",root:\"/dev/sda2\")".to_vec();
    match BootTarget::from_bytes(&bytes).unwrap() {
        BootTarget::SystemdBoot { title, root } => {
            assert_eq!(title, "Ubuntu");
            assert_eq!(root, "/dev/sda2");
        }
        _ => panic!("wrong variant"),
    }
}

#[test]
fn from_bytes_rejects_garbage() {
    for bad in [
        &b"not a target"[..],
        &b"Efi(pattern:\"unterminated"[..],
        &b"Efi(pattern:\"x\")trailing"[..],
        &b"Efi(pattern:\"bad\\escape\")"[..],
        &b"SystemdBoot(title:\"t\")"[..],
        &b""[..],
    ] {
        let err = BootTarget::from_bytes(&bad.to_vec()).unwrap_err();
        assert!(matches!(err, Error::StoredTargetInvalid));
    }
    // A string whose bytes are not UTF-8 is rejected too.
    let mut bytes = b"Efi(pattern:\"".to_vec();
    bytes.push(0xFF);
    bytes.extend_from_slice(b"\")");
    assert!(matches!(
        BootTarget::from_bytes(&bytes).unwrap_err(),
        Error::StoredTargetInvalid
    ));
}

const START: &[u8] = b"rsientbmefu39285cmser";
const END: &[u8] = b"3894nestmvcsrent3";

#[test]
fn open_without_markers_keeps_everything_as_binary() {
    let content = b"\x7fELF fake binary".to_vec();
    let s = Store::open(content.clone());
    assert_eq!(s.binary_bytes, content);
    assert!(s.data_bytes.is_empty());
}

#[test]
fn set_data_then_open_round_trips() {
    let s = Store { binary_bytes: b"\x7fELF binary".to_vec(), data_bytes: Vec::new() };
    let payload = b"Efi(pattern:\"win\")".to_vec();
    let rewritten = s.set_data(&payload);
    let mut expected = b"\x7fELF binary".to_vec();
    expected.extend_from_slice(START);
    expected.extend_from_slice(&payload);
    expected.extend_from_slice(END);
    assert_eq!(rewritten, expected);

    let reopened = Store::open(rewritten);
    assert_eq!(reopened.binary_bytes, b"\x7fELF binary".to_vec());
    assert_eq!(reopened.data_bytes, payload);
}

#[test]
fn data_range_finds_the_last_start_marker() {
    let mut content = Vec::new();
    content.extend_from_slice(b"bin");
    content.extend_from_slice(START);
    content.extend_from_slice(b"old");
    content.extend_from_slice(START);
    content.extend_from_slice(b"new");
    content.extend_from_slice(END);
    let dr = data_range(&content).unwrap();
    assert_eq!(dr.header_start, 3 + START.len() + 3);
    assert_eq!(dr.data_start, dr.header_start + START.len());
    assert_eq!(dr.data_end, content.len() - END.len());
    assert_eq!(&content[dr.data_start..dr.data_end], b"new");
}

#[test]
fn data_range_none_without_end_marker() {
    let mut content = b"bin".to_vec();
    content.extend_from_slice(START);
    content.extend_from_slice(b"data but no end");
    assert!(data_range(&content).is_none());
}

#[test]
fn guard_touches_only_the_immutable_bit() {
    // Scenario: an attribute word with extraneous bits set before and
    // after; remove then add must be a no-op on all of them.
    let attr: u64 = 0xABCD_EF35; // bit 4 set, many others set too
    let cleared = efi_protection::remove(attr);
    assert_eq!(cleared & 0x10, 0);
    assert_eq!(cleared & !0x10, attr & !0x10);
    let restored = efi_protection::add(cleared);
    assert_eq!(restored, attr);

    // Same dance starting without the immutable bit.
    let attr2: u64 = 0xABCD_EF25; // bit 4 clear
    assert_eq!(efi_protection::remove(attr2), attr2);
    assert_eq!(efi_protection::add(attr2) & !0x10, attr2 & !0x10);
}

#[test]
fn setuid_bit_detection_and_mode() {
    assert!(setuid::is_set(0o4705));
    assert!(setuid::is_set(0o4000));
    assert!(!setuid::is_set(0o0705));
    assert_eq!(setuid::tool_mode(), 0o4705);
    assert!(setuid::is_set(setuid::tool_mode()));
}

#[test]
fn error_messages_name_the_offending_path() {
    let attr = Error::AttributeError { path: String::from("/sys/firmware/efi/efivars/x") };
    assert!(attr.message().contains("/sys/firmware/efi/efivars/x"));
    let write = Error::PrivilegedWriteError { path: String::from("/boot/efi/loader/entries/w") };
    assert!(write.message().contains("/boot/efi/loader/entries/w"));
    let name = Error::CatalogParseError {
        id: String::from("bad\u{fffd}name"),
        reason: rbtw::errors::ParseIssue::NameNotText,
    };
    assert!(name.message().contains("not text"));
}
