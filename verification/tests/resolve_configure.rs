use rbtw::boot_target::{BootPlan, BootTarget};
use rbtw::bootctl::BootEntry;
use rbtw::efi;
use rbtw::errors::Error;

fn sd(title: &str, root: &str, id: &str) -> BootEntry {
    BootEntry { title: String::from(title), root: String::from(root), id: String::from(id) }
}

fn fw(title: &str, number: u16) -> efi::BootEntry {
    efi::BootEntry { title: String::from(title), number }
}

#[test]
fn resolve_prefers_unique_efi_match() {
    let efi_entries = vec![fw("Windows Boot Manager", 3), fw("Fedora", 1)];
    let sd_entries = vec![sd("Ubuntu", "/dev/sda2", "ubuntu.conf")];
    let r = BootTarget::resolve(String::from("windows"), &efi_entries, &sd_entries).unwrap();
    assert!(matches!(r.0, BootTarget::Efi { ref pattern } if pattern == "windows"));
    assert!(!r.1);
}

#[test]
fn resolve_is_case_insensitive_both_ways() {
    // Fails if lowercasing were skipped on either side.
    let efi_entries = vec![fw("WINDOWS BOOT MANAGER", 3)];
    let sd_entries = vec![];
    let r = BootTarget::resolve(String::from("wInDoWs"), &efi_entries, &sd_entries).unwrap();
    assert!(matches!(r.0, BootTarget::Efi { .. }));
}

#[test]
fn resolve_flags_ambiguous_efi_match() {
    let efi_entries = vec![fw("Linux A", 1), fw("Linux B", 2)];
    let r = BootTarget::resolve(String::from("linux"), &efi_entries, &vec![]).unwrap();
    assert!(matches!(r.0, BootTarget::Efi { .. }));
    assert!(r.1);
}

#[test]
fn resolve_falls_back_to_systemd_boot() {
    // Scenario: two loader entries, no firmware match for "win".
    let efi_entries = vec![fw("Fedora", 1)];
    let sd_entries = vec![sd("Ubuntu", "/dev/sda2", "u.conf"), sd("Windows", "/dev/sda3", "w.conf")];
    let r = BootTarget::resolve(String::from("win"), &efi_entries, &sd_entries).unwrap();
    match r.0 {
        BootTarget::SystemdBoot { title, root } => {
            assert_eq!(title, "Windows");
            assert_eq!(root, "/dev/sda3");
        }
        other => panic!("expected SystemdBoot, got {:?}", target_kind(&other)),
    }
    assert!(!r.1);
}

fn target_kind(t: &BootTarget) -> &'static str {
    match t {
        BootTarget::Efi { .. } => "Efi",
        BootTarget::SystemdBoot { .. } => "SystemdBoot",
    }
}

#[test]
fn resolve_error_lists_every_title() {
    let efi_entries = vec![fw("Fedora", 1), fw("Windows Boot Manager", 2)];
    let sd_entries = vec![sd("Ubuntu", "/dev/sda2", "u.conf"), sd("Arch", "/dev/sda4", "a.conf")];
    let err = BootTarget::resolve(String::from("plan9"), &efi_entries, &sd_entries).unwrap_err();
    match &err {
        Error::NoMatchingEntry { pattern, available } => {
            assert_eq!(pattern, "plan9");
            assert_eq!(available.len(), 4);
        }
        _ => panic!("expected NoMatchingEntry"),
    }
    let msg = err.message();
    for title in ["Fedora", "Windows Boot Manager", "Ubuntu", "Arch", "plan9"] {
        assert!(msg.contains(title), "message misses {title}: {msg}");
    }
}

#[test]
fn configure_efi_target_plans_boot_next() {
    let target = BootTarget::Efi { pattern: String::from("win") };
    let efi_entries = vec![fw("Fedora", 1), fw("Windows Boot Manager", 7)];
    let plan = target.configure_next_boot(&efi_entries, &vec![], false).unwrap();
    assert!(matches!(plan, BootPlan::SetBootNext { number: 7 }));
}

#[test]
fn configure_efi_target_gone_is_stale() {
    let target = BootTarget::Efi { pattern: String::from("win") };
    let efi_entries = vec![fw("Fedora", 1)];
    let err = target.configure_next_boot(&efi_entries, &vec![], false).unwrap_err();
    assert!(matches!(err, Error::StaleTarget));
}

#[test]
fn configure_root_changed_is_hard_stop() {
    // Scenario: disk reassigned under the same title.
    let target =
        BootTarget::SystemdBoot { title: String::from("Windows"), root: String::from("/dev/sda3") };
    let sd_entries = vec![sd("Windows", "/dev/sda9", "w.conf")];
    let err = target.configure_next_boot(&vec![], &sd_entries, false).unwrap_err();
    match err {
        Error::RootChanged { expected, found } => {
            assert_eq!(expected, "/dev/sda3");
            assert_eq!(found, "/dev/sda9");
        }
        _ => panic!("expected RootChanged"),
    }
}

#[test]
fn configure_same_title_and_root_plans_oneshot() {
    let target =
        BootTarget::SystemdBoot { title: String::from("Windows"), root: String::from("/dev/sda3") };
    let sd_entries = vec![sd("Ubuntu", "/dev/sda2", "u.conf"), sd("Windows", "/dev/sda3", "w.conf")];
    let plan = target.configure_next_boot(&vec![], &sd_entries, false).unwrap();
    match plan {
        BootPlan::Oneshot { entry } => {
            assert_eq!(entry.title, "Windows");
            assert_eq!(entry.root, "/dev/sda3");
            assert_eq!(entry.id, "w.conf");
        }
        _ => panic!("expected Oneshot"),
    }
}

#[test]
fn configure_renamed_entry_confirmed_plans_rename() {
    // Scenario: renamed only; user confirms the rename back.
    let target =
        BootTarget::SystemdBoot { title: String::from("Windows"), root: String::from("/dev/sda3") };
    let sd_entries = vec![sd("Win11", "/dev/sda3", "w.conf")];
    assert!(target.rename_prompt_needed(&sd_entries));
    let plan = target.configure_next_boot(&vec![], &sd_entries, true).unwrap();
    match plan {
        BootPlan::RenameThenOneshot { entry, new_title } => {
            assert_eq!(entry.id, "w.conf");
            assert_eq!(entry.title, "Win11");
            assert_eq!(new_title, "Windows");
        }
        _ => panic!("expected RenameThenOneshot"),
    }
}

#[test]
fn configure_renamed_entry_declined_plans_plain_oneshot() {
    let target =
        BootTarget::SystemdBoot { title: String::from("Windows"), root: String::from("/dev/sda3") };
    let sd_entries = vec![sd("Win11", "/dev/sda3", "w.conf")];
    let plan = target.configure_next_boot(&vec![], &sd_entries, false).unwrap();
    assert!(matches!(plan, BootPlan::Oneshot { ref entry } if entry.id == "w.conf"));
}

#[test]
fn configure_nothing_matches_is_stale() {
    let target =
        BootTarget::SystemdBoot { title: String::from("Windows"), root: String::from("/dev/sda3") };
    let sd_entries = vec![sd("Ubuntu", "/dev/sda2", "u.conf")];
    let err = target.configure_next_boot(&vec![], &sd_entries, false).unwrap_err();
    assert!(matches!(err, Error::StaleTarget));
    assert!(!target.rename_prompt_needed(&sd_entries));
}

#[test]
fn configure_twice_plans_identical_writes() {
    // Idempotence: with the target still valid and the catalogs
    // unchanged, the second run plans exactly the write the first
    // one planned, so the one-shot variable ends in the same state.
    let target =
        BootTarget::SystemdBoot { title: String::from("Windows"), root: String::from("/dev/sda3") };
    let sd_entries = vec![sd("Windows", "/dev/sda3", "w.conf")];
    let first = target.configure_next_boot(&vec![], &sd_entries, false).unwrap();
    let second = target.configure_next_boot(&vec![], &sd_entries, false).unwrap();
    match (first, second) {
        (BootPlan::Oneshot { entry: a }, BootPlan::Oneshot { entry: b }) => {
            assert_eq!(a.encode(), b.encode());
        }
        _ => panic!("expected two Oneshot plans"),
    }
}
