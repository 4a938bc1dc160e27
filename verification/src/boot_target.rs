//! The boot target: a durable, backend-tagged reference to "the OS
//! the user wants next", with resolution against both catalogs and
//! the re-validated next-boot configuration decision.
//!
//! Catalog contents are handed in by the caller (they are external
//! mutable state, re-listed on every use); the decisions here are
//! pure and fully specified.

use vstd::prelude::*;
use vstd::string::*;
use crate::bootctl::{self, BootEntry};
use crate::efi;
use crate::errors::Error;

verus! {

/// The OS to boot next. `Efi` stores the pattern itself (firmware
/// numbers are not stable across updates); `SystemdBoot` stores the
/// exact title and root captured at resolution time, so a later
/// rename can still be caught by the unchanged root.
#[derive(Debug)]
pub enum BootTarget {
    Efi { pattern: String },
    SystemdBoot { title: String, root: String },
}

impl Clone for BootTarget {
    fn clone(&self) -> (r: Self)
        ensures
            r == *self,
    {
        match self {
            BootTarget::Efi { pattern } => BootTarget::Efi { pattern: pattern.clone() },
            BootTarget::SystemdBoot { title, root } => BootTarget::SystemdBoot {
                title: title.clone(),
                root: root.clone(),
            },
        }
    }
}

/// What the privileged side must do to make the target boot next:
/// either a firmware boot-next write, or the systemd-boot one-shot
/// variable write, optionally preceded by renaming the entry's title
/// back to the stored value.
#[derive(Debug)]
pub enum BootPlan {
    SetBootNext { number: u16 },
    Oneshot { entry: BootEntry },
    RenameThenOneshot { entry: BootEntry, new_title: String },
}

/// Some firmware option matches the pattern.
pub open spec fn efi_has_match(entries: Seq<efi::BootEntry>, pattern: Seq<char>) -> bool {
    exists|i: int| 0 <= i < entries.len() && efi::efi_match(entries, pattern, i)
}

/// More than one firmware option matches the pattern.
pub open spec fn efi_ambiguous(entries: Seq<efi::BootEntry>, pattern: Seq<char>) -> bool {
    exists|a: int, b: int|
        0 <= a < b < entries.len() && efi::efi_match(entries, pattern, a) && efi::efi_match(
            entries,
            pattern,
            b,
        )
}

/// Some loader entry's title matches the pattern.
pub open spec fn sd_has_match(entries: Seq<BootEntry>, pattern: Seq<char>) -> bool {
    exists|i: int| 0 <= i < entries.len() && bootctl::sd_match(entries, pattern, i)
}

/// More than one loader entry's title matches the pattern.
pub open spec fn sd_ambiguous(entries: Seq<BootEntry>, pattern: Seq<char>) -> bool {
    exists|a: int, b: int|
        0 <= a < b < entries.len() && bootctl::sd_match(entries, pattern, a) && bootctl::sd_match(
            entries,
            pattern,
            b,
        )
}

/// Some loader entry carries exactly this root.
pub open spec fn sd_has_root(entries: Seq<BootEntry>, root: Seq<char>) -> bool {
    exists|i: int| 0 <= i < entries.len() && bootctl::sd_root_match(entries, root, i)
}

/// Index of the first firmware option matching the pattern.
pub open spec fn first_efi_match(entries: Seq<efi::BootEntry>, pattern: Seq<char>) -> int {
    choose|i: int|
        0 <= i < entries.len() && efi::efi_match(entries, pattern, i) && (forall|k: int|
            0 <= k < i ==> !efi::efi_match(entries, pattern, k))
}

/// Index of the first loader entry whose title matches the pattern.
pub open spec fn first_sd_match(entries: Seq<BootEntry>, pattern: Seq<char>) -> int {
    choose|i: int|
        0 <= i < entries.len() && bootctl::sd_match(entries, pattern, i) && (forall|k: int|
            0 <= k < i ==> !bootctl::sd_match(entries, pattern, k))
}

/// Index of the first loader entry carrying exactly this root.
pub open spec fn first_sd_root(entries: Seq<BootEntry>, root: Seq<char>) -> int {
    choose|i: int|
        0 <= i < entries.len() && bootctl::sd_root_match(entries, root, i) && (forall|k: int|
            0 <= k < i ==> !bootctl::sd_root_match(entries, root, k))
}

/// Every title of both catalogs, firmware options first, in catalog
/// order.
pub open spec fn all_titles(
    efi_entries: Seq<efi::BootEntry>,
    sd_entries: Seq<BootEntry>,
) -> Seq<Seq<char>> {
    efi_entries.map(|i: int, e: efi::BootEntry| e.title@) + sd_entries.map(
        |i: int, e: BootEntry| e.title@,
    )
}

/// The configuration decision, as a function of the stored target,
/// the current catalogs, and the user's answer to the rename prompt.
/// This is what `configure_next_boot` computes; stating it as a
/// function makes the decision deterministic and re-checkable.
pub open spec fn configure_spec(
    target: BootTarget,
    efi_entries: Seq<efi::BootEntry>,
    sd_entries: Seq<BootEntry>,
    confirm_rename: bool,
) -> Result<BootPlan, Error> {
    match target {
        BootTarget::Efi { pattern } => {
            if efi_has_match(efi_entries, pattern@) {
                Ok(
                    BootPlan::SetBootNext {
                        number: efi_entries[first_efi_match(efi_entries, pattern@)].number,
                    },
                )
            } else {
                Err(Error::StaleTarget)
            }
        },
        BootTarget::SystemdBoot { title, root } => {
            if sd_has_match(sd_entries, title@) {
                let e = sd_entries[first_sd_match(sd_entries, title@)];
                if e.root@ != root@ {
                    Err(Error::RootChanged { expected: root, found: e.root })
                } else {
                    Ok(BootPlan::Oneshot { entry: e })
                }
            } else if sd_has_root(sd_entries, root@) {
                let e = sd_entries[first_sd_root(sd_entries, root@)];
                if confirm_rename {
                    Ok(BootPlan::RenameThenOneshot { entry: e, new_title: title })
                } else {
                    Ok(BootPlan::Oneshot { entry: e })
                }
            } else {
                Err(Error::StaleTarget)
            }
        },
    }
}

impl BootTarget {
    /// Resolve a user pattern to a boot target: the firmware catalog
    /// is consulted first, then the systemd-boot catalog; when
    /// neither matches, the error lists every available title. The
    /// returned flag says the match was ambiguous (more than one
    /// entry of the winning catalog matched) and deserves a warning.
    pub fn resolve(
        pattern: String,
        efi_entries: &Vec<efi::BootEntry>,
        sd_entries: &Vec<BootEntry>,
    ) -> (r: Result<(BootTarget, bool), Error>)
        ensures
            efi_has_match(efi_entries@, pattern@) ==> (r matches Ok(t) && t.0 matches
                BootTarget::Efi { pattern: p } && p@ == pattern@ && t.1 == efi_ambiguous(
                efi_entries@,
                pattern@,
            )),
            !efi_has_match(efi_entries@, pattern@) && sd_has_match(sd_entries@, pattern@)
                ==> (r matches Ok(t) && t.0 matches BootTarget::SystemdBoot { title, root }
                && (exists|i: int|
                0 <= i < sd_entries@.len() && bootctl::sd_match(sd_entries@, pattern@, i)
                    && title@ == sd_entries@[i].title@ && root@ == sd_entries@[i].root@ && (
                forall|k: int| 0 <= k < i ==> !bootctl::sd_match(sd_entries@, pattern@, k)))
                && t.1 == sd_ambiguous(sd_entries@, pattern@)),
            !efi_has_match(efi_entries@, pattern@) && !sd_has_match(sd_entries@, pattern@)
                ==> (r matches Err(e) && e matches Error::NoMatchingEntry {
                pattern: p,
                available,
            } && p@ == pattern@ && available.deep_view() == all_titles(
                efi_entries@,
                sd_entries@,
            )),
    {
        let (num, efi_multiple) = efi::boot_num(efi_entries, pattern.as_str());
        if num.is_some() {
            return Ok((BootTarget::Efi { pattern }, efi_multiple));
        }
        let (m, sd_multiple) = bootctl::matching_pattern(sd_entries, pattern.as_str());
        match m {
            Some(entry) => Ok(
                (BootTarget::SystemdBoot { title: entry.title, root: entry.root }, sd_multiple),
            ),
            None => Err(no_matching_entry_error(efi_entries, sd_entries, pattern)),
        }
    }

    /// Re-validate this target against the current catalogs and
    /// decide the privileged write, exactly as `configure_spec` says:
    /// a vanished target is `StaleTarget`; a matching title with a
    /// changed root is `RootChanged`; a matching root under a changed
    /// title is renamed back first when the user confirmed.
    pub fn configure_next_boot(
        &self,
        efi_entries: &Vec<efi::BootEntry>,
        sd_entries: &Vec<BootEntry>,
        confirm_rename: bool,
    ) -> (r: Result<BootPlan, Error>)
        ensures
            r == configure_spec(*self, efi_entries@, sd_entries@, confirm_rename),
    {
        match self {
            BootTarget::Efi { pattern } => {
                let (num, _) = efi::boot_num(efi_entries, pattern.as_str());
                match num {
                    Some(number) => {
                        proof {
                            let w = choose|i: int|
                                0 <= i < efi_entries@.len() && efi::efi_match(
                                    efi_entries@,
                                    pattern@,
                                    i,
                                ) && number == efi_entries@[i].number && (forall|k: int|
                                    0 <= k < i ==> !efi::efi_match(efi_entries@, pattern@, k));
                            assert(0 <= w < efi_entries@.len() && efi::efi_match(
                                efi_entries@,
                                pattern@,
                                w,
                            ) && number == efi_entries@[w].number && (forall|k: int|
                                0 <= k < w ==> !efi::efi_match(efi_entries@, pattern@, k)));
                            let f = first_efi_match(efi_entries@, pattern@);
                            assert(0 <= f < efi_entries@.len() && efi::efi_match(
                                efi_entries@,
                                pattern@,
                                f,
                            ) && (forall|k: int|
                                0 <= k < f ==> !efi::efi_match(efi_entries@, pattern@, k)));
                            assert(f == w);
                        }
                        Ok(BootPlan::SetBootNext { number })
                    },
                    None => Err(Error::StaleTarget),
                }
            },
            BootTarget::SystemdBoot { title, root } => {
                let (m, _) = bootctl::matching_pattern(sd_entries, title.as_str());
                match m {
                    Some(entry) => {
                        proof {
                            lemma_first_sd_match_agrees(sd_entries@, title@, entry);
                        }
                        if !crate::text::str_eq(entry.root.as_str(), root.as_str()) {
                            Err(
                                Error::RootChanged {
                                    expected: root.clone(),
                                    found: entry.root,
                                },
                            )
                        } else {
                            Ok(BootPlan::Oneshot { entry })
                        }
                    },
                    None => {
                        let (m2, _) = bootctl::matching_root(sd_entries, root.as_str());
                        match m2 {
                            Some(entry) => {
                                proof {
                                    lemma_first_sd_root_agrees(sd_entries@, root@, entry);
                                }
                                if confirm_rename {
                                    Ok(
                                        BootPlan::RenameThenOneshot {
                                            entry,
                                            new_title: title.clone(),
                                        },
                                    )
                                } else {
                                    Ok(BootPlan::Oneshot { entry })
                                }
                            },
                            None => Err(Error::StaleTarget),
                        }
                    },
                }
            },
        }
    }

    /// Will `configure_next_boot` want the user's answer about
    /// renaming: the stored title matches nothing, but an entry still
    /// carries the stored root?
    pub fn rename_prompt_needed(&self, sd_entries: &Vec<BootEntry>) -> (r: bool)
        ensures
            r == match *self {
                BootTarget::Efi { .. } => false,
                BootTarget::SystemdBoot { title, root } => !sd_has_match(sd_entries@, title@)
                    && sd_has_root(sd_entries@, root@),
            },
    {
        match self {
            BootTarget::Efi { .. } => false,
            BootTarget::SystemdBoot { title, root } => {
                let (m, _) = bootctl::matching_pattern(sd_entries, title.as_str());
                if m.is_some() {
                    false
                } else {
                    let (m2, _) = bootctl::matching_root(sd_entries, root.as_str());
                    m2.is_some()
                }
            },
        }
    }
}

/// The entry `matching_pattern` returns is the one `first_sd_match`
/// names.
proof fn lemma_first_sd_match_agrees(entries: Seq<BootEntry>, pattern: Seq<char>, e: BootEntry)
    requires
        exists|i: int|
            0 <= i < entries.len() && bootctl::sd_match(entries, pattern, i) && e == entries[i]
                && (forall|k: int| 0 <= k < i ==> !bootctl::sd_match(entries, pattern, k)),
    ensures
        sd_has_match(entries, pattern),
        e == entries[first_sd_match(entries, pattern)],
{
    let w = choose|i: int|
        0 <= i < entries.len() && bootctl::sd_match(entries, pattern, i) && e == entries[i] && (
        forall|k: int| 0 <= k < i ==> !bootctl::sd_match(entries, pattern, k));
    assert(0 <= w < entries.len() && bootctl::sd_match(entries, pattern, w));
    let f = first_sd_match(entries, pattern);
    assert(0 <= f < entries.len() && bootctl::sd_match(entries, pattern, f) && (forall|k: int|
        0 <= k < f ==> !bootctl::sd_match(entries, pattern, k)));
    assert(f == w);
}

/// The entry `matching_root` returns is the one `first_sd_root`
/// names.
proof fn lemma_first_sd_root_agrees(entries: Seq<BootEntry>, root: Seq<char>, e: BootEntry)
    requires
        exists|i: int|
            0 <= i < entries.len() && bootctl::sd_root_match(entries, root, i) && e == entries[i]
                && (forall|k: int| 0 <= k < i ==> !bootctl::sd_root_match(entries, root, k)),
    ensures
        sd_has_root(entries, root),
        e == entries[first_sd_root(entries, root)],
{
    let w = choose|i: int|
        0 <= i < entries.len() && bootctl::sd_root_match(entries, root, i) && e == entries[i] && (
        forall|k: int| 0 <= k < i ==> !bootctl::sd_root_match(entries, root, k));
    assert(0 <= w < entries.len() && bootctl::sd_root_match(entries, root, w));
    let f = first_sd_root(entries, root);
    assert(0 <= f < entries.len() && bootctl::sd_root_match(entries, root, f) && (forall|k: int|
        0 <= k < f ==> !bootctl::sd_root_match(entries, root, k)));
    assert(f == w);
}

/// The error for a pattern that matched neither catalog: it carries
/// every title from both, so the diagnostic can enumerate them.
pub fn no_matching_entry_error(
    efi_entries: &Vec<efi::BootEntry>,
    sd_entries: &Vec<BootEntry>,
    pattern: String,
) -> (e: Error)
    ensures
        e matches Error::NoMatchingEntry { pattern: p, available } && p == pattern
            && available.deep_view() == all_titles(efi_entries@, sd_entries@),
{
    let ghost efi_titles = efi_entries@.map(|i: int, e: efi::BootEntry| e.title@);
    let ghost sd_titles = sd_entries@.map(|i: int, e: BootEntry| e.title@);
    let mut available: Vec<String> = Vec::new();
    let mut i: usize = 0;
    while i < efi_entries.len()
        invariant
            i <= efi_entries@.len(),
            efi_titles == efi_entries@.map(|i: int, e: efi::BootEntry| e.title@),
            available.deep_view() == efi_titles.subrange(0, i as int),
        decreases efi_entries@.len() - i,
    {
        let ghost pre = available.deep_view();
        available.push(efi_entries[i].title.clone());
        proof {
            assert(available.deep_view() =~= pre.push(efi_entries@[i as int].title@));
            assert(efi_titles.subrange(0, i + 1) =~= pre.push(efi_titles[i as int]));
        }
        i = i + 1;
    }
    proof {
        assert(efi_titles.subrange(0, efi_titles.len() as int) =~= efi_titles);
    }
    let mut j: usize = 0;
    while j < sd_entries.len()
        invariant
            j <= sd_entries@.len(),
            efi_titles == efi_entries@.map(|i: int, e: efi::BootEntry| e.title@),
            sd_titles == sd_entries@.map(|i: int, e: BootEntry| e.title@),
            available.deep_view() == efi_titles + sd_titles.subrange(0, j as int),
        decreases sd_entries@.len() - j,
    {
        let ghost pre = available.deep_view();
        available.push(sd_entries[j].title.clone());
        proof {
            assert(available.deep_view() =~= pre.push(sd_entries@[j as int].title@));
            assert(efi_titles + sd_titles.subrange(0, j + 1) =~= pre.push(
                sd_titles[j as int],
            ));
        }
        j = j + 1;
    }
    proof {
        assert(efi_titles + sd_titles.subrange(0, sd_titles.len() as int) =~= all_titles(
            efi_entries@,
            sd_entries@,
        ));
    }
    Error::NoMatchingEntry { pattern, available }
}

/// Configuring twice in succession with the same still-valid target,
/// against catalogs that did not change in between, plans the same
/// write both times; the one-shot state after the second write equals
/// the state after the first, because the written value is the same.
pub proof fn lemma_configure_idempotent(
    target: BootTarget,
    efi_entries: Seq<efi::BootEntry>,
    sd_entries: Seq<BootEntry>,
    confirm_rename: bool,
    first: Result<BootPlan, Error>,
    second: Result<BootPlan, Error>,
)
    requires
        first == configure_spec(target, efi_entries, sd_entries, confirm_rename),
        second == configure_spec(target, efi_entries, sd_entries, confirm_rename),
    ensures
        first == second,
{
}

} // verus!
