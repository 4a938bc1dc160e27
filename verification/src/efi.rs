//! Native UEFI boot-option catalog: entry type and pattern matching.
//!
//! Enumerating the firmware options reads NVRAM and is done by the
//! caller; the selection logic here works on the listed entries.

use vstd::prelude::*;
use crate::text::pattern_matches;

verus! {

/// One firmware boot option: description text and firmware-assigned
/// number. The number may be renumbered across firmware updates and is
/// never persisted.
#[derive(Debug)]
pub struct BootEntry {
    pub title: String,
    pub number: u16,
}

impl Clone for BootEntry {
    fn clone(&self) -> (r: Self)
        ensures
            r == *self,
    {
        BootEntry { title: self.title.clone(), number: self.number }
    }
}

/// Does `entries[i]` match `pattern` under the case-insensitive
/// substring rule?
pub open spec fn efi_match(entries: Seq<BootEntry>, pattern: Seq<char>, i: int) -> bool {
    pattern_matches(pattern, entries[i].title@)
}

/// The boot number of the first option whose description matches
/// `pattern`, together with a flag that says whether the match was
/// ambiguous (more than one option matched).
pub fn boot_num(entries: &Vec<BootEntry>, pattern: &str) -> (r: (Option<u16>, bool))
    ensures
        (r.0 is None) <==> (forall|i: int|
            0 <= i < entries@.len() ==> !efi_match(entries@, pattern@, i)),
        r.0 matches Some(num) ==> exists|i: int|
            0 <= i < entries@.len() && efi_match(entries@, pattern@, i)
                && num == entries@[i].number
                && (forall|k: int| 0 <= k < i ==> !efi_match(entries@, pattern@, k)),
        r.1 <==> exists|a: int, b: int|
            0 <= a < b < entries@.len()
                && efi_match(entries@, pattern@, a) && efi_match(entries@, pattern@, b),
{
    let mut found: Option<u16> = None;
    let ghost mut found_idx: int = 0;
    let mut multiple = false;
    let mut i: usize = 0;
    while i < entries.len()
        invariant
            i <= entries@.len(),
            (found is None) <==> (forall|k: int| 0 <= k < i ==> !efi_match(entries@, pattern@, k)),
            found matches Some(num) ==> 0 <= found_idx < i
                && efi_match(entries@, pattern@, found_idx)
                && num == entries@[found_idx].number
                && (forall|k: int| 0 <= k < found_idx ==> !efi_match(entries@, pattern@, k)),
            multiple <==> exists|a: int, b: int|
                0 <= a < b < i
                    && efi_match(entries@, pattern@, a) && efi_match(entries@, pattern@, b),
        decreases entries@.len() - i,
    {
        let matched = crate::text::matches_title(pattern, entries[i].title.as_str());
        proof {
            assert(matched == efi_match(entries@, pattern@, i as int));
        }
        if matched {
            if found.is_none() {
                found = Some(entries[i].number);
                proof {
                    found_idx = i as int;
                }
            } else {
                proof {
                    let a = found_idx;
                    assert(0 <= a < i as int && efi_match(entries@, pattern@, a)
                        && efi_match(entries@, pattern@, i as int));
                }
                multiple = true;
            }
        }
        i = i + 1;
    }
    (found, multiple)
}

} // verus!
