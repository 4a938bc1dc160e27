//! The library's error taxonomy.

use vstd::prelude::*;
use vstd::string::*;
use crate::text::{contains_seq, occurs_at};

verus! {

/// Why a loader-entry file failed to parse.
#[derive(Debug)]
pub enum ParseIssue {
    /// The entry's file name is not representable as text.
    NameNotText,
    /// More than one `title` line.
    DuplicateTitle,
    /// More than one `options` line.
    DuplicateOptions,
    /// No `title` line.
    MissingTitle,
    /// No `options` line.
    MissingOptions,
    /// The `options` line holds no `key=value` token.
    NoRootToken,
}

/// Everything that can go wrong while resolving or configuring a
/// boot target.
#[derive(Debug)]
pub enum Error {
    /// The pattern matched neither catalog; `available` lists every
    /// title from both so the user can correct the pattern.
    NoMatchingEntry { pattern: String, available: Vec<String> },
    /// A previously resolved target no longer matches any current
    /// catalog entry.
    StaleTarget,
    /// The stored title still matches, but the entry's root device
    /// changed underneath it.
    RootChanged { expected: String, found: String },
    /// A loader-entry file is structurally invalid; fatal for the
    /// whole catalog load.
    CatalogParseError { id: String, reason: ParseIssue },
    /// The persisted bytes do not deserialize to a boot target.
    StoredTargetInvalid,
    /// The immutability attribute could not be read or written.
    AttributeError { path: String },
    /// The NVRAM write or the entry rename itself failed.
    PrivilegedWriteError { path: String },
}

impl Error {
    /// A human-readable diagnostic. For `NoMatchingEntry` it names
    /// every available title, so the user can correct the pattern.
    pub fn message(&self) -> (r: String)
        ensures
            self matches Error::NoMatchingEntry { pattern, available } ==> {
                &&& contains_seq(r@, pattern@)
                &&& forall|i: int|
                    0 <= i < available@.len() ==> contains_seq(r@, #[trigger] available@[i]@)
            },
            self matches Error::RootChanged { expected, found } ==> contains_seq(r@, expected@)
                && contains_seq(r@, found@),
            self matches Error::CatalogParseError { id, .. } ==> contains_seq(r@, id@),
            self matches Error::AttributeError { path } ==> contains_seq(r@, path@),
            self matches Error::PrivilegedWriteError { path } ==> contains_seq(r@, path@),
    {
        match self {
            Error::NoMatchingEntry { pattern, available } => {
                let mut m = String::from_str("no boot entry matches pattern: ");
                let ghost head = m@;
                m.append(pattern.as_str());
                proof {
                    lemma_contains_tail(head, pattern@);
                }
                let ghost before_note = m@;
                m.append("\navailable boot targets:");
                proof {
                    lemma_contains_extend(before_note, "\navailable boot targets:"@, pattern@);
                }
                let mut i: usize = 0;
                while i < available.len()
                    invariant
                        contains_seq(m@, pattern@),
                        i <= available@.len(),
                        forall|k: int|
                            0 <= k < i ==> contains_seq(m@, #[trigger] available@[k]@),
                    decreases available@.len() - i,
                {
                    let ghost before = m@;
                    m.append("\n  - ");
                    let ghost mid = m@;
                    m.append(available[i].as_str());
                    proof {
                        let t = available@[i as int]@;
                        lemma_contains_tail(mid, t);
                        lemma_contains_extend(before, "\n  - "@, pattern@);
                        lemma_contains_extend(mid, t, pattern@);
                        assert forall|k: int| 0 <= k < i + 1 implies contains_seq(
                            m@,
                            #[trigger] available@[k]@,
                        ) by {
                            if k < i {
                                lemma_contains_extend(before, "\n  - "@, available@[k]@);
                                lemma_contains_extend(mid, t, available@[k]@);
                            }
                        }
                    }
                    i = i + 1;
                }
                m
            },
            Error::StaleTarget => String::from_str(
                "the configured boot target no longer matches any entry; set the target again",
            ),
            Error::RootChanged { expected, found } => {
                let mut m = String::from_str("root for the configured OS changed: expected ");
                let ghost head = m@;
                m.append(expected.as_str());
                let ghost with_expected = m@;
                m.append(", found ");
                let ghost before_found = m@;
                m.append(found.as_str());
                let ghost with_found = m@;
                m.append("; if the OS was reinstalled or moved, set the target again");
                proof {
                    lemma_contains_tail(head, expected@);
                    lemma_contains_extend(with_expected, ", found "@, expected@);
                    lemma_contains_extend(before_found, found@, expected@);
                    lemma_contains_tail(before_found, found@);
                    lemma_contains_extend(
                        with_found,
                        "; if the OS was reinstalled or moved, set the target again"@,
                        expected@,
                    );
                    lemma_contains_extend(
                        with_found,
                        "; if the OS was reinstalled or moved, set the target again"@,
                        found@,
                    );
                }
                m
            },
            Error::CatalogParseError { id, reason } => {
                let mut m = String::from_str("invalid boot entry ");
                let ghost head = m@;
                m.append(id.as_str());
                proof {
                    lemma_contains_tail(head, id@);
                }
                let ghost with_id = m@;
                m.append(": ");
                proof {
                    lemma_contains_extend(with_id, ": "@, id@);
                }
                let ghost before_reason = m@;
                let reason_text = match reason {
                    ParseIssue::NameNotText => "file name is not text",
                    ParseIssue::DuplicateTitle => "two title lines",
                    ParseIssue::DuplicateOptions => "two options lines",
                    ParseIssue::MissingTitle => "no title line",
                    ParseIssue::MissingOptions => "no options line",
                    ParseIssue::NoRootToken => "no key=value token in options line",
                };
                m.append(reason_text);
                proof {
                    lemma_contains_extend(before_reason, reason_text@, id@);
                }
                m
            },
            Error::StoredTargetInvalid => String::from_str(
                "stored data is not a boot target; set the target again",
            ),
            Error::AttributeError { path } => {
                let mut m = String::from_str("could not change file attributes: ");
                let ghost head = m@;
                m.append(path.as_str());
                proof {
                    lemma_contains_tail(head, path@);
                }
                m
            },
            Error::PrivilegedWriteError { path } => {
                let mut m = String::from_str("privileged write failed: ");
                let ghost head = m@;
                m.append(path.as_str());
                proof {
                    lemma_contains_tail(head, path@);
                }
                m
            },
        }
    }
}

/// `n` still occurs once more text is appended.
proof fn lemma_contains_extend(a: Seq<char>, b: Seq<char>, n: Seq<char>)
    requires
        contains_seq(a, n),
    ensures
        contains_seq(a + b, n),
{
    let i = choose|i: int| occurs_at(a, n, i);
    assert((a + b).subrange(i, i + n.len()) =~= a.subrange(i, i + n.len()));
    assert(occurs_at(a + b, n, i));
}

/// A concatenation contains its own tail.
proof fn lemma_contains_tail(a: Seq<char>, n: Seq<char>)
    ensures
        contains_seq(a + n, n),
{
    assert((a + n).subrange(a.len() as int, a.len() + n.len() as int) =~= n);
    assert(occurs_at(a + n, n, a.len() as int));
}

} // verus!
