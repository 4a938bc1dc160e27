//! Systemd-boot loader-entry catalog: parsing entry files, matching
//! them against patterns and roots, and the texts the privileged
//! writes need (one-shot payload, renamed entry content).
//!
//! Reading the entries directory and writing NVRAM are I/O and are
//! done by the caller; everything here is pure computation on the
//! file contents handed in.

pub mod efi_protection;

use vstd::prelude::*;
use vstd::string::*;
use crate::errors::{Error, ParseIssue};
use crate::text::{
    find_char, occurs_at, pattern_matches, spec_lines, trim_spec,
};

verus! {

/// One systemd-boot loader entry: the `title` line's value, the root
/// device from the `options` line, and the on-disk file name (`id`).
#[derive(Debug)]
pub struct BootEntry {
    pub title: String,
    pub root: String,
    pub id: String,
}

impl Clone for BootEntry {
    fn clone(&self) -> (r: Self)
        ensures
            r == *self,
    {
        BootEntry { title: self.title.clone(), root: self.root.clone(), id: self.id.clone() }
    }
}

/// Is `l` a `title` line: after trimming it starts with `"title "`?
pub open spec fn is_title_line(l: Seq<char>) -> bool {
    occurs_at(trim_spec(l), "title "@, 0)
}

/// The title a `title` line carries: what follows the prefix, trimmed.
pub open spec fn title_value(l: Seq<char>) -> Seq<char> {
    let t = trim_spec(l);
    trim_spec(t.subrange("title "@.len() as int, t.len() as int))
}

/// Is `l` an `options` line: after trimming it starts with `"options "`?
pub open spec fn is_options_line(l: Seq<char>) -> bool {
    occurs_at(trim_spec(l), "options "@, 0)
}

/// What follows the `options ` prefix of a trimmed `options` line.
pub open spec fn options_value(l: Seq<char>) -> Seq<char> {
    let t = trim_spec(l);
    t.subrange("options "@.len() as int, t.len() as int)
}

/// The root device named by an options value: the text between the
/// first `=` and the following space (or the end). `None` when no
/// token of the line has the `key=value` shape.
pub open spec fn root_of(o: Seq<char>) -> Option<Seq<char>> {
    let e = find_char(o, '=', 0);
    if e >= o.len() {
        None
    } else {
        Some(o.subrange(e as int + 1, find_char(o, ' ', (e + 1) as nat) as int))
    }
}

/// The index of the (unique, when well-formed) `title` line.
pub open spec fn title_idx(ls: Seq<Seq<char>>) -> int {
    choose|i: int| 0 <= i < ls.len() && is_title_line(ls[i])
}

/// The index of the (unique, when well-formed) `options` line.
pub open spec fn options_idx(ls: Seq<Seq<char>>) -> int {
    choose|i: int| 0 <= i < ls.len() && is_options_line(ls[i])
}

/// A well-formed entry file: exactly one `title` line, exactly one
/// `options` line, and that line holds a `key=value` root token.
pub open spec fn wf_entry(c: Seq<char>) -> bool {
    let ls = spec_lines(c);
    &&& exists|i: int| 0 <= i < ls.len() && is_title_line(ls[i])
    &&& exists|i: int| 0 <= i < ls.len() && is_options_line(ls[i])
    &&& forall|i: int, j: int|
        0 <= i < j < ls.len() ==> !(is_title_line(ls[i]) && is_title_line(ls[j]))
    &&& forall|i: int, j: int|
        0 <= i < j < ls.len() ==> !(is_options_line(ls[i]) && is_options_line(ls[j]))
    &&& root_of(options_value(ls[options_idx(ls)])) is Some
}

/// The title of a well-formed entry file.
pub open spec fn entry_title(c: Seq<char>) -> Seq<char> {
    let ls = spec_lines(c);
    title_value(ls[title_idx(ls)])
}

/// The root device of a well-formed entry file.
pub open spec fn entry_root(c: Seq<char>) -> Seq<char> {
    let ls = spec_lines(c);
    root_of(options_value(ls[options_idx(ls)]))->Some_0
}

/// Does `reason` describe a real defect of the entry content `c`?
pub open spec fn reason_holds(reason: ParseIssue, c: Seq<char>) -> bool {
    let ls = spec_lines(c);
    match reason {
        ParseIssue::NameNotText => false,
        ParseIssue::DuplicateTitle => exists|i: int, j: int|
            0 <= i < j < ls.len() && is_title_line(ls[i]) && is_title_line(ls[j]),
        ParseIssue::DuplicateOptions => exists|i: int, j: int|
            0 <= i < j < ls.len() && is_options_line(ls[i]) && is_options_line(ls[j]),
        ParseIssue::MissingTitle => forall|i: int|
            0 <= i < ls.len() ==> !is_title_line(ls[i]),
        ParseIssue::MissingOptions => forall|i: int|
            0 <= i < ls.len() ==> !is_options_line(ls[i]),
        ParseIssue::NoRootToken => exists|i: int|
            0 <= i < ls.len() && is_options_line(ls[i]) && root_of(options_value(ls[i])) is None,
    }
}

impl BootEntry {
    /// Parse one loader-entry file. `id` is the file's name,
    /// `contents` its text. Succeeds exactly on well-formed files and
    /// then yields the title, root and id the file describes.
    pub fn from_file(id: String, contents: &str) -> (r: Result<BootEntry, Error>)
        ensures
            (r is Ok) <==> wf_entry(contents@),
            r matches Ok(e) ==> e.id == id && e.title@ == entry_title(contents@)
                && e.root@ == entry_root(contents@),
            r matches Err(err) ==> err matches Error::CatalogParseError { id: eid, reason }
                && eid == id && reason_holds(reason, contents@),
    {
        let ghost ls = spec_lines(contents@);
        let lines = crate::text::split_lines(contents);
        let mut title_found: Option<String> = None;
        let ghost mut ti: int = 0;
        let mut options_found: Option<String> = None;
        let ghost mut oi: int = 0;
        let mut i: usize = 0;
        while i < lines.len()
            invariant
                lines.deep_view() == ls,
                ls == spec_lines(contents@),
                i <= lines@.len(),
                (title_found is None) <==> (forall|k: int| 0 <= k < i ==> !is_title_line(ls[k])),
                title_found matches Some(tv) ==> 0 <= ti < i && is_title_line(ls[ti])
                    && tv@ == title_value(ls[ti])
                    && (forall|k: int| 0 <= k < i && k != ti ==> !is_title_line(ls[k])),
                (options_found is None) <==> (forall|k: int|
                    0 <= k < i ==> !is_options_line(ls[k])),
                options_found matches Some(ov) ==> 0 <= oi < i && is_options_line(ls[oi])
                    && ov@ == options_value(ls[oi])
                    && (forall|k: int| 0 <= k < i && k != oi ==> !is_options_line(ls[k])),
            decreases lines@.len() - i,
        {
            proof {
                assert(ls[i as int] == lines@[i as int]@);
            }
            let t = crate::text::trim_exec(lines[i].as_str());
            let t_len = t.as_str().unicode_len();
            if crate::text::has_prefix(t.as_str(), "title ") {
                if title_found.is_some() {
                    return Err(Error::CatalogParseError {
                        id,
                        reason: ParseIssue::DuplicateTitle,
                    });
                }
                proof {
                    reveal_strlit("title ");
                }
                let v = t.as_str().substring_char(6, t_len).to_owned();
                title_found = Some(crate::text::trim_exec(v.as_str()));
                proof {
                    ti = i as int;
                }
            }
            if crate::text::has_prefix(t.as_str(), "options ") {
                if options_found.is_some() {
                    return Err(Error::CatalogParseError {
                        id,
                        reason: ParseIssue::DuplicateOptions,
                    });
                }
                proof {
                    reveal_strlit("options ");
                }
                let v = t.as_str().substring_char(8, t_len).to_owned();
                options_found = Some(v);
                proof {
                    oi = i as int;
                }
            }
            i = i + 1;
        }
        let tv = match title_found {
            Some(tv) => tv,
            None => {
                return Err(Error::CatalogParseError { id, reason: ParseIssue::MissingTitle });
            },
        };
        let ov = match options_found {
            Some(ov) => ov,
            None => {
                return Err(Error::CatalogParseError { id, reason: ParseIssue::MissingOptions });
            },
        };
        let o_len = ov.as_str().unicode_len();
        let e = crate::text::find_char_exec(ov.as_str(), o_len, '=', 0);
        proof {
            crate::text::lemma_find_char(ov@, '=', 0);
        }
        if e == o_len {
            return Err(Error::CatalogParseError { id, reason: ParseIssue::NoRootToken });
        }
        let sp = crate::text::find_char_exec(ov.as_str(), o_len, ' ', e + 1);
        proof {
            crate::text::lemma_find_char(ov@, ' ', (e + 1) as nat);
        }
        let root = ov.as_str().substring_char(e + 1, sp).to_owned();
        proof {
            lemma_unique_choice(ls, ti, oi);
        }
        Ok(BootEntry { title: tv, root, id })
    }

    /// The value of the one-shot NVRAM variable that selects this
    /// entry: its id encoded as UTF-16LE, without BOM or terminator.
    pub fn encode(&self) -> (r: Vec<u8>)
        ensures
            r@ == utf16le_bytes(self.id@),
    {
        utf16le_encode(self.id.as_str())
    }
}

/// When the scan found unique title and options lines, they are the
/// ones the `choose`-based indices name.
proof fn lemma_unique_choice(ls: Seq<Seq<char>>, ti: int, oi: int)
    requires
        0 <= ti < ls.len(),
        is_title_line(ls[ti]),
        forall|k: int| 0 <= k < ls.len() && k != ti ==> !is_title_line(ls[k]),
        0 <= oi < ls.len(),
        is_options_line(ls[oi]),
        forall|k: int| 0 <= k < ls.len() && k != oi ==> !is_options_line(ls[k]),
    ensures
        title_idx(ls) == ti,
        options_idx(ls) == oi,
{
    assert(exists|i: int| 0 <= i < ls.len() && is_title_line(ls[i]));
    assert(exists|i: int| 0 <= i < ls.len() && is_options_line(ls[i]));
}

/// Does `entries[i]` match `pattern` under the case-insensitive
/// substring rule?
pub open spec fn sd_match(entries: Seq<BootEntry>, pattern: Seq<char>, i: int) -> bool {
    pattern_matches(pattern, entries[i].title@)
}

/// Does `entries[i]` carry exactly the root device `root`?
pub open spec fn sd_root_match(entries: Seq<BootEntry>, root: Seq<char>, i: int) -> bool {
    entries[i].root@ == root
}

/// Parse every loader-entry file of the catalog. `files` pairs each
/// entry's file name with its text. A single corrupt entry fails the
/// whole listing: boot-configuration integrity is all-or-nothing.
pub fn list(files: &Vec<(String, String)>) -> (r: Result<Vec<BootEntry>, Error>)
    ensures
        (r is Ok) <==> (forall|i: int| 0 <= i < files@.len() ==> wf_entry(files@[i].1@)),
        r matches Ok(es) ==> es@.len() == files@.len(),
        r matches Ok(es) ==> forall|i: int|
            #![trigger es@[i]]
            0 <= i < files@.len() ==> es@[i].id@ == files@[i].0@
                && es@[i].title@ == entry_title(files@[i].1@)
                && es@[i].root@ == entry_root(files@[i].1@),
        r matches Err(err) ==> (err matches Error::CatalogParseError { id, reason }
            && (exists|i: int|
            0 <= i < files@.len() && !wf_entry(#[trigger] files@[i].1@) && (forall|k: int|
                0 <= k < i ==> wf_entry(files@[k].1@)) && id@ == files@[i].0@
                && reason_holds(reason, files@[i].1@))),
{
    let mut out: Vec<BootEntry> = Vec::new();
    let mut i: usize = 0;
    while i < files.len()
        invariant
            i <= files@.len(),
            out@.len() == i,
            forall|k: int| 0 <= k < i ==> wf_entry(#[trigger] files@[k].1@),
            forall|k: int|
                #![trigger out@[k]]
                0 <= k < i ==> out@[k].id@ == files@[k].0@
                    && out@[k].title@ == entry_title(files@[k].1@)
                    && out@[k].root@ == entry_root(files@[k].1@),
        decreases files@.len() - i,
    {
        let id = files[i].0.clone();
        let ghost gid = id@;
        match BootEntry::from_file(id, files[i].1.as_str()) {
            Ok(e) => {
                let ghost old_out = out@;
                let ghost ge = e;
                out.push(e);
                proof {
                    assert(out@ =~= old_out.push(ge));
                    assert(ge.id@ == gid && gid == files@[i as int].0@);
                    assert forall|k: int|
                        #![trigger out@[k]]
                        0 <= k < i + 1 implies out@[k].id@ == files@[k].0@
                            && out@[k].title@ == entry_title(files@[k].1@)
                            && out@[k].root@ == entry_root(files@[k].1@) by {
                        if k < i as int {
                            assert(out@[k] == old_out[k]);
                            assert(old_out[k].id@ == files@[k].0@ && old_out[k].title@
                                == entry_title(files@[k].1@) && old_out[k].root@ == entry_root(
                                files@[k].1@,
                            ));
                        } else {
                            assert(out@[k] == ge);
                        }
                    }
                }
            },
            Err(err) => {
                proof {
                    assert(!wf_entry(files@[i as int].1@) && (forall|k: int|
                        0 <= k < i as int ==> wf_entry(files@[k].1@)));
                    assert(err matches Error::CatalogParseError { id: eid, reason }
                        && eid@ == files@[i as int].0@ && reason_holds(
                        reason,
                        files@[i as int].1@,
                    ));
                }
                return Err(err);
            },
        }
        i = i + 1;
    }
    Ok(out)
}

/// The first entry whose title matches `pattern` case-insensitively,
/// and whether the match was ambiguous.
pub fn matching_pattern(entries: &Vec<BootEntry>, pattern: &str) -> (r: (Option<BootEntry>, bool))
    ensures
        (r.0 is None) <==> (forall|i: int|
            0 <= i < entries@.len() ==> !sd_match(entries@, pattern@, i)),
        r.0 matches Some(e) ==> exists|i: int|
            0 <= i < entries@.len() && sd_match(entries@, pattern@, i) && e == entries@[i]
                && (forall|k: int| 0 <= k < i ==> !sd_match(entries@, pattern@, k)),
        r.1 <==> exists|a: int, b: int|
            0 <= a < b < entries@.len() && sd_match(entries@, pattern@, a) && sd_match(
                entries@,
                pattern@,
                b,
            ),
{
    let mut found: Option<BootEntry> = None;
    let ghost mut found_idx: int = 0;
    let mut multiple = false;
    let mut i: usize = 0;
    while i < entries.len()
        invariant
            i <= entries@.len(),
            (found is None) <==> (forall|k: int| 0 <= k < i ==> !sd_match(entries@, pattern@, k)),
            found matches Some(e) ==> 0 <= found_idx < i && sd_match(entries@, pattern@, found_idx)
                && e == entries@[found_idx]
                && (forall|k: int| 0 <= k < found_idx ==> !sd_match(entries@, pattern@, k)),
            multiple <==> exists|a: int, b: int|
                0 <= a < b < i && sd_match(entries@, pattern@, a) && sd_match(
                    entries@,
                    pattern@,
                    b,
                ),
        decreases entries@.len() - i,
    {
        let matched = crate::text::matches_title(pattern, entries[i].title.as_str());
        proof {
            assert(matched == sd_match(entries@, pattern@, i as int));
        }
        if matched {
            if found.is_none() {
                found = Some(entries[i].clone());
                proof {
                    found_idx = i as int;
                }
            } else {
                proof {
                    assert(sd_match(entries@, pattern@, found_idx) && sd_match(
                        entries@,
                        pattern@,
                        i as int,
                    ));
                }
                multiple = true;
            }
        }
        i = i + 1;
    }
    (found, multiple)
}

/// The first entry whose root equals `root` exactly, and whether more
/// than one entry carries that root.
pub fn matching_root(entries: &Vec<BootEntry>, root: &str) -> (r: (Option<BootEntry>, bool))
    ensures
        (r.0 is None) <==> (forall|i: int|
            0 <= i < entries@.len() ==> !sd_root_match(entries@, root@, i)),
        r.0 matches Some(e) ==> exists|i: int|
            0 <= i < entries@.len() && sd_root_match(entries@, root@, i) && e == entries@[i]
                && (forall|k: int| 0 <= k < i ==> !sd_root_match(entries@, root@, k)),
        r.1 <==> exists|a: int, b: int|
            0 <= a < b < entries@.len() && sd_root_match(entries@, root@, a) && sd_root_match(
                entries@,
                root@,
                b,
            ),
{
    let mut found: Option<BootEntry> = None;
    let ghost mut found_idx: int = 0;
    let mut multiple = false;
    let mut i: usize = 0;
    while i < entries.len()
        invariant
            i <= entries@.len(),
            (found is None) <==> (forall|k: int|
                0 <= k < i ==> !sd_root_match(entries@, root@, k)),
            found matches Some(e) ==> 0 <= found_idx < i && sd_root_match(
                entries@,
                root@,
                found_idx,
            ) && e == entries@[found_idx]
                && (forall|k: int| 0 <= k < found_idx ==> !sd_root_match(entries@, root@, k)),
            multiple <==> exists|a: int, b: int|
                0 <= a < b < i && sd_root_match(entries@, root@, a) && sd_root_match(
                    entries@,
                    root@,
                    b,
                ),
        decreases entries@.len() - i,
    {
        let matched = crate::text::str_eq(entries[i].root.as_str(), root);
        proof {
            assert(matched == sd_root_match(entries@, root@, i as int));
        }
        if matched {
            if found.is_none() {
                found = Some(entries[i].clone());
                proof {
                    found_idx = i as int;
                }
            } else {
                proof {
                    assert(sd_root_match(entries@, root@, found_idx) && sd_root_match(
                        entries@,
                        root@,
                        i as int,
                    ));
                }
                multiple = true;
            }
        }
        i = i + 1;
    }
    (found, multiple)
}

/// One raw line of a renamed entry — the characters between
/// newlines, any trailing carriage return still attached. A line
/// whose text starts with `title` keeps the word, the whitespace run
/// after it and its carriage return, and carries the new title in
/// between; every other line is byte-identical.
pub open spec fn rename_raw_line(l: Seq<char>, new_title: Seq<char>) -> Seq<char> {
    let core = crate::text::chomp_cr(l);
    if occurs_at(core, "title"@, 0) {
        let p = "title"@.len() as int;
        "title"@ + core.subrange(p, crate::text::find_non_ws(core, p as nat) as int) + new_title
            + l.subrange(core.len() as int, l.len() as int)
    } else {
        l
    }
}

/// The text from `from` on, renamed line by line: the newline
/// separators, every carriage return and the final terminator stay
/// exactly as they are; only the title lines' value spans change.
pub open spec fn renamed_from(s: Seq<char>, from: nat, new_title: Seq<char>) -> Seq<char>
    decreases s.len() - from
    when from <= s.len()
    via renamed_from_dec
{
    if from >= s.len() {
        Seq::empty()
    } else {
        let j = find_char(s, '\n', from);
        if j >= s.len() {
            rename_raw_line(s.subrange(from as int, s.len() as int), new_title)
        } else {
            rename_raw_line(s.subrange(from as int, j as int), new_title) + seq!['\n']
                + renamed_from(s, (j + 1) as nat, new_title)
        }
    }
}

#[via_fn]
proof fn renamed_from_dec(s: Seq<char>, from: nat, new_title: Seq<char>) {
    if from < s.len() {
        crate::text::lemma_find_char(s, '\n', from);
    }
}

/// An entry file's text with every `title` line's value replaced by
/// `new_title`: the word and the whitespace after it are kept, and
/// every byte outside the replaced value spans — carriage returns
/// and the final newline included — is unchanged.
pub open spec fn renamed_content(c: Seq<char>, new_title: Seq<char>) -> Seq<char> {
    renamed_from(c, 0, new_title)
}

/// Rewrite an entry file's text so its `title` lines carry
/// `new_title`, leaving every other byte as it was. The caller
/// writes the result to a sibling file and renames it over the
/// original.
pub fn rename_entry_title(contents: &str, new_title: &str) -> (r: String)
    ensures
        r@ == renamed_content(contents@, new_title@),
{
    let s_len = contents.unicode_len();
    let mut out = String::new();
    proof {
        assert(Seq::<char>::empty() + renamed_from(contents@, 0, new_title@) =~= renamed_from(
            contents@,
            0,
            new_title@,
        ));
    }
    let mut cur: usize = 0;
    while cur < s_len
        invariant
            s_len == contents@.len(),
            cur <= s_len,
            renamed_content(contents@, new_title@) == out@ + renamed_from(
                contents@,
                cur as nat,
                new_title@,
            ),
        decreases s_len - cur,
    {
        let ghost pre = out@;
        proof {
            reveal_strlit("title");
            reveal_strlit("\n");
            reveal_strlit("\r");
            assert("\n"@ =~= seq!['\n']);
            assert("\r"@ =~= seq!['\r']);
            crate::text::lemma_find_char(contents@, '\n', cur as nat);
        }
        let j = crate::text::find_char_exec(contents, s_len, '\n', cur);
        let ghost raw = contents@.subrange(cur as int, j as int);
        let core_end = if j > cur && contents.get_char(j - 1) == '\r' {
            j - 1
        } else {
            j
        };
        proof {
            assert(crate::text::chomp_cr(raw) =~= contents@.subrange(
                cur as int,
                core_end as int,
            ));
        }
        let core = contents.substring_char(cur, core_end);
        if crate::text::has_prefix(core, "title") {
            let core_len = core.unicode_len();
            let a = crate::text::find_non_ws_exec(core, core_len, 5);
            proof {
                crate::text::lemma_find_non_ws(core@, 5);
            }
            out.append("title");
            out.append(core.substring_char(5, a));
            out.append(new_title);
            if core_end < j {
                out.append("\r");
            }
            proof {
                let core_len_g = crate::text::chomp_cr(raw).len() as int;
                if core_end < j {
                    assert(raw.subrange(core_len_g, raw.len() as int) =~= seq!['\r']);
                } else {
                    assert(raw.subrange(core_len_g, raw.len() as int) =~= Seq::<char>::empty());
                }
                assert(out@ =~= pre + rename_raw_line(raw, new_title@));
            }
        } else {
            out.append(contents.substring_char(cur, j));
            proof {
                assert(out@ =~= pre + rename_raw_line(raw, new_title@));
            }
        }
        if j < s_len {
            out.append("\n");
            proof {
                assert(renamed_from(contents@, cur as nat, new_title@) == rename_raw_line(
                    raw,
                    new_title@,
                ) + seq!['\n'] + renamed_from(contents@, (j + 1) as nat, new_title@));
                assert(pre + renamed_from(contents@, cur as nat, new_title@) =~= out@
                    + renamed_from(contents@, (j + 1) as nat, new_title@));
            }
            cur = j + 1;
        } else {
            proof {
                assert(renamed_from(contents@, cur as nat, new_title@) == rename_raw_line(
                    raw,
                    new_title@,
                ));
                assert(pre + renamed_from(contents@, cur as nat, new_title@) =~= out@);
                assert(out@ + renamed_from(contents@, s_len as nat, new_title@) =~= out@);
            }
            cur = s_len;
        }
    }
    proof {
        assert(out@ + renamed_from(contents@, cur as nat, new_title@) =~= out@);
    }
    out
}

/// The name of the one-shot NVRAM variable systemd-boot reads.
pub fn oneshot_variable_name() -> (r: &'static str)
    ensures
        r@ == "LoaderEntryOneShot"@,
{
    "LoaderEntryOneShot"
}

/// The vendor UUID that scopes the one-shot variable.
pub fn systemd_boot_vendor_uuid() -> (r: &'static str)
    ensures
        r@ == "4a67b082-0a4c-41cf-b6c7-440b29bb8c4f"@,
{
    "4a67b082-0a4c-41cf-b6c7-440b29bb8c4f"
}

/// The variable's attribute flags: non-volatile, boot-service access
/// and runtime access.
pub fn oneshot_variable_flags() -> (r: u32)
    ensures
        r == 0x7u32,
{
    0x7
}

/// The UTF-16 code units of one character, little-endian, as bytes.
pub open spec fn char_utf16le(c: char) -> Seq<u8> {
    let v = c as u32;
    if v < 0x10000 {
        seq![(v & 0xFF) as u8, ((v >> 8) & 0xFF) as u8]
    } else {
        let w = (v - 0x10000) as u32;
        let hi = (0xD800 + w / 0x400) as u32;
        let lo = (0xDC00 + w % 0x400) as u32;
        seq![
            (hi & 0xFF) as u8,
            ((hi >> 8) & 0xFF) as u8,
            (lo & 0xFF) as u8,
            ((lo >> 8) & 0xFF) as u8,
        ]
    }
}

/// UTF-16LE encoding of a character sequence, as
/// `str::encode_utf16` plus little-endian byte order yields it.
pub open spec fn utf16le_bytes(s: Seq<char>) -> Seq<u8>
    decreases s.len(),
{
    if s.len() == 0 {
        Seq::empty()
    } else {
        char_utf16le(s[0]) + utf16le_bytes(s.drop_first())
    }
}

proof fn lemma_utf16le_snoc(s: Seq<char>)
    requires
        s.len() > 0,
    ensures
        utf16le_bytes(s) == utf16le_bytes(s.drop_last()) + char_utf16le(s.last()),
    decreases s.len(),
{
    if s.len() == 1 {
        assert(s.drop_first() =~= Seq::<char>::empty());
        assert(s.drop_last() =~= Seq::<char>::empty());
        assert(utf16le_bytes(Seq::<char>::empty()) == Seq::<u8>::empty());
        assert(utf16le_bytes(s) == char_utf16le(s[0]) + Seq::<u8>::empty());
        assert(char_utf16le(s[0]) + Seq::<u8>::empty() =~= char_utf16le(s[0]));
        assert(Seq::<u8>::empty() + char_utf16le(s.last()) =~= char_utf16le(s.last()));
        assert(s.last() == s[0]);
    } else {
        lemma_utf16le_snoc(s.drop_first());
        assert(s.drop_first().drop_last() =~= s.drop_last().drop_first());
        assert(s.drop_first().last() == s.last());
        assert(s.drop_last()[0] == s[0]);
        assert(utf16le_bytes(s) == char_utf16le(s[0]) + (utf16le_bytes(
            s.drop_first().drop_last(),
        ) + char_utf16le(s.last())));
        assert(utf16le_bytes(s.drop_last()) == char_utf16le(s[0]) + utf16le_bytes(
            s.drop_last().drop_first(),
        ));
        assert(utf16le_bytes(s) =~= utf16le_bytes(s.drop_last()) + char_utf16le(s.last()));
    }
}

/// Encode a string as UTF-16LE bytes.
fn utf16le_encode(s: &str) -> (r: Vec<u8>)
    ensures
        r@ == utf16le_bytes(s@),
{
    let s_len = s.unicode_len();
    let mut out: Vec<u8> = Vec::new();
    let mut i: usize = 0;
    while i < s_len
        invariant
            s_len == s@.len(),
            i <= s_len,
            out@ == utf16le_bytes(s@.subrange(0, i as int)),
        decreases s_len - i,
    {
        let ghost pre = s@.subrange(0, i as int);
        let c = s.get_char(i);
        let v = c as u32;
        if v < 0x10000 {
            out.push((v & 0xFF) as u8);
            out.push(((v >> 8) & 0xFF) as u8);
        } else {
            let w = v - 0x10000;
            let hi = 0xD800 + w / 0x400;
            let lo = 0xDC00 + w % 0x400;
            out.push((hi & 0xFF) as u8);
            out.push(((hi >> 8) & 0xFF) as u8);
            out.push((lo & 0xFF) as u8);
            out.push(((lo >> 8) & 0xFF) as u8);
        }
        proof {
            let cur = s@.subrange(0, i + 1);
            assert(cur.drop_last() =~= pre);
            assert(cur.last() == s@[i as int]);
            lemma_utf16le_snoc(cur);
            assert(out@ =~= utf16le_bytes(pre) + char_utf16le(c));
        }
        i = i + 1;
    }
    proof {
        assert(s@.subrange(0, s_len as int) =~= s@);
    }
    out
}

} // verus!
