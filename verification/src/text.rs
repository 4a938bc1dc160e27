//! Character-sequence utilities: substring search and the
//! case-insensitive matching rule shared by both boot catalogs.

use vstd::prelude::*;
use vstd::string::*;

verus! {

/// The sequence of characters that Unicode lowercasing yields for `s`.
/// Left uninterpreted: the full case-folding tables are not restated here.
pub uninterp spec fn lower_of(s: Seq<char>) -> Seq<char>;

/// `needle` occurs at position `i` of `hay`.
pub open spec fn occurs_at(hay: Seq<char>, needle: Seq<char>, i: int) -> bool {
    0 <= i && i + needle.len() <= hay.len() && hay.subrange(i, i + needle.len()) == needle
}

/// `needle` is a contiguous subsequence of `hay`.
pub open spec fn contains_seq(hay: Seq<char>, needle: Seq<char>) -> bool {
    exists|i: int| occurs_at(hay, needle, i)
}

/// The catalogs' matching rule: the lowercased pattern occurs somewhere
/// in the lowercased title.
pub open spec fn pattern_matches(pattern: Seq<char>, title: Seq<char>) -> bool {
    contains_seq(lower_of(title), lower_of(pattern))
}

/// Relies on `str::to_lowercase`: the result depends on the characters
/// of `s` alone, and an empty string stays empty.
#[verifier::external_body]
fn lowercase(s: &str) -> (r: String)
    ensures
        r@ == lower_of(s@),
        s@.len() == 0 ==> r@.len() == 0,
{
    s.to_lowercase()
}

/// Does `needle` occur at position `i` of `hay`?
fn occurs_at_exec(hay: &str, needle: &str, hay_len: usize, needle_len: usize, i: usize) -> (r: bool)
    requires
        hay_len == hay@.len(),
        needle_len == needle@.len(),
        i + needle_len <= hay_len,
    ensures
        r == occurs_at(hay@, needle@, i as int),
{
    let mut j: usize = 0;
    while j < needle_len
        invariant
            hay_len == hay@.len(),
            needle_len == needle@.len(),
            i + needle_len <= hay_len,
            j <= needle_len,
            forall|k: int| 0 <= k < j ==> hay@[i + k] == needle@[k],
        decreases needle_len - j,
    {
        if hay.get_char(i + j) != needle.get_char(j) {
            assert(hay@.subrange(i as int, i + needle@.len()) != needle@) by {
                assert(hay@.subrange(i as int, i + needle@.len())[j as int] != needle@[j as int]);
            }
            return false;
        }
        j = j + 1;
    }
    assert(hay@.subrange(i as int, i + needle@.len()) =~= needle@);
    true
}

/// Substring search: does `needle` occur anywhere in `hay`?
pub fn contains_sub(hay: &str, needle: &str) -> (r: bool)
    ensures
        r == contains_seq(hay@, needle@),
{
    let hay_len = hay.unicode_len();
    let needle_len = needle.unicode_len();
    if needle_len > hay_len {
        assert(!contains_seq(hay@, needle@)) by {
            assert(forall|i: int| !occurs_at(hay@, needle@, i));
        }
        return false;
    }
    let last = hay_len - needle_len;
    let mut i: usize = 0;
    loop
        invariant
            hay_len == hay@.len(),
            needle_len == needle@.len(),
            needle_len <= hay_len,
            last == hay_len - needle_len,
            i <= last,
            forall|k: int| 0 <= k < i ==> !occurs_at(hay@, needle@, k),
        ensures
            forall|k: int| 0 <= k <= last ==> !occurs_at(hay@, needle@, k),
        decreases last - i,
    {
        if occurs_at_exec(hay, needle, hay_len, needle_len, i) {
            return true;
        }
        if i == last {
            break;
        }
        i = i + 1;
    }
    assert(forall|k: int| !occurs_at(hay@, needle@, k));
    false
}

/// The matching rule in executable form: case-insensitive substring
/// match of `pattern` against `title`.
pub fn matches_title(pattern: &str, title: &str) -> (r: bool)
    ensures
        r == pattern_matches(pattern@, title@),
{
    let lp = lowercase(pattern);
    let lt = lowercase(title);
    contains_sub(lt.as_str(), lp.as_str())
}

/// Index of the first occurrence of `c` in `s` at or after `from`,
/// or `s.len()` if there is none.
pub open spec fn find_char(s: Seq<char>, c: char, from: nat) -> nat
    decreases s.len() - from
    when from <= s.len()
{
    if from >= s.len() {
        s.len()
    } else if s[from as int] == c {
        from
    } else {
        find_char(s, c, (from + 1) as nat)
    }
}

pub proof fn lemma_find_char(s: Seq<char>, c: char, from: nat)
    requires
        from <= s.len(),
    ensures
        from <= find_char(s, c, from) <= s.len(),
        find_char(s, c, from) < s.len() ==> s[find_char(s, c, from) as int] == c,
        forall|k: int| from <= k < find_char(s, c, from) ==> s[k] != c,
    decreases s.len() - from,
{
    if from < s.len() && s[from as int] != c {
        lemma_find_char(s, c, (from + 1) as nat);
    }
}

pub fn find_char_exec(s: &str, s_len: usize, c: char, from: usize) -> (r: usize)
    requires
        s_len == s@.len(),
        from <= s_len,
    ensures
        r == find_char(s@, c, from as nat),
{
    let mut i: usize = from;
    while i < s_len
        invariant
            s_len == s@.len(),
            from <= i <= s_len,
            find_char(s@, c, from as nat) == find_char(s@, c, i as nat),
        decreases s_len - i,
    {
        if s.get_char(i) == c {
            return i;
        }
        i = i + 1;
    }
    s_len
}

/// The Unicode whitespace characters, as `char::is_whitespace` sees
/// them (the White_Space property).
pub open spec fn is_ws(c: char) -> bool {
    let v = c as u32;
    (0x09 <= v && v <= 0x0D) || v == 0x20 || v == 0x85 || v == 0xA0 || v == 0x1680
        || (0x2000 <= v && v <= 0x200A) || v == 0x2028 || v == 0x2029 || v == 0x202F
        || v == 0x205F || v == 0x3000
}

pub fn is_ws_exec(c: char) -> (r: bool)
    ensures
        r == is_ws(c),
{
    let v = c as u32;
    (0x09 <= v && v <= 0x0D) || v == 0x20 || v == 0x85 || v == 0xA0 || v == 0x1680
        || (0x2000 <= v && v <= 0x200A) || v == 0x2028 || v == 0x2029 || v == 0x202F
        || v == 0x205F || v == 0x3000
}

/// Index of the first non-whitespace character of `s` at or after
/// `from`, or `s.len()` if there is none.
pub open spec fn find_non_ws(s: Seq<char>, from: nat) -> nat
    decreases s.len() - from
    when from <= s.len()
{
    if from >= s.len() {
        s.len()
    } else if !is_ws(s[from as int]) {
        from
    } else {
        find_non_ws(s, (from + 1) as nat)
    }
}

pub proof fn lemma_find_non_ws(s: Seq<char>, from: nat)
    requires
        from <= s.len(),
    ensures
        from <= find_non_ws(s, from) <= s.len(),
        find_non_ws(s, from) < s.len() ==> !is_ws(s[find_non_ws(s, from) as int]),
        forall|k: int| from <= k < find_non_ws(s, from) ==> is_ws(s[k]),
    decreases s.len() - from,
{
    if from < s.len() && is_ws(s[from as int]) {
        lemma_find_non_ws(s, (from + 1) as nat);
    }
}

pub fn find_non_ws_exec(s: &str, s_len: usize, from: usize) -> (r: usize)
    requires
        s_len == s@.len(),
        from <= s_len,
    ensures
        r == find_non_ws(s@, from as nat),
{
    let mut i: usize = from;
    while i < s_len
        invariant
            s_len == s@.len(),
            from <= i <= s_len,
            find_non_ws(s@, from as nat) == find_non_ws(s@, i as nat),
        decreases s_len - i,
    {
        if !is_ws_exec(s.get_char(i)) {
            return i;
        }
        i = i + 1;
    }
    s_len
}

/// Length of `s` once trailing whitespace is dropped.
pub open spec fn trim_end_len(s: Seq<char>) -> nat
    decreases s.len(),
{
    if s.len() == 0 {
        0
    } else if is_ws(s[s.len() - 1]) {
        trim_end_len(s.drop_last())
    } else {
        s.len()
    }
}

/// `s` with leading and trailing whitespace dropped, as `str::trim`
/// yields it.
pub open spec fn trim_spec(s: Seq<char>) -> Seq<char> {
    let e = trim_end_len(s);
    let a = find_non_ws(s, 0);
    if a <= e {
        s.subrange(a as int, e as int)
    } else {
        Seq::empty()
    }
}

pub fn trim_exec(s: &str) -> (r: String)
    ensures
        r@ == trim_spec(s@),
{
    let s_len = s.unicode_len();
    proof {
        assert(s@.subrange(0, s_len as int) =~= s@);
    }
    let mut e: usize = s_len;
    while e > 0 && is_ws_exec(s.get_char(e - 1))
        invariant
            s_len == s@.len(),
            e <= s_len,
            trim_end_len(s@) == trim_end_len(s@.subrange(0, e as int)),
        decreases e,
    {
        proof {
            assert(s@.subrange(0, e as int).drop_last() =~= s@.subrange(0, e - 1));
        }
        e = e - 1;
    }
    proof {
        assert(s@.subrange(0, s_len as int) =~= s@);
        if e > 0 {
            assert(trim_end_len(s@.subrange(0, e as int)) == e);
        } else {
            assert(trim_end_len(s@) == 0);
        }
        lemma_find_non_ws(s@, 0);
    }
    let a = find_non_ws_exec(s, s_len, 0);
    if a <= e {
        let out = s.substring_char(a, e).to_owned();
        assert(out@ == trim_spec(s@));
        out
    } else {
        let out = String::new();
        assert(out@ =~= trim_spec(s@));
        out
    }
}

/// Are two string slices equal character for character?
pub fn str_eq(a: &str, b: &str) -> (r: bool)
    ensures
        r == (a@ == b@),
{
    let a_len = a.unicode_len();
    let b_len = b.unicode_len();
    if a_len != b_len {
        return false;
    }
    let mut i: usize = 0;
    while i < a_len
        invariant
            a_len == a@.len(),
            a_len == b@.len(),
            i <= a_len,
            forall|k: int| 0 <= k < i ==> a@[k] == b@[k],
        decreases a_len - i,
    {
        if a.get_char(i) != b.get_char(i) {
            return false;
        }
        i = i + 1;
    }
    proof {
        assert(a@ =~= b@);
    }
    true
}

/// One line as `str::lines` yields it: a trailing carriage return is
/// dropped.
pub open spec fn chomp_cr(l: Seq<char>) -> Seq<char> {
    if l.len() > 0 && l[l.len() - 1] == '\r' {
        l.drop_last()
    } else {
        l
    }
}

/// The lines of `s` from position `from` on, split at newlines as
/// `str::lines` splits them.
pub open spec fn spec_lines_from(s: Seq<char>, from: nat) -> Seq<Seq<char>>
    decreases s.len() - from
    when from <= s.len()
    via spec_lines_from_dec
{
    if from >= s.len() {
        Seq::empty()
    } else {
        let j = find_char(s, '\n', from);
        if j >= s.len() {
            seq![chomp_cr(s.subrange(from as int, s.len() as int))]
        } else {
            seq![chomp_cr(s.subrange(from as int, j as int))] + spec_lines_from(s, (j + 1) as nat)
        }
    }
}

#[via_fn]
proof fn spec_lines_from_dec(s: Seq<char>, from: nat) {
    if from < s.len() {
        lemma_find_char(s, '\n', from);
    }
}

/// The lines of `s`.
pub open spec fn spec_lines(s: Seq<char>) -> Seq<Seq<char>> {
    spec_lines_from(s, 0)
}

/// Split `s` into lines, dropping each line's trailing carriage
/// return, as `str::lines` does.
pub fn split_lines(s: &str) -> (r: Vec<String>)
    ensures
        r.deep_view() == spec_lines(s@),
{
    let s_len = s.unicode_len();
    let mut out: Vec<String> = Vec::new();
    let mut cur: usize = 0;
    while cur < s_len
        invariant
            s_len == s@.len(),
            cur <= s_len,
            spec_lines(s@) == out.deep_view() + spec_lines_from(s@, cur as nat),
        decreases s_len - cur,
    {
        let ghost pre = out.deep_view();
        let j = find_char_exec(s, s_len, '\n', cur);
        proof {
            lemma_find_char(s@, '\n', cur as nat);
        }
        let line_end = if j > cur && s.get_char(j - 1) == '\r' {
            j - 1
        } else {
            j
        };
        let line = s.substring_char(cur, line_end).to_owned();
        proof {
            let upto = if j < s_len { j as int } else { s_len as int };
            if line_end < j {
                assert(s@.subrange(cur as int, upto).drop_last() =~= s@.subrange(
                    cur as int,
                    j - 1,
                ));
            }
            assert(line@ == chomp_cr(s@.subrange(cur as int, upto)));
        }
        out.push(line);
        proof {
            assert(out.deep_view() =~= pre.push(line@));
            if j >= s_len {
                assert(spec_lines_from(s@, cur as nat) =~= seq![line@]);
                assert(pre + spec_lines_from(s@, cur as nat) =~= out.deep_view());
                assert(out.deep_view() + spec_lines_from(s@, s_len as nat) =~= out.deep_view());
            } else {
                assert(spec_lines_from(s@, cur as nat) =~= seq![line@] + spec_lines_from(
                    s@,
                    (j + 1) as nat,
                ));
                assert(pre + spec_lines_from(s@, cur as nat) =~= out.deep_view()
                    + spec_lines_from(s@, (j + 1) as nat));
            }
        }
        if j >= s_len {
            cur = s_len;
        } else {
            cur = j + 1;
        }
    }
    proof {
        assert(spec_lines(s@) =~= out.deep_view());
    }
    out
}

/// Does `p` stand at the front of `s`?
pub fn has_prefix(s: &str, p: &str) -> (r: bool)
    ensures
        r == occurs_at(s@, p@, 0),
{
    let s_len = s.unicode_len();
    let p_len = p.unicode_len();
    if p_len > s_len {
        return false;
    }
    occurs_at_exec(s, p, s_len, p_len, 0)
}

} // verus!
