//! The serialized text form of a boot target, and its parser.
//!
//! A target is kept between invocations as compact text, for example
//! `Efi(pattern:"win")` or `SystemdBoot(title:"Windows",root:"/dev/sda3")`,
//! as UTF-8 bytes; quotes and backslashes inside the strings are
//! escaped with a backslash. Serialization is proved injective, so a
//! stored target always deserializes back to an equal value.

use vstd::prelude::*;
use vstd::string::*;
use vstd::utf8::{decode_utf8, encode_utf8, valid_utf8};
use crate::boot_target::BootTarget;
use crate::errors::Error;

verus! {

/// The value of a boot target: the variant and its field texts.
pub enum TargetView {
    Efi { pattern: Seq<char> },
    SystemdBoot { title: Seq<char>, root: Seq<char> },
}

impl View for BootTarget {
    type V = TargetView;

    open spec fn view(&self) -> TargetView {
        match *self {
            BootTarget::Efi { pattern } => TargetView::Efi { pattern: pattern@ },
            BootTarget::SystemdBoot { title, root } => TargetView::SystemdBoot {
                title: title@,
                root: root@,
            },
        }
    }
}

/// The bytes of `Efi(pattern:"`.
pub open spec fn efi_head() -> Seq<u8> {
    seq![
        0x45u8, 0x66u8, 0x69u8, 0x28u8, 0x70u8, 0x61u8, 0x74u8, 0x74u8, 0x65u8, 0x72u8,
        0x6Eu8, 0x3Au8, 0x22u8,
    ]
}

/// The bytes of `SystemdBoot(title:"`.
pub open spec fn sd_head() -> Seq<u8> {
    seq![
        0x53u8, 0x79u8, 0x73u8, 0x74u8, 0x65u8, 0x6Du8, 0x64u8, 0x42u8, 0x6Fu8, 0x6Fu8,
        0x74u8, 0x28u8, 0x74u8, 0x69u8, 0x74u8, 0x6Cu8, 0x65u8, 0x3Au8, 0x22u8,
    ]
}

/// The bytes of `,root:"`, standing between the closing quote of the
/// title and the root string.
pub open spec fn sd_mid() -> Seq<u8> {
    seq![0x2Cu8, 0x72u8, 0x6Fu8, 0x6Fu8, 0x74u8, 0x3Au8, 0x22u8]
}

/// One byte of string content, escaped: quote and backslash get a
/// backslash before them.
pub open spec fn esc_byte(b: u8) -> Seq<u8> {
    if b == 0x22 || b == 0x5C {
        seq![0x5Cu8, b]
    } else {
        seq![b]
    }
}

/// String content with every quote and backslash escaped.
pub open spec fn esc_b(s: Seq<u8>) -> Seq<u8>
    decreases s.len(),
{
    if s.len() == 0 {
        Seq::empty()
    } else {
        esc_byte(s[0]) + esc_b(s.drop_first())
    }
}

/// The serialized bytes of a target value.
pub open spec fn view_bytes(v: TargetView) -> Seq<u8> {
    match v {
        TargetView::Efi { pattern } => efi_head() + esc_b(encode_utf8(pattern)) + seq![0x22u8]
            + seq![0x29u8],
        TargetView::SystemdBoot { title, root } => sd_head() + esc_b(encode_utf8(title))
            + seq![0x22u8] + sd_mid() + esc_b(encode_utf8(root)) + seq![0x22u8] + seq![0x29u8],
    }
}

/// What scanning an escaped string yields: the unescaped content and
/// how many bytes were consumed, up to and including the closing
/// quote; `None` when the bytes are not a terminated escaped string.
pub open spec fn scan_spec(t: Seq<u8>) -> Option<(Seq<u8>, nat)>
    decreases t.len(),
{
    if t.len() == 0 {
        None
    } else if t[0] == 0x22 {
        Some((Seq::empty(), 1nat))
    } else if t[0] == 0x5C {
        if t.len() >= 2 && (t[1] == 0x22 || t[1] == 0x5C) {
            match scan_spec(t.skip(2)) {
                Some(p) => Some((seq![t[1]] + p.0, (p.1 + 2) as nat)),
                None => None,
            }
        } else {
            None
        }
    } else {
        match scan_spec(t.skip(1)) {
            Some(p) => Some((seq![t[0]] + p.0, (p.1 + 1) as nat)),
            None => None,
        }
    }
}

/// Scanning reads back exactly an escaped string and its quote.
proof fn lemma_scan_sound(t: Seq<u8>)
    ensures
        scan_spec(t) matches Some(p) ==> p.1 <= t.len() && t.subrange(0, p.1 as int) == esc_b(p.0)
            + seq![0x22u8],
    decreases t.len(),
{
    if t.len() == 0 {
    } else if t[0] == 0x22 {
        assert(t.subrange(0, 1) =~= esc_b(Seq::empty()) + seq![0x22u8]);
    } else if t[0] == 0x5C {
        if t.len() >= 2 && (t[1] == 0x22 || t[1] == 0x5C) {
            lemma_scan_sound(t.skip(2));
            if let Some(p) = scan_spec(t.skip(2)) {
                let c = seq![t[1]] + p.0;
                assert(c.drop_first() =~= p.0);
                assert(esc_b(c) == esc_byte(t[1]) + esc_b(p.0));
                assert(t.subrange(0, p.1 + 2int) =~= (seq![0x5Cu8, t[1]] + t.skip(2).subrange(
                    0,
                    p.1 as int,
                )));
                assert(esc_byte(t[1]) =~= seq![0x5Cu8, t[1]]);
                assert(t.subrange(0, p.1 + 2int) =~= esc_b(c) + seq![0x22u8]);
            }
        }
    } else {
        lemma_scan_sound(t.skip(1));
        if let Some(p) = scan_spec(t.skip(1)) {
            let c = seq![t[0]] + p.0;
            assert(c.drop_first() =~= p.0);
            assert(esc_b(c) == esc_byte(t[0]) + esc_b(p.0));
            assert(esc_byte(t[0]) =~= seq![t[0]]);
            assert(t.subrange(0, p.1 + 1int) =~= (seq![t[0]] + t.skip(1).subrange(0, p.1 as int)));
            assert(t.subrange(0, p.1 + 1int) =~= esc_b(c) + seq![0x22u8]);
        }
    }
}

/// Scanning an escaped string followed by its quote and anything else
/// succeeds and yields exactly the original content.
proof fn lemma_scan_complete(cp: Seq<u8>, rest: Seq<u8>)
    ensures
        scan_spec(esc_b(cp) + seq![0x22u8] + rest) == Some(
            (cp, (esc_b(cp).len() + 1) as nat),
        ),
    decreases cp.len(),
{
    let t = esc_b(cp) + seq![0x22u8] + rest;
    if cp.len() == 0 {
        assert(esc_b(cp) =~= Seq::<u8>::empty());
        assert(t[0] == 0x22);
        assert(cp =~= Seq::<u8>::empty());
    } else {
        let h = cp[0];
        let tl = cp.drop_first();
        lemma_scan_complete(tl, rest);
        assert(esc_b(cp) == esc_byte(h) + esc_b(tl));
        if h == 0x22 || h == 0x5C {
            assert(t[0] == 0x5C && t[1] == h);
            assert(t.len() >= 2);
            assert(t.skip(2) =~= esc_b(tl) + seq![0x22u8] + rest);
            assert(seq![t[1]] + tl =~= cp);
        } else {
            assert(t[0] == h);
            assert(h != 0x22 && h != 0x5C);
            assert(t.skip(1) =~= esc_b(tl) + seq![0x22u8] + rest);
            assert(seq![t[0]] + tl =~= cp);
        }
    }
}

/// Serialization is injective: two targets with the same bytes are
/// the same value. Together with the contract of `from_bytes`, this
/// is the round-trip law — serializing any target and deserializing
/// the result yields an equal value.
pub proof fn lemma_serialize_round_trip(a: TargetView, b: TargetView)
    requires
        view_bytes(a) == view_bytes(b),
    ensures
        a == b,
{
    let bytes = view_bytes(a);
    match (a, b) {
        (TargetView::Efi { pattern: p1 }, TargetView::Efi { pattern: p2 }) => {
            let e1 = encode_utf8(p1);
            let e2 = encode_utf8(p2);
            assert(bytes.skip(13) =~= esc_b(e1) + seq![0x22u8] + seq![0x29u8]);
            assert(view_bytes(b).skip(13) =~= esc_b(e2) + seq![0x22u8] + seq![0x29u8]);
            lemma_scan_complete(e1, seq![0x29u8]);
            lemma_scan_complete(e2, seq![0x29u8]);
            assert(e1 == e2);
            vstd::utf8::encode_utf8_decode_utf8(p1);
            vstd::utf8::encode_utf8_decode_utf8(p2);
            assert(p1 == p2);
        },
        (
            TargetView::SystemdBoot { title: t1, root: r1 },
            TargetView::SystemdBoot { title: t2, root: r2 },
        ) => {
            let e1 = encode_utf8(t1);
            let e2 = encode_utf8(t2);
            assert(bytes.skip(19) =~= esc_b(e1) + seq![0x22u8] + (sd_mid() + esc_b(
                encode_utf8(r1),
            ) + seq![0x22u8] + seq![0x29u8]));
            assert(view_bytes(b).skip(19) =~= esc_b(e2) + seq![0x22u8] + (sd_mid() + esc_b(
                encode_utf8(r2),
            ) + seq![0x22u8] + seq![0x29u8]));
            lemma_scan_complete(e1, sd_mid() + esc_b(encode_utf8(r1)) + seq![0x22u8] + seq![0x29u8]);
            lemma_scan_complete(e2, sd_mid() + esc_b(encode_utf8(r2)) + seq![0x22u8] + seq![0x29u8]);
            assert(e1 == e2);
            vstd::utf8::encode_utf8_decode_utf8(t1);
            vstd::utf8::encode_utf8_decode_utf8(t2);
            assert(t1 == t2);
            let f1 = encode_utf8(r1);
            let f2 = encode_utf8(r2);
            let k = 19 + esc_b(e1).len() + 1 + sd_mid().len();
            assert(bytes.skip(k as int) =~= esc_b(f1) + seq![0x22u8] + seq![0x29u8]);
            assert(view_bytes(b).skip(k as int) =~= esc_b(f2) + seq![0x22u8] + seq![0x29u8]);
            lemma_scan_complete(f1, seq![0x29u8]);
            lemma_scan_complete(f2, seq![0x29u8]);
            assert(f1 == f2);
            vstd::utf8::encode_utf8_decode_utf8(r1);
            vstd::utf8::encode_utf8_decode_utf8(r2);
            assert(r1 == r2);
        },
        (TargetView::Efi { .. }, TargetView::SystemdBoot { .. }) => {
            assert(bytes[0] == 0x45 && view_bytes(b)[0] == 0x53);
        },
        (TargetView::SystemdBoot { .. }, TargetView::Efi { .. }) => {
            assert(bytes[0] == 0x53 && view_bytes(b)[0] == 0x45);
        },
    }
}

fn efi_head_vec() -> (r: Vec<u8>)
    ensures
        r@ == efi_head(),
{
    let mut v: Vec<u8> = Vec::new();
    v.push(0x45);
    v.push(0x66);
    v.push(0x69);
    v.push(0x28);
    v.push(0x70);
    v.push(0x61);
    v.push(0x74);
    v.push(0x74);
    v.push(0x65);
    v.push(0x72);
    v.push(0x6E);
    v.push(0x3A);
    v.push(0x22);
    proof {
        assert(v@ =~= efi_head());
    }
    v
}

fn sd_head_vec() -> (r: Vec<u8>)
    ensures
        r@ == sd_head(),
{
    let mut v: Vec<u8> = Vec::new();
    v.push(0x53);
    v.push(0x79);
    v.push(0x73);
    v.push(0x74);
    v.push(0x65);
    v.push(0x6D);
    v.push(0x64);
    v.push(0x42);
    v.push(0x6F);
    v.push(0x6F);
    v.push(0x74);
    v.push(0x28);
    v.push(0x74);
    v.push(0x69);
    v.push(0x74);
    v.push(0x6C);
    v.push(0x65);
    v.push(0x3A);
    v.push(0x22);
    proof {
        assert(v@ =~= sd_head());
    }
    v
}

fn sd_mid_vec() -> (r: Vec<u8>)
    ensures
        r@ == sd_mid(),
{
    let mut v: Vec<u8> = Vec::new();
    v.push(0x2C);
    v.push(0x72);
    v.push(0x6F);
    v.push(0x6F);
    v.push(0x74);
    v.push(0x3A);
    v.push(0x22);
    proof {
        assert(v@ =~= sd_mid());
    }
    v
}

/// Append the escaped UTF-8 bytes of `s` to `out`.
fn push_escaped(out: &mut Vec<u8>, s: &str)
    ensures
        final(out)@ == old(out)@ + esc_b(encode_utf8(s@)),
{
    let bytes = s.as_bytes_vec();
    let n = bytes.len();
    let mut i: usize = 0;
    while i < n
        invariant
            n == bytes@.len(),
            i <= n,
            bytes@ == encode_utf8(s@),
            out@ == old(out)@ + esc_b(bytes@.subrange(0, i as int)),
        decreases n - i,
    {
        let ghost pre = bytes@.subrange(0, i as int);
        let b = bytes[i];
        if b == 0x22 || b == 0x5C {
            out.push(0x5C);
            out.push(b);
        } else {
            out.push(b);
        }
        proof {
            let cur = bytes@.subrange(0, i + 1);
            assert(cur.drop_last() =~= pre);
            assert(cur.last() == bytes@[i as int]);
            lemma_esc_snoc(cur);
            assert(out@ =~= old(out)@ + (esc_b(pre) + esc_byte(b)));
        }
        i = i + 1;
    }
    proof {
        assert(bytes@.subrange(0, n as int) =~= bytes@);
    }
}

proof fn lemma_esc_snoc(s: Seq<u8>)
    requires
        s.len() > 0,
    ensures
        esc_b(s) == esc_b(s.drop_last()) + esc_byte(s.last()),
    decreases s.len(),
{
    if s.len() == 1 {
        assert(s.drop_first() =~= Seq::<u8>::empty());
        assert(s.drop_last() =~= Seq::<u8>::empty());
        assert(esc_b(s) == esc_byte(s[0]) + esc_b(Seq::<u8>::empty()));
        assert(esc_byte(s[0]) + Seq::<u8>::empty() =~= esc_byte(s[0]));
        assert(Seq::<u8>::empty() + esc_byte(s.last()) =~= esc_byte(s.last()));
        assert(s.last() == s[0]);
    } else {
        lemma_esc_snoc(s.drop_first());
        assert(s.drop_first().drop_last() =~= s.drop_last().drop_first());
        assert(s.drop_first().last() == s.last());
        assert(s.drop_last()[0] == s[0]);
        assert(esc_b(s) == esc_byte(s[0]) + (esc_b(s.drop_first().drop_last()) + esc_byte(
            s.last(),
        )));
        assert(esc_b(s.drop_last()) == esc_byte(s[0]) + esc_b(s.drop_last().drop_first()));
        assert(esc_b(s) =~= esc_b(s.drop_last()) + esc_byte(s.last()));
    }
}

/// Relies on `String::from_utf8`: it succeeds exactly on valid UTF-8
/// and then decodes those bytes.
#[verifier::external_body]
fn utf8_to_string(bytes: Vec<u8>) -> (r: Option<String>)
    ensures
        (r is Some) <==> valid_utf8(bytes@),
        r matches Some(s) ==> s@ == decode_utf8(bytes@),
{
    String::from_utf8(bytes).ok()
}

/// Does `pat` stand at position `i` of `bytes`?
fn bytes_match_at(bytes: &Vec<u8>, pat: &Vec<u8>, i: usize) -> (r: bool)
    requires
        i + pat@.len() <= bytes@.len(),
    ensures
        r == (bytes@.subrange(i as int, i + pat@.len()) == pat@),
{
    let n = bytes.len();
    let m = pat.len();
    let mut j: usize = 0;
    while j < m
        invariant
            n == bytes@.len(),
            m == pat@.len(),
            i + m <= n,
            j <= m,
            forall|k: int| 0 <= k < j ==> bytes@[i + k] == pat@[k],
        decreases m - j,
    {
        if bytes[i + j] != pat[j] {
            assert(bytes@.subrange(i as int, i + pat@.len()) != pat@) by {
                assert(bytes@.subrange(i as int, i + pat@.len())[j as int] != pat@[j as int]);
            }
            return false;
        }
        j = j + 1;
    }
    assert(bytes@.subrange(i as int, i + pat@.len()) =~= pat@);
    true
}

/// Scan an escaped string starting at `start`, through its closing
/// quote. Mirrors `scan_spec` on the bytes from `start` on.
fn scan_string(bytes: &Vec<u8>, start: usize) -> (r: Option<(Vec<u8>, usize)>)
    requires
        start <= bytes@.len(),
    ensures
        (r is Some) <==> (scan_spec(bytes@.skip(start as int)) is Some),
        r matches Some(p) ==> start < p.1 <= bytes@.len() && scan_spec(
            bytes@.skip(start as int),
        ) == Some((p.0@, (p.1 - start) as nat)),
{
    let n = bytes.len();
    let mut collected: Vec<u8> = Vec::new();
    let mut pos: usize = start;
    loop
        invariant
            n == bytes@.len(),
            start <= pos <= n,
            (scan_spec(bytes@.skip(start as int)) is Some) <==> (scan_spec(
                bytes@.skip(pos as int),
            ) is Some),
            scan_spec(bytes@.skip(start as int)) matches Some(p0) ==> (scan_spec(
                bytes@.skip(pos as int),
            ) matches Some(pp) && p0.0 == collected@ + pp.0 && p0.1 == pos - start + pp.1),
        decreases n - pos,
    {
        let ghost tail = bytes@.skip(pos as int);
        if pos == n {
            proof {
                assert(tail.len() == 0);
                assert(scan_spec(tail) is None);
            }
            return None;
        }
        let b = bytes[pos];
        proof {
            assert(tail[0] == bytes@[pos as int]);
        }
        if b == 0x22 {
            proof {
                assert(scan_spec(tail) == Some((Seq::<u8>::empty(), 1nat)));
                if let Some(p0) = scan_spec(bytes@.skip(start as int)) {
                    assert(p0.0 =~= collected@);
                }
            }
            return Some((collected, pos + 1));
        }
        if b == 0x5C {
            if pos + 1 == n {
                proof {
                    assert(tail.len() == 1);
                    assert(scan_spec(tail) is None);
                }
                return None;
            }
            let nxt = bytes[pos + 1];
            proof {
                assert(tail[1] == bytes@[pos + 1]);
            }
            if nxt == 0x22 || nxt == 0x5C {
                let ghost pre = collected@;
                collected.push(nxt);
                proof {
                    assert(tail.skip(2) =~= bytes@.skip(pos + 2));
                    if let Some(pp) = scan_spec(bytes@.skip(pos + 2)) {
                        assert(scan_spec(tail) == Some(
                            (seq![tail[1]] + pp.0, (pp.1 + 2) as nat),
                        ));
                        if let Some(p0) = scan_spec(bytes@.skip(start as int)) {
                            assert(p0.0 =~= (pre + (seq![nxt] + pp.0)));
                            assert(collected@ + pp.0 =~= pre + (seq![nxt] + pp.0));
                        }
                    } else {
                        assert(scan_spec(tail) is None);
                    }
                }
                pos = pos + 2;
            } else {
                proof {
                    assert(scan_spec(tail) is None);
                }
                return None;
            }
        } else {
            let ghost pre = collected@;
            collected.push(b);
            proof {
                assert(tail.skip(1) =~= bytes@.skip(pos + 1));
                if let Some(pp) = scan_spec(bytes@.skip(pos + 1)) {
                    assert(scan_spec(tail) == Some((seq![tail[0]] + pp.0, (pp.1 + 1) as nat)));
                    if let Some(p0) = scan_spec(bytes@.skip(start as int)) {
                        assert(p0.0 =~= (pre + (seq![b] + pp.0)));
                        assert(collected@ + pp.0 =~= pre + (seq![b] + pp.0));
                    }
                } else {
                    assert(scan_spec(tail) is None);
                }
            }
            pos = pos + 1;
        }
    }
}

impl BootTarget {
    /// The serialized form of this target, ready for the store.
    pub fn to_bytes(&self) -> (r: Vec<u8>)
        ensures
            r@ == view_bytes(self@),
    {
        match self {
            BootTarget::Efi { pattern } => {
                let mut out = efi_head_vec();
                push_escaped(&mut out, pattern.as_str());
                out.push(0x22);
                out.push(0x29);
                proof {
                    assert(out@ =~= view_bytes(self@));
                }
                out
            },
            BootTarget::SystemdBoot { title, root } => {
                let mut out = sd_head_vec();
                push_escaped(&mut out, title.as_str());
                out.push(0x22);
                let mut mid = sd_mid_vec();
                out.append(&mut mid);
                push_escaped(&mut out, root.as_str());
                out.push(0x22);
                out.push(0x29);
                proof {
                    assert(out@ =~= view_bytes(self@));
                }
                out
            },
        }
    }

    /// Parse a serialized target. Succeeds exactly on the serialized
    /// form of some target, and then returns that target.
    pub fn from_bytes(bytes: &Vec<u8>) -> (r: Result<BootTarget, Error>)
        ensures
            r matches Ok(t) ==> bytes@ == view_bytes(t@),
            r is Err ==> (forall|v: TargetView| bytes@ != view_bytes(v)),
            r matches Err(e) ==> e is StoredTargetInvalid,
    {
        let n = bytes.len();
        let efi_h = efi_head_vec();
        let sd_h = sd_head_vec();
        if n >= 13 && bytes_match_at(bytes, &efi_h, 0) {
            match Self::parse_efi(bytes) {
                Some(t) => Ok(t),
                None => {
                    proof {
                        assert forall|v: TargetView| bytes@ != view_bytes(v) by {
                            lemma_parse_efi_refute(bytes@, v);
                        }
                    }
                    Err(Error::StoredTargetInvalid)
                },
            }
        } else if n >= 19 && bytes_match_at(bytes, &sd_h, 0) {
            match Self::parse_sd(bytes) {
                Some(t) => Ok(t),
                None => {
                    proof {
                        assert forall|v: TargetView| bytes@ != view_bytes(v) by {
                            lemma_parse_sd_refute(bytes@, v);
                        }
                    }
                    Err(Error::StoredTargetInvalid)
                },
            }
        } else {
            proof {
                assert forall|v: TargetView| bytes@ != view_bytes(v) by {
                    if bytes@ == view_bytes(v) {
                        match v {
                            TargetView::Efi { pattern } => {
                                assert(bytes@.subrange(0, 13) =~= efi_head());
                            },
                            TargetView::SystemdBoot { title, root } => {
                                assert(bytes@.subrange(0, 19) =~= sd_head());
                            },
                        }
                    }
                }
            }
            Err(Error::StoredTargetInvalid)
        }
    }

    /// Parse the remainder of an `Efi(pattern:"` form.
    fn parse_efi(bytes: &Vec<u8>) -> (r: Option<BootTarget>)
        requires
            bytes@.len() >= 13,
            bytes@.subrange(0, 13) == efi_head(),
        ensures
            r matches Some(t) ==> bytes@ == view_bytes(t@),
            r is None ==> (forall|v: TargetView|
                v matches TargetView::Efi { .. } ==> bytes@ != view_bytes(v)),
    {
        let n = bytes.len();
        match scan_string(bytes, 13) {
            Some((content, end)) => {
                if end < n && end + 1 == n && bytes[end] == 0x29 {
                    let ghost cb = content@;
                    match utf8_to_string(content) {
                        Some(s) => {
                            proof {
                                lemma_scan_sound(bytes@.skip(13));
                                vstd::utf8::decode_utf8_encode_utf8(cb);
                                assert(bytes@.skip(13).subrange(0, end - 13) == esc_b(cb)
                                    + seq![0x22u8]);
                                assert(bytes@ =~= efi_head() + (esc_b(cb) + seq![0x22u8])
                                    + seq![0x29u8]);
                                assert(encode_utf8(s@) == cb);
                                assert(bytes@ =~= view_bytes(
                                    TargetView::Efi { pattern: s@ },
                                ));
                            }
                            Some(BootTarget::Efi { pattern: s })
                        },
                        None => {
                            proof {
                                assert forall|v: TargetView|
                                    v matches TargetView::Efi { .. } implies bytes@ != view_bytes(
                                    v,
                                ) by {
                                    if let TargetView::Efi { pattern } = v {
                                        lemma_parse_efi_scan(bytes@, pattern);
                                        if bytes@ == view_bytes(v) {
                                            assert(valid_utf8(cb));
                                        }
                                    }
                                }
                            }
                            None
                        },
                    }
                } else {
                    proof {
                        assert forall|v: TargetView|
                            v matches TargetView::Efi { .. } implies bytes@ != view_bytes(v) by {
                            if let TargetView::Efi { pattern } = v {
                                lemma_parse_efi_scan(bytes@, pattern);
                            }
                        }
                    }
                    None
                }
            },
            None => {
                proof {
                    assert forall|v: TargetView|
                        v matches TargetView::Efi { .. } implies bytes@ != view_bytes(v) by {
                        if let TargetView::Efi { pattern } = v {
                            lemma_parse_efi_scan(bytes@, pattern);
                        }
                    }
                }
                None
            },
        }
    }

    /// Parse the remainder of a `SystemdBoot(title:"` form.
    #[verifier::rlimit(60)]
    fn parse_sd(bytes: &Vec<u8>) -> (r: Option<BootTarget>)
        requires
            bytes@.len() >= 19,
            bytes@.subrange(0, 19) == sd_head(),
        ensures
            r matches Some(t) ==> bytes@ == view_bytes(t@),
            r is None ==> (forall|v: TargetView|
                v matches TargetView::SystemdBoot { .. } ==> bytes@ != view_bytes(v)),
    {
        let n = bytes.len();
        let mid = sd_mid_vec();
        match scan_string(bytes, 19) {
            Some((title_b, p1)) => {
                if p1 <= n - 7 && bytes_match_at(bytes, &mid, p1) {
                    match scan_string(bytes, p1 + 7) {
                        Some((root_b, p2)) => {
                            if p2 < n && p2 + 1 == n && bytes[p2] == 0x29 {
                                let ghost tb = title_b@;
                                let ghost rb = root_b@;
                                let t_opt = utf8_to_string(title_b);
                                let r_opt = utf8_to_string(root_b);
                                match (t_opt, r_opt) {
                                    (Some(title), Some(root)) => {
                                        proof {
                                            lemma_scan_sound(bytes@.skip(19));
                                            lemma_scan_sound(bytes@.skip(p1 + 7));
                                            vstd::utf8::decode_utf8_encode_utf8(tb);
                                            vstd::utf8::decode_utf8_encode_utf8(rb);
                                            assert(bytes@ =~= sd_head() + (esc_b(tb)
                                                + seq![0x22u8]) + sd_mid() + (esc_b(rb)
                                                + seq![0x22u8]) + seq![0x29u8]);
                                            assert(encode_utf8(title@) == tb);
                                            assert(encode_utf8(root@) == rb);
                                            assert(bytes@ =~= view_bytes(
                                                TargetView::SystemdBoot {
                                                    title: title@,
                                                    root: root@,
                                                },
                                            ));
                                        }
                                        Some(BootTarget::SystemdBoot { title, root })
                                    },
                                    _ => {
                                        proof {
                                            assert forall|v: TargetView|
                                                v matches TargetView::SystemdBoot {
                                                    ..
                                                } implies bytes@ != view_bytes(v) by {
                                                if let TargetView::SystemdBoot { title, root } =
                                                    v {
                                                    lemma_parse_sd_scan(bytes@, title, root);
                                                    if bytes@ == view_bytes(v) {
                                                        assert(valid_utf8(tb) && valid_utf8(rb));
                                                    }
                                                }
                                            }
                                        }
                                        None
                                    },
                                }
                            } else {
                                proof {
                                    assert forall|v: TargetView|
                                        v matches TargetView::SystemdBoot {
                                            ..
                                        } implies bytes@ != view_bytes(v) by {
                                        if let TargetView::SystemdBoot { title, root } = v {
                                            lemma_parse_sd_scan(bytes@, title, root);
                                        }
                                    }
                                }
                                None
                            }
                        },
                        None => {
                            proof {
                                assert forall|v: TargetView|
                                    v matches TargetView::SystemdBoot {
                                        ..
                                    } implies bytes@ != view_bytes(v) by {
                                    if let TargetView::SystemdBoot { title, root } = v {
                                        lemma_parse_sd_scan(bytes@, title, root);
                                    }
                                }
                            }
                            None
                        },
                    }
                } else {
                    proof {
                        assert forall|v: TargetView|
                            v matches TargetView::SystemdBoot { .. } implies bytes@ != view_bytes(
                            v,
                        ) by {
                            if let TargetView::SystemdBoot { title, root } = v {
                                lemma_parse_sd_scan(bytes@, title, root);
                            }
                        }
                    }
                    None
                }
            },
            None => {
                proof {
                    assert forall|v: TargetView|
                        v matches TargetView::SystemdBoot { .. } implies bytes@ != view_bytes(
                        v,
                    ) by {
                        if let TargetView::SystemdBoot { title, root } = v {
                            lemma_parse_sd_scan(bytes@, title, root);
                        }
                    }
                }
                None
            },
        }
    }
}

/// On the serialized bytes of an `Efi` target, the scan after the
/// head yields exactly the encoded pattern, and the closing
/// parenthesis is the last byte.
proof fn lemma_parse_efi_scan(bytes: Seq<u8>, pattern: Seq<char>)
    ensures
        bytes == view_bytes(TargetView::Efi { pattern }) ==> {
            let e = encode_utf8(pattern);
            &&& scan_spec(bytes.skip(13)) == Some((e, (esc_b(e).len() + 1) as nat))
            &&& bytes.len() == 13 + esc_b(e).len() + 2
            &&& bytes[bytes.len() - 1] == 0x29
            &&& valid_utf8(e)
        },
{
    if bytes == view_bytes(TargetView::Efi { pattern }) {
        let e = encode_utf8(pattern);
        assert(bytes.skip(13) =~= esc_b(e) + seq![0x22u8] + seq![0x29u8]);
        lemma_scan_complete(e, seq![0x29u8]);
        vstd::utf8::encode_utf8_valid_utf8(pattern);
        assert(bytes[bytes.len() - 1] == 0x29);
    }
}

/// On the serialized bytes of a `SystemdBoot` target, the two scans
/// yield exactly the encoded title and root, separated by the middle
/// marker, with the closing parenthesis last.
proof fn lemma_parse_sd_scan(bytes: Seq<u8>, title: Seq<char>, root: Seq<char>)
    ensures
        bytes == view_bytes(TargetView::SystemdBoot { title, root }) ==> {
            let e = encode_utf8(title);
            let f = encode_utf8(root);
            let p1 = 19 + esc_b(e).len() + 1;
            &&& scan_spec(bytes.skip(19)) == Some((e, (esc_b(e).len() + 1) as nat))
            &&& bytes.subrange(p1 as int, p1 + 7int) == sd_mid()
            &&& scan_spec(bytes.skip(p1 + 7int)) == Some((f, (esc_b(f).len() + 1) as nat))
            &&& bytes.len() == p1 + 7 + esc_b(f).len() + 2
            &&& bytes[bytes.len() - 1] == 0x29
            &&& valid_utf8(e)
            &&& valid_utf8(f)
        },
{
    if bytes == view_bytes(TargetView::SystemdBoot { title, root }) {
        let e = encode_utf8(title);
        let f = encode_utf8(root);
        let p1 = 19 + esc_b(e).len() + 1;
        assert(bytes.skip(19) =~= esc_b(e) + seq![0x22u8] + (sd_mid() + esc_b(f) + seq![0x22u8]
            + seq![0x29u8]));
        lemma_scan_complete(e, sd_mid() + esc_b(f) + seq![0x22u8] + seq![0x29u8]);
        assert(bytes.subrange(p1 as int, p1 + 7int) =~= sd_mid());
        assert(bytes.skip(p1 + 7int) =~= esc_b(f) + seq![0x22u8] + seq![0x29u8]);
        lemma_scan_complete(f, seq![0x29u8]);
        vstd::utf8::encode_utf8_valid_utf8(title);
        vstd::utf8::encode_utf8_valid_utf8(root);
        assert(bytes[bytes.len() - 1] == 0x29);
    }
}

/// A byte string that starts with the `Efi` head is no serialized
/// `SystemdBoot` target; so when its own parse fails, it is no
/// serialized target at all.
proof fn lemma_parse_efi_refute(bytes: Seq<u8>, v: TargetView)
    requires
        bytes.len() >= 13,
        bytes.subrange(0, 13) == efi_head(),
        forall|p: Seq<char>| bytes != view_bytes(TargetView::Efi { pattern: p }),
    ensures
        bytes != view_bytes(v),
{
    if bytes == view_bytes(v) {
        match v {
            TargetView::Efi { pattern } => {
                assert(bytes != view_bytes(TargetView::Efi { pattern }));
            },
            TargetView::SystemdBoot { title, root } => {
                assert(bytes[0] == efi_head()[0]);
                assert(bytes[0] == 0x53);
            },
        }
    }
}

/// A byte string that starts with the `SystemdBoot` head is no
/// serialized `Efi` target; so when its own parse fails, it is no
/// serialized target at all.
proof fn lemma_parse_sd_refute(bytes: Seq<u8>, v: TargetView)
    requires
        bytes.len() >= 19,
        bytes.subrange(0, 19) == sd_head(),
        forall|t: Seq<char>, r: Seq<char>|
            bytes != view_bytes(TargetView::SystemdBoot { title: t, root: r }),
    ensures
        bytes != view_bytes(v),
{
    if bytes == view_bytes(v) {
        match v {
            TargetView::Efi { pattern } => {
                assert(bytes[0] == sd_head()[0]);
                assert(bytes[0] == 0x45);
            },
            TargetView::SystemdBoot { title, root } => {
                assert(bytes != view_bytes(TargetView::SystemdBoot { title, root }));
            },
        }
    }
}

} // verus!
