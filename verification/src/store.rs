//! The configuration store: the serialized boot target is appended
//! to the tool's own executable between two marker byte strings.
//!
//! Reading the executable and writing it back are I/O and are done by
//! the caller; here stand the split of the file into binary and data,
//! and the assembly of the rewritten file.

use vstd::prelude::*;
use vstd::string::*;

verus! {

/// The marker that opens the data block.
pub open spec fn store_start_bytes() -> Seq<u8> {
    "rsientbmefu39285cmser".spec_bytes()
}

/// The marker that closes the data block; the file ends with it when
/// a target is stored.
pub open spec fn store_end_bytes() -> Seq<u8> {
    "3894nestmvcsrent3".spec_bytes()
}

fn store_start_vec() -> (r: Vec<u8>)
    ensures
        r@ == store_start_bytes(),
{
    "rsientbmefu39285cmser".as_bytes_vec()
}

fn store_end_vec() -> (r: Vec<u8>)
    ensures
        r@ == store_end_bytes(),
{
    "3894nestmvcsrent3".as_bytes_vec()
}

/// `needle` occurs at position `i` of `hay`.
pub open spec fn occurs_b(hay: Seq<u8>, needle: Seq<u8>, i: int) -> bool {
    0 <= i && i + needle.len() <= hay.len() && hay.subrange(i, i + needle.len()) == needle
}

/// Does the file end with the closing marker, so that it carries a
/// data block?
pub open spec fn has_store_suffix(c: Seq<u8>) -> bool {
    let e = store_end_bytes();
    c.len() >= e.len() && c.subrange(c.len() - e.len(), c.len() as int) == e
}

/// Where the data block sits in an executable's bytes.
#[derive(Debug)]
pub struct DataRange {
    /// Start of the opening marker (the last occurrence in the file).
    pub header_start: usize,
    /// Start of the stored data itself.
    pub data_start: usize,
    /// End of the stored data: the closing marker begins here.
    pub data_end: usize,
}

/// Does `pat` stand at position `i` of `content`?
fn bytes_match_at(content: &Vec<u8>, pat: &Vec<u8>, i: usize) -> (r: bool)
    requires
        i + pat@.len() <= content@.len(),
    ensures
        r == occurs_b(content@, pat@, i as int),
{
    let n = content.len();
    let m = pat.len();
    let mut j: usize = 0;
    while j < m
        invariant
            n == content@.len(),
            m == pat@.len(),
            i + m <= n,
            j <= m,
            forall|k: int| 0 <= k < j ==> content@[i + k] == pat@[k],
        decreases pat@.len() - j,
    {
        if content[i + j] != pat[j] {
            assert(content@.subrange(i as int, i + pat@.len()) != pat@) by {
                assert(content@.subrange(i as int, i + pat@.len())[j as int] != pat@[j as int]);
            }
            return false;
        }
        j = j + 1;
    }
    assert(content@.subrange(i as int, i + pat@.len()) =~= pat@);
    true
}

/// Find the data block: `Some` exactly when the file ends with the
/// closing marker; the opening marker found is the last one in the
/// file, and the data runs from just after it to the closing marker.
/// A file that ends with the closing marker but has no opening marker
/// standing clear of it is a mangled trailer and excluded: the tool
/// treats such an executable as unrecoverable.
pub fn data_range(file_content: &Vec<u8>) -> (r: Option<DataRange>)
    requires
        has_store_suffix(file_content@) ==> exists|i: int|
            occurs_b(file_content@, store_start_bytes(), i) && i + store_start_bytes().len()
                + store_end_bytes().len() <= file_content@.len() && (forall|k: int|
                k > i ==> !occurs_b(file_content@, store_start_bytes(), k)),
    ensures
        (r is Some) <==> has_store_suffix(file_content@),
        r matches Some(dr) ==> occurs_b(file_content@, store_start_bytes(), dr.header_start as int)
            && (forall|k: int| dr.header_start < k ==> !occurs_b(
            file_content@,
            store_start_bytes(),
            k,
        )) && dr.data_start == dr.header_start + store_start_bytes().len()
            && dr.data_end == file_content@.len() - store_end_bytes().len()
            && dr.data_start <= dr.data_end <= file_content@.len(),
{
    let end_marker = store_end_vec();
    let start_marker = store_start_vec();
    let n = file_content.len();
    let el = end_marker.len();
    if n < el {
        return None;
    }
    if !bytes_match_at(file_content, &end_marker, n - el) {
        proof {
            assert(!has_store_suffix(file_content@));
        }
        return None;
    }
    proof {
        assert(has_store_suffix(file_content@));
    }
    let sl = start_marker.len();
    proof {
        let w = choose|i: int|
            occurs_b(file_content@, store_start_bytes(), i) && i + store_start_bytes().len()
                + store_end_bytes().len() <= file_content@.len() && (forall|k: int|
                k > i ==> !occurs_b(file_content@, store_start_bytes(), k));
        assert(occurs_b(file_content@, store_start_bytes(), w));
        assert(n >= sl);
    }
    let mut i: usize = n - sl;
    loop
        invariant
            n == file_content@.len(),
            sl == store_start_bytes().len(),
            el == store_end_bytes().len(),
            start_marker@ == store_start_bytes(),
            has_store_suffix(file_content@),
            i + sl <= n,
            exists|ii: int|
                occurs_b(file_content@, store_start_bytes(), ii) && ii + store_start_bytes().len()
                    + store_end_bytes().len() <= file_content@.len() && (forall|k: int|
                    k > ii ==> !occurs_b(file_content@, store_start_bytes(), k)),
            forall|k: int| i < k ==> !occurs_b(file_content@, store_start_bytes(), k),
        decreases i,
    {
        if bytes_match_at(file_content, &start_marker, i) {
            proof {
                let w = choose|ii: int|
                    occurs_b(file_content@, store_start_bytes(), ii) && ii
                        + store_start_bytes().len() + store_end_bytes().len()
                        <= file_content@.len() && (forall|k: int|
                        k > ii ==> !occurs_b(file_content@, store_start_bytes(), k));
                assert(occurs_b(file_content@, store_start_bytes(), w));
                assert(w == i as int);
            }
            return Some(
                DataRange { header_start: i, data_start: i + sl, data_end: n - el },
            );
        }
        if i == 0 {
            proof {
                let w = choose|ii: int|
                    occurs_b(file_content@, store_start_bytes(), ii) && ii
                        + store_start_bytes().len() + store_end_bytes().len()
                        <= file_content@.len() && (forall|k: int|
                        k > ii ==> !occurs_b(file_content@, store_start_bytes(), k));
                assert(occurs_b(file_content@, store_start_bytes(), w));
                assert(false);
            }
            return None;
        }
        i = i - 1;
    }
}

/// What the tool keeps of its own executable: the binary proper and
/// the stored data block (empty when none is stored).
pub struct Store {
    pub binary_bytes: Vec<u8>,
    pub data_bytes: Vec<u8>,
}

impl Store {
    /// Split an executable's bytes into the binary proper and the
    /// stored data block, if one is appended. Excludes the same
    /// mangled trailers as `data_range`.
    pub fn open(file_content: Vec<u8>) -> (r: Store)
        requires
            has_store_suffix(file_content@) ==> exists|i: int|
                occurs_b(file_content@, store_start_bytes(), i) && i + store_start_bytes().len()
                    + store_end_bytes().len() <= file_content@.len() && (forall|k: int|
                    k > i ==> !occurs_b(file_content@, store_start_bytes(), k)),
        ensures
            has_store_suffix(file_content@) ==> {
                let h = r.binary_bytes@.len() as int;
                &&& occurs_b(file_content@, store_start_bytes(), h)
                &&& forall|k: int| h < k ==> !occurs_b(file_content@, store_start_bytes(), k)
                &&& r.binary_bytes@ == file_content@.subrange(0, h)
                &&& r.data_bytes@ == file_content@.subrange(
                    h + store_start_bytes().len(),
                    file_content@.len() - store_end_bytes().len(),
                )
            },
            !has_store_suffix(file_content@) ==> r.binary_bytes@ == file_content@
                && r.data_bytes@.len() == 0,
    {
        match data_range(&file_content) {
            Some(dr) => {
                let binary_bytes = sub_vec(&file_content, 0, dr.header_start);
                let data_bytes = sub_vec(&file_content, dr.data_start, dr.data_end);
                Store { binary_bytes, data_bytes }
            },
            None => Store { binary_bytes: file_content, data_bytes: Vec::new() },
        }
    }

    /// The executable rewritten to carry `target` as its data block:
    /// the binary, the opening marker, the data, the closing marker.
    pub fn set_data(self, target: &Vec<u8>) -> (out: Vec<u8>)
        ensures
            out@ == self.binary_bytes@ + store_start_bytes() + target@ + store_end_bytes(),
    {
        let ghost bin = self.binary_bytes@;
        let mut out = self.binary_bytes;
        let mut start_marker = store_start_vec();
        out.append(&mut start_marker);
        let ghost with_start = out@;
        let mut j: usize = 0;
        while j < target.len()
            invariant
                j <= target@.len(),
                out@ == with_start + target@.subrange(0, j as int),
                with_start == bin + store_start_bytes(),
            decreases target@.len() - j,
        {
            out.push(target[j]);
            proof {
                assert(target@.subrange(0, j + 1) =~= target@.subrange(0, j as int).push(
                    target@[j as int],
                ));
                assert(out@ =~= with_start + target@.subrange(0, j + 1));
            }
            j = j + 1;
        }
        proof {
            assert(target@.subrange(0, target@.len() as int) =~= target@);
        }
        let mut end_marker = store_end_vec();
        out.append(&mut end_marker);
        proof {
            assert(out@ =~= self.binary_bytes@ + store_start_bytes() + target@
                + store_end_bytes());
        }
        out
    }
}

/// Copy the bytes `v[a..b]` out of `v`.
fn sub_vec(v: &Vec<u8>, a: usize, b: usize) -> (r: Vec<u8>)
    requires
        a <= b <= v@.len(),
    ensures
        r@ == v@.subrange(a as int, b as int),
{
    let mut r: Vec<u8> = Vec::new();
    let mut i: usize = a;
    while i < b
        invariant
            a <= i <= b <= v@.len(),
            r@ == v@.subrange(a as int, i as int),
        decreases b - i,
    {
        r.push(v[i]);
        proof {
            assert(v@.subrange(a as int, i + 1) =~= v@.subrange(a as int, i as int).push(
                v@[i as int],
            ));
        }
        i = i + 1;
    }
    r
}

} // verus!
