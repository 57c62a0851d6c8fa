//! The inventory of the segment files, for diagnostics.

use crate::names::{bin_of, decode_name, is_current_name, label_of};
use crate::sort::{stable_sort, stable_sort_of, Ranked};
use vstd::prelude::*;
use vstd::utf8::encode_utf8;

verus! {

/// A file of the segment directory as the caller found it.
#[derive(Clone, Debug, PartialEq, Eq)]
pub struct FileEntry {
    pub name: String,
    pub size_bytes: u64,
}

/// A segment file with what its name shows.
#[derive(Clone, Debug, PartialEq, Eq)]
pub struct SegmentInfo {
    pub filename: String,
    pub size_bytes: u64,
    pub cell: String,
    pub time_bin: i64,
    pub binary: bool,
}

/// Whether `a` comes no later than `b` in the order of strings: byte by
/// byte, and a string before those that it begins.
pub open spec fn lex_le(a: Seq<u8>, b: Seq<u8>) -> bool
    decreases a.len(),
{
    if a.len() == 0 {
        true
    } else if b.len() == 0 {
        false
    } else if a[0] != b[0] {
        a[0] < b[0]
    } else {
        lex_le(a.skip(1), b.skip(1))
    }
}

pub proof fn lemma_lex_total(a: Seq<u8>, b: Seq<u8>)
    ensures
        lex_le(a, b) || lex_le(b, a),
    decreases a.len(),
{
    if a.len() > 0 && b.len() > 0 && a[0] == b[0] {
        lemma_lex_total(a.skip(1), b.skip(1));
    }
}

pub proof fn lemma_lex_transitive(a: Seq<u8>, b: Seq<u8>, c: Seq<u8>)
    requires
        lex_le(a, b),
        lex_le(b, c),
    ensures
        lex_le(a, c),
    decreases a.len(),
{
    if a.len() > 0 && b.len() > 0 && c.len() > 0 && a[0] == b[0] && b[0] == c[0] {
        lemma_lex_transitive(a.skip(1), b.skip(1), c.skip(1));
    }
}

/// Decides the order of strings on their bytes.
fn bytes_le(a: &[u8], b: &[u8]) -> (r: bool)
    ensures
        r == lex_le(a@, b@),
{
    let mut i: usize = 0;
    proof {
        assert(a@.skip(0) =~= a@);
        assert(b@.skip(0) =~= b@);
    }
    while i < a.len() && i < b.len() && a[i] == b[i]
        invariant
            i <= a@.len(),
            i <= b@.len(),
            lex_le(a@, b@) == lex_le(a@.skip(i as int), b@.skip(i as int)),
        decreases a@.len() - i,
    {
        proof {
            assert(a@.skip(i as int).skip(1) =~= a@.skip(i + 1));
            assert(b@.skip(i as int).skip(1) =~= b@.skip(i + 1));
        }
        i += 1;
    }
    if i == a.len() {
        true
    } else if i == b.len() {
        false
    } else {
        a[i] < b[i]
    }
}

/// The bytes by which a label is ordered: its UTF-8 encoding.
pub open spec fn label_bytes(info: SegmentInfo) -> Seq<u8> {
    encode_utf8(info.cell@)
}

/// Segment files rank by their cell label, and under one label by their
/// bin start.
impl Ranked for SegmentInfo {
    open spec fn rank_le(&self, other: &Self) -> bool {
        if lex_le(label_bytes(*self), label_bytes(*other)) && lex_le(
            label_bytes(*other),
            label_bytes(*self),
        ) {
            self.time_bin <= other.time_bin
        } else {
            lex_le(label_bytes(*self), label_bytes(*other))
        }
    }

    proof fn rank_total(a: &Self, b: &Self) {
        lemma_lex_total(label_bytes(*a), label_bytes(*b));
    }

    proof fn rank_transitive(a: &Self, b: &Self, c: &Self) {
        let x = label_bytes(*a);
        let y = label_bytes(*b);
        let z = label_bytes(*c);
        lemma_lex_total(x, y);
        lemma_lex_total(y, z);
        lemma_lex_total(x, z);
        if lex_le(x, y) && lex_le(y, z) {
            lemma_lex_transitive(x, y, z);
        }
        if lex_le(z, x) && lex_le(x, y) {
            lemma_lex_transitive(z, x, y);
        }
        if lex_le(y, z) && lex_le(z, x) {
            lemma_lex_transitive(y, z, x);
        }
        if lex_le(z, y) && lex_le(y, x) {
            lemma_lex_transitive(z, y, x);
        }
    }

    fn le(&self, other: &Self) -> (r: bool) {
        let a = self.cell.as_str().as_bytes();
        let b = other.cell.as_str().as_bytes();
        let forth = bytes_le(a, b);
        if forth && bytes_le(b, a) {
            self.time_bin <= other.time_bin
        } else {
            forth
        }
    }
}

/// Whether `info` is the entry `e` with what its name shows.
pub open spec fn describes(info: SegmentInfo, e: FileEntry) -> bool {
    &&& info.filename@ == e.name@
    &&& info.size_bytes == e.size_bytes
    &&& info.cell@ == label_of(e.name@)
    &&& info.time_bin == bin_of(e.name@)
    &&& info.binary == is_current_name(e.name@)
}

/// Whether `listed` describes `entries` one by one.
pub open spec fn describes_all(listed: Seq<SegmentInfo>, entries: Seq<FileEntry>) -> bool {
    &&& listed.len() == entries.len()
    &&& forall|i: int| 0 <= i < listed.len() ==> describes(#[trigger] listed[i], entries[i])
}

/// Whether `r` is the inventory of `entries`: every entry with what its
/// name shows, sorted by cell label and bin start; entries that agree in
/// both stay in the order in which they came.
pub open spec fn is_inventory_of(r: Seq<SegmentInfo>, entries: Seq<FileEntry>) -> bool {
    exists|listed: Seq<SegmentInfo>| describes_all(listed, entries) && stable_sort_of(r, listed)
}

/// The inventory of the files of the segment directory: for each its name,
/// its size, the cell label and the bin start that the name shows, and
/// whether the extension is that of the current format; sorted by cell
/// label and bin start.
pub fn inventory_of(entries: Vec<FileEntry>) -> (r: Vec<SegmentInfo>)
    ensures
        is_inventory_of(r@, entries@),
{
    let ghost s = entries@;
    let mut listed: Vec<SegmentInfo> = Vec::new();
    for e in it: entries
        invariant
            s == it.seq(),
            describes_all(listed@, s.take(it.index() as int)),
    {
        let d = decode_name(e.name.as_str());
        let ghost before = listed@;
        let info = SegmentInfo {
            filename: e.name,
            size_bytes: e.size_bytes,
            cell: d.cell,
            time_bin: d.time_bin,
            binary: d.binary,
        };
        listed.push(info);
        proof {
            let i = it.index() as int;
            assert forall|j: int| 0 <= j < listed@.len() implies describes(
                #[trigger] listed@[j],
                s.take(i + 1)[j],
            ) by {
                if j < i {
                    assert(listed@[j] == before[j]);
                    assert(s.take(i + 1)[j] == s.take(i)[j]);
                }
            }
        }
    }
    proof {
        assert(s.take(s.len() as int) =~= s);
    }
    let ghost witness = listed@;
    let r = stable_sort(listed);
    proof {
        assert(describes_all(witness, s) && stable_sort_of(r@, witness));
    }
    r
}

} // verus!
