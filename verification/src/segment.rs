//! The segment file format.
//!
//! A segment in the current format is the five magic bytes followed by
//! records, each a length in four little-endian bytes and then that many
//! bytes of payload. Any other file is read as text lines. What a payload
//! or a line means is decided by the caller, who decodes them.

use vstd::prelude::*;
use vstd::slice::{slice_subrange, slice_to_vec};

verus! {

/// Why a segment could not be read or written.
#[derive(Clone, Copy, Debug, PartialEq, Eq, Structural)]
pub enum SegmentError {
    /// A record announces more bytes than the file has left.
    Truncated,
    /// A record of a file in the current format is no observation.
    Undecodable,
    /// A payload is longer than four length bytes can say.
    RecordTooLarge,
}

/// The format in which a partition is on disk.
#[derive(Clone, Copy, Debug, PartialEq, Eq, Structural)]
pub enum SegmentKind {
    /// The current binary format.
    Current,
    /// The legacy text format.
    Legacy,
}

/// What a segment file holds, before its records are decoded.
#[derive(Debug, PartialEq, Eq)]
pub enum SegmentData {
    /// The payloads of a file in the current format, in file order.
    Binary(Vec<Vec<u8>>),
    /// The lines of a file in the legacy text format, in file order.
    Legacy(Vec<Vec<u8>>),
}

/// The five bytes that open a file in the current format: `A4D1` and the
/// format version 1.
pub open spec fn magic() -> Seq<u8> {
    seq![0x41u8, 0x34u8, 0x44u8, 0x31u8, 0x01u8]
}

/// Whether a file is in the current format: it starts with the magic.
pub open spec fn is_binary(bytes: Seq<u8>) -> bool {
    bytes.len() >= 5 && bytes.take(5) == magic()
}

/// The number that four little-endian bytes stand for.
pub open spec fn le_u32(b: Seq<u8>) -> int {
    b[0] + 256 * b[1] + 65536 * b[2] + 16777216 * b[3]
}

/// A length below 2^32 as four little-endian bytes.
pub open spec fn u32_le(n: int) -> Seq<u8> {
    seq![
        (n % 256) as u8,
        ((n / 256) % 256) as u8,
        ((n / 65536) % 256) as u8,
        ((n / 16777216) % 256) as u8,
    ]
}

/// One record on disk: the payload behind its length.
pub open spec fn frame(payload: Seq<u8>) -> Seq<u8> {
    u32_le(payload.len() as int) + payload
}

/// The records of `payloads` one after another.
pub open spec fn framed(payloads: Seq<Seq<u8>>) -> Seq<u8>
    decreases payloads.len(),
{
    if payloads.len() == 0 {
        Seq::empty()
    } else {
        framed(payloads.drop_last()) + frame(payloads.last())
    }
}

/// The payloads of the records in `body`, the part of a file behind the
/// magic. Reading stops where fewer than four bytes are left. `None` where
/// a record announces more bytes than are left.
pub open spec fn frames(body: Seq<u8>) -> Option<Seq<Seq<u8>>>
    decreases body.len(),
{
    if body.len() < 4 {
        Some(Seq::empty())
    } else {
        let len = le_u32(body.take(4));
        if body.len() - 4 < len {
            None
        } else {
            match frames(body.skip(4 + len)) {
                Some(rest) => Some(seq![body.subrange(4, 4 + len)] + rest),
                None => None,
            }
        }
    }
}

/// The number of bytes before the first line feed of `bytes`, or all of
/// them where there is none.
pub open spec fn line_len(bytes: Seq<u8>) -> nat
    decreases bytes.len(),
{
    if bytes.len() == 0 || bytes[0] == 10u8 {
        0
    } else {
        1 + line_len(bytes.skip(1))
    }
}

/// A line without the carriage return that may end it.
pub open spec fn strip_cr(line: Seq<u8>) -> Seq<u8> {
    if line.len() > 0 && line.last() == 13u8 {
        line.drop_last()
    } else {
        line
    }
}

/// The lines of a text. A line ends with a line feed, or with a carriage
/// return and a line feed; neither belongs to it. What follows the last
/// line feed is a line too, as it stands, unless it is empty.
pub open spec fn lines(bytes: Seq<u8>) -> Seq<Seq<u8>>
    decreases bytes.len(),
{
    if bytes.len() == 0 {
        Seq::empty()
    } else {
        let n = line_len(bytes) as int;
        if n >= bytes.len() {
            seq![bytes]
        } else {
            seq![strip_cr(bytes.take(n))] + lines(bytes.skip(n + 1))
        }
    }
}

/// The byte strings that a vector of byte vectors holds.
pub open spec fn views(v: Seq<Vec<u8>>) -> Seq<Seq<u8>> {
    Seq::new(v.len(), |i: int| v[i]@)
}

/// Whether every payload is short enough for a record.
pub open spec fn all_fit(payloads: Seq<Seq<u8>>) -> bool {
    forall|i: int| 0 <= i < payloads.len() ==> (#[trigger] payloads[i]).len() <= u32::MAX
}

/// What `read_segment` gives for a file: the payloads of a file in the
/// current format, or the lines of any other.
pub open spec fn segment_content(bytes: Seq<u8>) -> Result<(bool, Seq<Seq<u8>>), SegmentError> {
    if is_binary(bytes) {
        match frames(bytes.skip(5)) {
            Some(p) => Ok((true, p)),
            None => Err(SegmentError::Truncated),
        }
    } else {
        Ok((false, lines(bytes)))
    }
}

/// A length written as four bytes reads back as itself.
pub proof fn lemma_le_u32_inverts(n: int)
    requires
        0 <= n <= u32::MAX,
    ensures
        u32_le(n).len() == 4,
        le_u32(u32_le(n)) == n,
{
}

/// Records laid end to end are the records of the parts laid end to end.
pub proof fn lemma_framed_concat(a: Seq<Seq<u8>>, b: Seq<Seq<u8>>)
    ensures
        framed(a + b) == framed(a) + framed(b),
    decreases b.len(),
{
    if b.len() == 0 {
        assert(a + b =~= a);
        assert(framed(a) + framed(b) =~= framed(a));
    } else {
        assert((a + b).drop_last() =~= a + b.drop_last());
        assert((a + b).last() == b.last());
        lemma_framed_concat(a, b.drop_last());
        assert((framed(a) + framed(b.drop_last())) + frame(b.last()) =~= framed(a) + (framed(
            b.drop_last(),
        ) + frame(b.last())));
    }
}

/// A record in front of a body that reads as `rest` reads as the payload
/// and then `rest`.
proof fn lemma_frames_front(payload: Seq<u8>, body: Seq<u8>)
    requires
        payload.len() <= u32::MAX,
    ensures
        frames(frame(payload) + body) == match frames(body) {
            Some(rest) => Some(seq![payload] + rest),
            None => None,
        },
{
    let all = frame(payload) + body;
    let n = payload.len() as int;
    lemma_le_u32_inverts(n);
    assert(all.take(4) =~= u32_le(n));
    assert(all.subrange(4, 4 + n) =~= payload);
    assert(all.skip(4 + n) =~= body);
}

/// Written records read back as they were written, whatever fewer than
/// four bytes follow them.
pub proof fn lemma_frames_of_framed(payloads: Seq<Seq<u8>>, junk: Seq<u8>)
    requires
        all_fit(payloads),
        junk.len() < 4,
    ensures
        frames(framed(payloads) + junk) == Some(payloads),
    decreases payloads.len(),
{
    if payloads.len() == 0 {
        assert(framed(payloads) + junk =~= junk);
    } else {
        let first = payloads.first();
        let rest = payloads.drop_first();
        assert(payloads =~= seq![first] + rest);
        lemma_framed_concat(seq![first], rest);
        assert(framed(seq![first]) =~= frame(first)) by {
            assert(seq![first].drop_last() =~= Seq::<Seq<u8>>::empty());
            assert(framed(Seq::<Seq<u8>>::empty()) =~= Seq::<u8>::empty());
        }
        assert(framed(payloads) + junk =~= frame(first) + (framed(rest) + junk));
        assert(all_fit(rest));
        lemma_frames_of_framed(rest, junk);
        lemma_frames_front(first, framed(rest) + junk);
    }
}

/// A segment file that was written whole reads back as the payloads
/// written.
pub proof fn lemma_written_reads_back(payloads: Seq<Seq<u8>>)
    requires
        all_fit(payloads),
    ensures
        segment_content(magic() + framed(payloads)) == Ok::<
            (bool, Seq<Seq<u8>>),
            SegmentError,
        >((true, payloads)),
{
    let bytes = magic() + framed(payloads);
    assert(bytes.take(5) =~= magic());
    assert(bytes.skip(5) =~= framed(payloads) + Seq::<u8>::empty());
    lemma_frames_of_framed(payloads, Seq::empty());
}

/// A segment file that was written and then appended to reads back as
/// the payloads written and then those appended.
pub proof fn lemma_appended_reads_back(first: Seq<Seq<u8>>, then: Seq<Seq<u8>>)
    requires
        all_fit(first),
        all_fit(then),
    ensures
        segment_content(magic() + framed(first) + framed(then)) == Ok::<
            (bool, Seq<Seq<u8>>),
            SegmentError,
        >((true, first + then)),
{
    lemma_framed_concat(first, then);
    assert(magic() + framed(first) + framed(then) =~= magic() + framed(first + then));
    assert(all_fit(first + then)) by {
        assert forall|i: int| 0 <= i < (first + then).len() implies (#[trigger] (first + then)[i]).len()
            <= u32::MAX by {
            if i < first.len() {
                assert((first + then)[i] == first[i]);
            } else {
                assert((first + then)[i] == then[i - first.len()]);
            }
        }
    }
    lemma_written_reads_back(first + then);
}

/// The length of the first line, from where its line feed is.
proof fn lemma_line_len(s: Seq<u8>, k: int)
    requires
        0 <= k <= s.len(),
        forall|j: int| 0 <= j < k ==> s[j] != 10u8,
        k == s.len() || s[k] == 10u8,
    ensures
        line_len(s) == k,
    decreases k,
{
    if k > 0 {
        let t = s.skip(1);
        assert forall|j: int| 0 <= j < k - 1 implies t[j] != 10u8 by {
            assert(t[j] == s[j + 1]);
        }
        lemma_line_len(t, k - 1);
    }
}

/// Appends the four length bytes of `n` to `out`.
fn push_len(out: &mut Vec<u8>, n: u32)
    ensures
        final(out)@ == old(out)@ + u32_le(n as int),
{
    out.push((n % 256) as u8);
    out.push(((n / 256) % 256) as u8);
    out.push(((n / 65536) % 256) as u8);
    out.push(((n / 16777216) % 256) as u8);
    proof {
        assert(out@ =~= old(out)@ + u32_le(n as int));
    }
}

/// Appends the magic to `out`.
fn push_magic(out: &mut Vec<u8>)
    ensures
        final(out)@ == old(out)@ + magic(),
{
    out.push(0x41u8);
    out.push(0x34u8);
    out.push(0x44u8);
    out.push(0x31u8);
    out.push(0x01u8);
    proof {
        assert(out@ =~= old(out)@ + magic());
    }
}

/// Appends one record for each payload to `out`. Fails, with `out` in an
/// unspecified state, where a payload is too long.
fn push_records(out: &mut Vec<u8>, payloads: &Vec<Vec<u8>>) -> (r: Result<(), SegmentError>)
    ensures
        r is Ok <==> all_fit(views(payloads@)),
        r is Ok ==> final(out)@ == old(out)@ + framed(views(payloads@)),
        r is Err ==> r == Err::<(), SegmentError>(SegmentError::RecordTooLarge),
{
    let ghost all = views(payloads@);
    let mut i: usize = 0;
    proof {
        assert(all.take(0) =~= Seq::<Seq<u8>>::empty());
        assert(out@ + framed(all.take(0)) =~= out@);
    }
    while i < payloads.len()
        invariant
            i <= payloads.len(),
            all == views(payloads@),
            all_fit(all.take(i as int)),
            out@ == old(out)@ + framed(all.take(i as int)),
        decreases payloads.len() - i,
    {
        let p = &payloads[i];
        if p.len() > 0xffff_ffff {
            proof {
                assert(all[i as int] == p@);
            }
            return Err(SegmentError::RecordTooLarge);
        }
        let ghost before = out@;
        push_len(out, p.len() as u32);
        out.extend_from_slice(p.as_slice());
        proof {
            let done = all.take(i as int);
            let next = all.take(i + 1);
            assert(all[i as int] == p@);
            assert(next =~= done.push(p@));
            assert(next.drop_last() =~= done);
            assert(out@ =~= before + frame(p@));
            assert(out@ =~= old(out)@ + framed(next));
            assert(all_fit(next)) by {
                assert forall|k: int| 0 <= k < next.len() implies (#[trigger] next[k]).len()
                    <= u32::MAX by {
                    if k < i {
                        assert(next[k] == done[k]);
                    }
                }
            }
        }
        i += 1;
    }
    proof {
        assert(all.take(i as int) =~= all);
    }
    Ok(())
}

/// The bytes of a whole segment file that holds `payloads`: the magic and
/// one record for each payload. Fails where a payload is longer than a
/// record can be.
pub fn encode_segment(payloads: &Vec<Vec<u8>>) -> (r: Result<Vec<u8>, SegmentError>)
    ensures
        r is Ok <==> all_fit(views(payloads@)),
        r matches Ok(bytes) ==> bytes@ == magic() + framed(views(payloads@)),
        r matches Err(e) ==> e == SegmentError::RecordTooLarge,
{
    let mut out: Vec<u8> = Vec::new();
    push_magic(&mut out);
    match push_records(&mut out, payloads) {
        Ok(()) => {
            proof {
                assert(out@ =~= magic() + framed(views(payloads@)));
            }
            Ok(out)
        },
        Err(e) => Err(e),
    }
}

/// The bytes to append to a segment file of `existing_len` bytes so that it
/// also holds `payloads`: one record for each, behind the magic where the
/// file is new or empty.
pub fn append_bytes(existing_len: u64, payloads: &Vec<Vec<u8>>) -> (r: Result<
    Vec<u8>,
    SegmentError,
>)
    ensures
        r is Ok <==> all_fit(views(payloads@)),
        r matches Ok(bytes) ==> bytes@ == if existing_len == 0 {
            magic() + framed(views(payloads@))
        } else {
            framed(views(payloads@))
        },
        r matches Err(e) ==> e == SegmentError::RecordTooLarge,
{
    let mut out: Vec<u8> = Vec::new();
    if existing_len == 0 {
        push_magic(&mut out);
    }
    match push_records(&mut out, payloads) {
        Ok(()) => {
            proof {
                if existing_len == 0 {
                    assert(out@ =~= magic() + framed(views(payloads@)));
                } else {
                    assert(out@ =~= framed(views(payloads@)));
                }
            }
            Ok(out)
        },
        Err(e) => Err(e),
    }
}

/// Whether `bytes` starts with the magic.
pub fn starts_with_magic(bytes: &[u8]) -> (r: bool)
    ensures
        r == is_binary(bytes@),
{
    if bytes.len() < 5 {
        return false;
    }
    let r = bytes[0] == 0x41u8 && bytes[1] == 0x34u8 && bytes[2] == 0x44u8 && bytes[3] == 0x31u8
        && bytes[4] == 0x01u8;
    proof {
        if r {
            assert(bytes@.take(5) =~= magic());
        } else {
            assert(bytes@.take(5)[0] == bytes@[0]);
            assert(bytes@.take(5)[1] == bytes@[1]);
            assert(bytes@.take(5)[2] == bytes@[2]);
            assert(bytes@.take(5)[3] == bytes@[3]);
            assert(bytes@.take(5)[4] == bytes@[4]);
        }
    }
    r
}

/// The payloads of the records in `bytes` from `start` on.
fn read_frames(bytes: &[u8], start: usize) -> (r: Result<Vec<Vec<u8>>, SegmentError>)
    requires
        start <= bytes@.len(),
    ensures
        r is Ok <==> frames(bytes@.skip(start as int)) is Some,
        r matches Ok(v) ==> frames(bytes@.skip(start as int)) == Some(views(v@)),
        r matches Err(e) ==> e == SegmentError::Truncated,
{
    let ghost body = bytes@.skip(start as int);
    let n = bytes.len();
    let mut out: Vec<Vec<u8>> = Vec::new();
    let mut pos: usize = start;
    proof {
        assert(views(out@) =~= Seq::<Seq<u8>>::empty());
        match frames(bytes@.skip(pos as int)) {
            Some(rest) => {
                assert(views(out@) + rest =~= rest);
            },
            None => {},
        }
    }
    while n - pos >= 4
        invariant
            start <= pos <= n,
            n == bytes@.len(),
            body == bytes@.skip(start as int),
            frames(body) == match frames(bytes@.skip(pos as int)) {
                Some(rest) => Some(views(out@) + rest),
                None => None,
            },
        decreases n - pos,
    {
        let ghost here = bytes@.skip(pos as int);
        let len: u64 = (bytes[pos] as u64) + 256 * (bytes[pos + 1] as u64) + 65536 * (bytes[pos
            + 2] as u64) + 16777216 * (bytes[pos + 3] as u64);
        proof {
            assert(here.take(4)[0] == bytes@[pos as int]);
            assert(here.take(4)[1] == bytes@[pos + 1]);
            assert(here.take(4)[2] == bytes@[pos + 2]);
            assert(here.take(4)[3] == bytes@[pos + 3]);
            assert(len == le_u32(here.take(4)));
        }
        if ((n - pos - 4) as u64) < len {
            return Err(SegmentError::Truncated);
        }
        let from: usize = pos + 4;
        let to: usize = from + (len as usize);
        let payload = slice_to_vec(slice_subrange(bytes, from, to));
        proof {
            assert(payload@ =~= here.subrange(4, 4 + len));
            assert(here.skip(4 + len) =~= bytes@.skip(to as int));
            match frames(bytes@.skip(to as int)) {
                Some(rest) => {
                    assert(views(out@.push(payload)) =~= views(out@).push(payload@));
                    assert(views(out@) + (seq![payload@] + rest) =~= views(out@).push(payload@)
                        + rest);
                },
                None => {},
            }
        }
        out.push(payload);
        pos = to;
    }
    proof {
        assert(frames(bytes@.skip(pos as int)) == Some(Seq::<Seq<u8>>::empty()));
        assert(views(out@) + Seq::<Seq<u8>>::empty() =~= views(out@));
    }
    Ok(out)
}

/// The lines of a text.
fn read_lines(bytes: &[u8]) -> (v: Vec<Vec<u8>>)
    ensures
        views(v@) == lines(bytes@),
{
    let n = bytes.len();
    let mut out: Vec<Vec<u8>> = Vec::new();
    let mut start: usize = 0;
    let mut i: usize = 0;
    proof {
        assert(bytes@.skip(0) =~= bytes@);
        assert(views(out@) + lines(bytes@) =~= lines(bytes@));
    }
    while i < n
        invariant
            start <= i <= n,
            n == bytes@.len(),
            forall|j: int| start <= j < i ==> bytes@[j] != 10u8,
            lines(bytes@) == views(out@) + lines(bytes@.skip(start as int)),
        decreases n - i,
    {
        if bytes[i] == 10u8 {
            let ghost here = bytes@.skip(start as int);
            let end: usize = if i > start && bytes[i - 1] == 13u8 {
                i - 1
            } else {
                i
            };
            let line = slice_to_vec(slice_subrange(bytes, start, end));
            proof {
                lemma_line_len(here, i - start);
                assert(here.take(i - start) =~= bytes@.subrange(start as int, i as int));
                assert(line@ =~= strip_cr(here.take(i - start)));
                assert(here.skip(i - start + 1) =~= bytes@.skip(i + 1));
                assert(views(out@.push(line)) =~= views(out@).push(line@));
                assert(views(out@) + (seq![line@] + lines(bytes@.skip(i + 1))) =~= views(
                    out@,
                ).push(line@) + lines(bytes@.skip(i + 1)));
            }
            out.push(line);
            start = i + 1;
        }
        i += 1;
    }
    if start < n {
        let ghost here = bytes@.skip(start as int);
        let line = slice_to_vec(slice_subrange(bytes, start, n));
        proof {
            lemma_line_len(here, n - start);
            assert(line@ =~= here);
            assert(views(out@.push(line)) =~= views(out@).push(line@));
            assert(views(out@) + seq![here] =~= views(out@).push(line@));
        }
        out.push(line);
    } else {
        proof {
            assert(bytes@.skip(start as int).len() == 0);
            assert(views(out@) + Seq::<Seq<u8>>::empty() =~= views(out@));
        }
    }
    out
}

/// Reads a whole segment file. A file that starts with the magic is in the
/// current format and gives its payloads; a record that announces more
/// bytes than the file has left fails the read as a whole, and nothing of
/// the file is returned. Any other file gives its lines.
pub fn read_segment(bytes: &[u8]) -> (r: Result<SegmentData, SegmentError>)
    ensures
        match segment_content(bytes@) {
            Ok((true, p)) => r matches Ok(SegmentData::Binary(v)) && views(v@) == p,
            Ok((false, l)) => r matches Ok(SegmentData::Legacy(v)) && views(v@) == l,
            Err(e) => r == Err::<SegmentData, SegmentError>(e),
        },
{
    if starts_with_magic(bytes) {
        match read_frames(bytes, 5) {
            Ok(v) => Ok(SegmentData::Binary(v)),
            Err(e) => Err(e),
        }
    } else {
        Ok(SegmentData::Legacy(read_lines(bytes)))
    }
}

} // verus!
