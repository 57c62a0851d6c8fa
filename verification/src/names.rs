//! Segment file names.
//!
//! The segment of a partition is named by the decimal cell index, an
//! underscore and the decimal bin start, with the extension `seg` for the
//! current format and `jsonl` for the legacy one. Names are read back the
//! other way for the inventory, where any file name may turn up.

use crate::segment::SegmentKind;
use vstd::prelude::*;
use vstd::string::*;

verus! {

/// The character of a decimal digit.
pub open spec fn digit_char(d: int) -> char {
    seq!['0', '1', '2', '3', '4', '5', '6', '7', '8', '9'][d]
}

/// Whether `c` is a decimal digit.
pub open spec fn is_digit(c: char) -> bool {
    '0' <= c <= '9'
}

/// The value of a decimal digit.
pub open spec fn digit_value(c: char) -> int {
    c as int - '0' as int
}

/// A natural number in decimal, without leading zeros.
pub open spec fn decimal(n: nat) -> Seq<char>
    decreases n,
{
    if n < 10 {
        seq![digit_char(n as int)]
    } else {
        decimal(n / 10).push(digit_char((n % 10) as int))
    }
}

/// An integer in decimal, with a minus sign where it is negative.
pub open spec fn signed_decimal(i: int) -> Seq<char> {
    if i < 0 {
        seq!['-'] + decimal((-i) as nat)
    } else {
        decimal(i as nat)
    }
}

/// The extension of a segment file of the given format, without the dot.
pub open spec fn extension_of(kind: SegmentKind) -> Seq<char> {
    match kind {
        SegmentKind::Current => seq!['s', 'e', 'g'],
        SegmentKind::Legacy => seq!['j', 's', 'o', 'n', 'l'],
    }
}

/// The name of the segment file of a partition.
pub open spec fn file_name(cell: u64, bin: i64, kind: SegmentKind) -> Seq<char> {
    decimal(cell as nat) + seq!['_'] + signed_decimal(bin as int) + seq!['.'] + extension_of(kind)
}

/// The number that a string of decimal digits stands for; `None` where the
/// string is empty or holds anything but digits.
pub open spec fn digits_value(s: Seq<char>) -> Option<nat>
    decreases s.len(),
{
    if s.len() == 0 || !is_digit(s.last()) {
        None
    } else if s.len() == 1 {
        Some(digit_value(s.last()) as nat)
    } else {
        match digits_value(s.drop_last()) {
            Some(v) => Some((10 * v + digit_value(s.last())) as nat),
            None => None,
        }
    }
}

/// The 64-bit signed integer that a string stands for: an optional sign
/// and then decimal digits, at least one. `None` for any other string and
/// for a number that 64 bits do not hold.
pub open spec fn parse_i64(s: Seq<char>) -> Option<i64> {
    if s.len() > 0 && s[0] == '-' {
        match digits_value(s.skip(1)) {
            Some(v) => if v <= 0x8000_0000_0000_0000 {
                Some((-(v as int)) as i64)
            } else {
                None
            },
            None => None,
        }
    } else {
        let digits = if s.len() > 0 && s[0] == '+' {
            s.skip(1)
        } else {
            s
        };
        match digits_value(digits) {
            Some(v) => if v <= 0x7fff_ffff_ffff_ffff {
                Some(v as i64)
            } else {
                None
            },
            None => None,
        }
    }
}

/// The place of the first `c` in `s`, or the length of `s` where there is
/// none.
pub open spec fn index_of(s: Seq<char>, c: char) -> nat
    decreases s.len(),
{
    if s.len() == 0 || s[0] == c {
        0
    } else {
        1 + index_of(s.skip(1), c)
    }
}

/// The place of the last `c` in `s`, or -1 where there is none.
pub open spec fn last_index_of(s: Seq<char>, c: char) -> int
    decreases s.len(),
{
    if s.len() == 0 {
        -1
    } else if s.last() == c {
        s.len() - 1
    } else {
        last_index_of(s.drop_last(), c)
    }
}

/// A file name without its extension: what stands before the last dot.
/// A name without a dot, or with its only dot in front, is its own stem.
pub open spec fn stem(name: Seq<char>) -> Seq<char> {
    let d = last_index_of(name, '.');
    if d <= 0 {
        name
    } else {
        name.take(d)
    }
}

/// The extension of a file name: what stands behind the last dot. A name
/// without a dot, or with its only dot in front, has none.
pub open spec fn extension(name: Seq<char>) -> Option<Seq<char>> {
    let d = last_index_of(name, '.');
    if d <= 0 {
        None
    } else {
        Some(name.skip(d + 1))
    }
}

/// Whether a file name has an extension of a segment, current or legacy:
/// such files are compacted.
pub open spec fn is_segment_name(name: Seq<char>) -> bool {
    extension(name) == Some(extension_of(SegmentKind::Current)) || extension(name) == Some(
        extension_of(SegmentKind::Legacy),
    )
}

/// The first token of a stem: what stands before its first underscore.
pub open spec fn first_token(stem: Seq<char>) -> Seq<char> {
    stem.take(index_of(stem, '_') as int)
}

/// The second token of a stem with an underscore: what stands between
/// its first underscore and its second, or its end.
pub open spec fn second_token(stem: Seq<char>) -> Seq<char> {
    let rest = stem.skip(index_of(stem, '_') as int + 1);
    rest.take(index_of(rest, '_') as int)
}

/// The cell label that a file name shows: the first token of its stem,
/// and `?` where the stem has no underscore.
pub open spec fn label_of(name: Seq<char>) -> Seq<char> {
    if index_of(stem(name), '_') < stem(name).len() {
        first_token(stem(name))
    } else {
        seq!['?']
    }
}

/// The bin start that a file name shows: the second token of its stem
/// read as a 64-bit integer, and 0 where the stem has no underscore or
/// the token is no such integer.
pub open spec fn bin_of(name: Seq<char>) -> i64 {
    if index_of(stem(name), '_') < stem(name).len() {
        match parse_i64(second_token(stem(name))) {
            Some(b) => b,
            None => 0,
        }
    } else {
        0
    }
}

/// Whether a file name has the extension of the current format.
pub open spec fn is_current_name(name: Seq<char>) -> bool {
    extension(name) == Some(extension_of(SegmentKind::Current))
}

/// The name of the temporary file through which a segment is rewritten:
/// the stem of the segment's name and `.seg.tmp`.
pub open spec fn temp_name(name: Seq<char>) -> Seq<char> {
    stem(name) + seq!['.', 's', 'e', 'g', '.', 't', 'm', 'p']
}

// What the specifications above say of names that this crate makes.

/// A number in decimal is digits only, at least one.
pub proof fn lemma_decimal_digits(n: nat)
    ensures
        decimal(n).len() >= 1,
        forall|i: int| 0 <= i < decimal(n).len() ==> is_digit(#[trigger] decimal(n)[i]),
        digits_value(decimal(n)) == Some(n),
    decreases n,
{
    if n >= 10 {
        lemma_decimal_digits(n / 10);
        let d = decimal(n);
        assert(d.drop_last() =~= decimal(n / 10));
        assert(d.last() == digit_char((n % 10) as int));
        assert(digit_value(d.last()) == n % 10);
    } else {
        assert(digit_value(digit_char(n as int)) == n);
    }
}

/// A 64-bit integer written in decimal reads back as itself.
pub proof fn lemma_parse_signed_decimal(b: i64)
    ensures
        parse_i64(signed_decimal(b as int)) == Some(b),
{
    let s = signed_decimal(b as int);
    if b < 0 {
        let m = (-(b as int)) as nat;
        lemma_decimal_digits(m);
        assert(s.skip(1) =~= decimal(m));
    } else {
        lemma_decimal_digits(b as nat);
        assert(is_digit(s[0]));
    }
}

/// Where `c` first stands in a string.
pub proof fn lemma_index_of(s: Seq<char>, c: char, k: int)
    requires
        0 <= k <= s.len(),
        forall|j: int| 0 <= j < k ==> s[j] != c,
        k == s.len() || s[k] == c,
    ensures
        index_of(s, c) == k,
    decreases k,
{
    if k > 0 {
        let t = s.skip(1);
        assert forall|j: int| 0 <= j < k - 1 implies t[j] != c by {
            assert(t[j] == s[j + 1]);
        }
        lemma_index_of(t, c, k - 1);
    }
}

/// Where `c` last stands in a string.
pub proof fn lemma_last_index_of(s: Seq<char>, c: char, k: int)
    requires
        -1 <= k < s.len(),
        forall|j: int| k < j < s.len() ==> s[j] != c,
        k == -1 || s[k] == c,
    ensures
        last_index_of(s, c) == k,
    decreases s.len(),
{
    if s.len() > 0 && k < s.len() - 1 {
        let t = s.drop_last();
        lemma_last_index_of(t, c, k);
    }
}

/// A signed decimal holds neither a dot nor an underscore.
proof fn lemma_signed_decimal_plain(i: int)
    ensures
        signed_decimal(i).len() >= 1,
        forall|j: int|
            0 <= j < signed_decimal(i).len() ==> (#[trigger] signed_decimal(i)[j]) != '.'
                && signed_decimal(i)[j] != '_',
{
    if i < 0 {
        lemma_decimal_digits((-i) as nat);
        let d = decimal((-i) as nat);
        assert forall|j: int| 0 <= j < signed_decimal(i).len() implies (#[trigger] signed_decimal(
            i,
        )[j]) != '.' && signed_decimal(i)[j] != '_' by {
            if j > 0 {
                assert(signed_decimal(i)[j] == d[j - 1]);
                assert(is_digit(d[j - 1]));
            }
        }
    } else {
        lemma_decimal_digits(i as nat);
    }
}

/// The name that this crate gives the segment of a partition shows the
/// partition again: the label is the cell in decimal, the bin is the bin,
/// and the extension tells the format.
pub proof fn lemma_file_name_decodes(cell: u64, bin: i64, kind: SegmentKind)
    ensures
        label_of(file_name(cell, bin, kind)) == decimal(cell as nat),
        bin_of(file_name(cell, bin, kind)) == bin,
        is_current_name(file_name(cell, bin, kind)) == (kind == SegmentKind::Current),
        is_segment_name(file_name(cell, bin, kind)),
        stem(file_name(cell, bin, kind)) == decimal(cell as nat) + seq!['_'] + signed_decimal(
            bin as int,
        ),
{
    let c = decimal(cell as nat);
    let b = signed_decimal(bin as int);
    let e = extension_of(kind);
    let name = file_name(cell, bin, kind);
    let st = c + seq!['_'] + b;
    lemma_decimal_digits(cell as nat);
    lemma_signed_decimal_plain(bin as int);
    lemma_parse_signed_decimal(bin);
    let d = st.len() as int;
    assert(name =~= st + seq!['.'] + e);
    assert(name[d] == '.');
    assert forall|j: int| d < j < name.len() implies name[j] != '.' by {
        assert(name[j] == e[j - d - 1]);
    }
    lemma_last_index_of(name, '.', d);
    assert(name.take(d) =~= st);
    assert(name.skip(d + 1) =~= e);
    assert(stem(name) == st);
    assert(extension(name) == Some(e));
    assert(extension_of(SegmentKind::Current) != extension_of(SegmentKind::Legacy)) by {
        assert(extension_of(SegmentKind::Current).len() == 3);
        assert(extension_of(SegmentKind::Legacy).len() == 5);
    }
    let u = c.len() as int;
    assert(st[u] == '_');
    assert forall|j: int| 0 <= j < u implies st[j] != '_' by {
        assert(st[j] == c[j]);
        assert(is_digit(c[j]));
    }
    lemma_index_of(st, '_', u);
    assert(st.take(u) =~= c);
    let rest = st.skip(u + 1);
    assert(rest =~= b);
    assert forall|j: int| 0 <= j < b.len() implies b[j] != '_' by {
        assert(signed_decimal(bin as int)[j] != '_');
    }
    lemma_index_of(rest, '_', b.len() as int);
    assert(rest.take(b.len() as int) =~= b);
}

/// The temporary file of a rewrite has not the name of a segment: while
/// it is written, no reader takes it for one.
pub proof fn lemma_temp_name_is_no_segment(name: Seq<char>)
    ensures
        !is_segment_name(temp_name(name)),
        extension(temp_name(name)) == Some(seq!['t', 'm', 'p']),
{
    let st = stem(name);
    let suffix = seq!['.', 's', 'e', 'g', '.', 't', 'm', 'p'];
    let tmp = temp_name(name);
    let d = st.len() as int + 4;
    assert(tmp[d] == suffix[4]);
    assert forall|j: int| d < j < tmp.len() implies tmp[j] != '.' by {
        assert(tmp[j] == suffix[j - st.len()]);
    }
    lemma_last_index_of(tmp, '.', d);
    assert(tmp.skip(d + 1) =~= seq!['t', 'm', 'p']);
    assert(seq!['t', 'm', 'p'][0] == 't');
    assert(extension_of(SegmentKind::Current)[0] == 's');
    assert(extension_of(SegmentKind::Legacy)[0] == 'j');
}

// Making names.

/// Appends `n` in decimal to `out`.
fn push_decimal(out: &mut String, n: u64)
    ensures
        final(out)@ == old(out)@ + decimal(n as nat),
    decreases n,
{
    if n >= 10 {
        push_decimal(out, n / 10);
    }
    let ghost before = out@;
    let d = (n % 10) as usize;
    let digits = "0123456789";
    proof {
        reveal_strlit("0123456789");
    }
    let piece = digits.substring_char(d, d + 1);
    out.append(piece);
    proof {
        assert(piece@ =~= seq![digit_char(d as int)]);
        assert(out@ =~= old(out)@ + decimal(n as nat));
    }
}

/// The name of the segment file of the partition of `cell` and `bin` in
/// the given format.
pub fn segment_file_name(cell: u64, bin: i64, kind: SegmentKind) -> (name: String)
    ensures
        name@ == file_name(cell, bin, kind),
{
    let mut out = String::new();
    push_decimal(&mut out, cell);
    out.append("_");
    proof {
        reveal_strlit("_");
        assert(out@ =~= decimal(cell as nat) + seq!['_']);
    }
    if bin < 0 {
        out.append("-");
        let magnitude: u64 = (-(bin as i128)) as u64;
        push_decimal(&mut out, magnitude);
        proof {
            reveal_strlit("-");
            assert(out@ =~= decimal(cell as nat) + seq!['_'] + signed_decimal(bin as int));
        }
    } else {
        push_decimal(&mut out, bin as u64);
        proof {
            assert(out@ =~= decimal(cell as nat) + seq!['_'] + signed_decimal(bin as int));
        }
    }
    match kind {
        SegmentKind::Current => {
            out.append(".seg");
            proof {
                reveal_strlit(".seg");
                assert(out@ =~= file_name(cell, bin, kind));
            }
        },
        SegmentKind::Legacy => {
            out.append(".jsonl");
            proof {
                reveal_strlit(".jsonl");
                assert(out@ =~= file_name(cell, bin, kind));
            }
        },
    }
    out
}

// Reading names.

/// The characters of a string.
fn chars_of(s: &str) -> (v: Vec<char>)
    ensures
        v@ == s@,
{
    let n = s.unicode_len();
    let mut v: Vec<char> = Vec::new();
    let mut i: usize = 0;
    while i < n
        invariant
            i <= n,
            n == s@.len(),
            v@ == s@.take(i as int),
        decreases n - i,
    {
        v.push(s.get_char(i));
        proof {
            assert(v@ =~= s@.take(i + 1));
        }
        i += 1;
    }
    proof {
        assert(s@.take(n as int) =~= s@);
    }
    v
}

/// The place of the first `c` in `s` from `from` on, or the length of `s`.
fn find_from(s: &Vec<char>, from: usize, c: char) -> (k: usize)
    requires
        from <= s@.len(),
    ensures
        from <= k <= s@.len(),
        k == from + index_of(s@.skip(from as int), c),
{
    let mut k = from;
    while k < s.len() && s[k] != c
        invariant
            from <= k <= s@.len(),
            forall|j: int| from <= j < k ==> s@[j] != c,
        decreases s@.len() - k,
    {
        k += 1;
    }
    proof {
        lemma_index_of(s@.skip(from as int), c, k - from);
    }
    k
}

/// The place of the last dot of `s`, or `None` where there is none.
fn find_last_dot(s: &Vec<char>) -> (r: Option<usize>)
    ensures
        match r {
            Some(k) => k == last_index_of(s@, '.') && k < s@.len(),
            None => last_index_of(s@, '.') == -1,
        },
{
    let mut k = s.len();
    while k > 0 && s[k - 1] != '.'
        invariant
            k <= s@.len(),
            forall|j: int| k <= j < s@.len() ==> s@[j] != '.',
        decreases k,
    {
        k -= 1;
    }
    proof {
        lemma_last_index_of(s@, '.', k - 1);
    }
    if k == 0 {
        None
    } else {
        Some(k - 1)
    }
}

/// The length of the stem of a name.
fn stem_len(s: &Vec<char>) -> (n: usize)
    ensures
        n <= s@.len(),
        stem(s@) == s@.take(n as int),
        extension(s@) == if n < s@.len() {
            Some(s@.skip(n + 1))
        } else {
            None::<Seq<char>>
        },
{
    proof {
        assert(s@.take(s@.len() as int) =~= s@);
    }
    match find_last_dot(s) {
        Some(d) => if d == 0 {
            s.len()
        } else {
            d
        },
        None => s.len(),
    }
}

/// Whether `s` from `from` on is exactly `word`.
fn tail_is(s: &Vec<char>, from: usize, word: &str) -> (r: bool)
    requires
        from <= s@.len(),
    ensures
        r == (s@.skip(from as int) == word@),
{
    let w = chars_of(word);
    let n = s.len();
    if n - from != w.len() {
        return false;
    }
    let mut i: usize = 0;
    while i < w.len()
        invariant
            i <= w.len(),
            n == s@.len(),
            from <= n,
            n - from == w@.len(),
            w@ == word@,
            forall|j: int| 0 <= j < i ==> s@[from + j] == w@[j],
        decreases w.len() - i,
    {
        if s[from + i] != w[i] {
            proof {
                assert(s@.skip(from as int)[i as int] == s@[from + i]);
            }
            return false;
        }
        i += 1;
    }
    proof {
        assert(s@.skip(from as int) =~= w@);
    }
    true
}

/// Reads decimal digits as a number up to `limit`.
fn read_digits(s: &Vec<char>, from: usize, to: usize, limit: u64) -> (r: Option<u64>)
    requires
        from <= to <= s@.len(),
        limit <= 0x8000_0000_0000_0000,
    ensures
        r == match digits_value(s@.subrange(from as int, to as int)) {
            Some(v) => if v <= limit {
                Some(v as u64)
            } else {
                None
            },
            None => None,
        },
{
    let ghost all = s@.subrange(from as int, to as int);
    if from == to {
        return None;
    }
    let mut acc: u64 = 0;
    let mut over = false;
    let mut i = from;
    while i < to
        invariant
            from <= i <= to <= s@.len(),
            from < to,
            all == s@.subrange(from as int, to as int),
            limit <= 0x8000_0000_0000_0000,
            acc <= limit,
            i == from ==> acc == 0 && !over,
            i > from ==> match digits_value(all.take(i - from)) {
                Some(v) => if over {
                    v > limit
                } else {
                    v == acc
                },
                None => false,
            },
        decreases to - i,
    {
        let c = s[i];
        let ghost done = all.take(i - from);
        let ghost next = all.take(i + 1 - from);
        proof {
            assert(next.drop_last() =~= done);
            assert(next.last() == c);
        }
        if c < '0' || c > '9' {
            proof {
                lemma_digits_prefix(all, i + 1 - from);
            }
            return None;
        }
        let d: u64 = (c as u8 - '0' as u8) as u64;
        assert(d == digit_value(c));
        if !over {
            let wide: u128 = (acc as u128) * 10 + (d as u128);
            if wide > limit as u128 {
                over = true;
            } else {
                acc = wide as u64;
            }
        }
        i += 1;
    }
    proof {
        assert(all.take(to - from) =~= all);
    }
    if over {
        None
    } else {
        Some(acc)
    }
}

/// A string with a prefix that is no number is no number.
proof fn lemma_digits_prefix(s: Seq<char>, k: int)
    requires
        0 < k <= s.len(),
        digits_value(s.take(k)) is None,
    ensures
        digits_value(s) is None,
    decreases s.len() - k,
{
    if k < s.len() {
        assert(s.take(k + 1).drop_last() =~= s.take(k));
        lemma_digits_prefix(s, k + 1);
    } else {
        assert(s.take(k) =~= s);
    }
}

/// Reads an optional sign and decimal digits as a 64-bit integer.
fn read_i64(s: &Vec<char>, from: usize, to: usize) -> (r: Option<i64>)
    requires
        from <= to <= s@.len(),
    ensures
        r == parse_i64(s@.subrange(from as int, to as int)),
{
    let ghost all = s@.subrange(from as int, to as int);
    if from < to && s[from] == '-' {
        proof {
            assert(all.skip(1) =~= s@.subrange(from + 1, to as int));
        }
        match read_digits(s, from + 1, to, 0x8000_0000_0000_0000) {
            Some(v) => Some((-(v as i128)) as i64),
            None => None,
        }
    } else if from < to && s[from] == '+' {
        proof {
            assert(all.skip(1) =~= s@.subrange(from + 1, to as int));
        }
        match read_digits(s, from + 1, to, 0x7fff_ffff_ffff_ffff) {
            Some(v) => Some(v as i64),
            None => None,
        }
    } else {
        match read_digits(s, from, to, 0x7fff_ffff_ffff_ffff) {
            Some(v) => Some(v as i64),
            None => None,
        }
    }
}

/// What a file name shows of a segment.
#[derive(Clone, Debug, PartialEq, Eq)]
pub struct DecodedName {
    /// The cell label, or `?`.
    pub cell: String,
    /// The bin start, or 0.
    pub time_bin: i64,
    /// Whether the extension is that of the current format.
    pub binary: bool,
}

/// Reads the cell label, the bin start and the format off a file name.
/// The label is the first token of the stem and the bin the second, the
/// tokens being parted by underscores; a stem without an underscore gives
/// `?` and 0, and a second token that is no 64-bit integer gives 0. The
/// format is the current one for the extension `seg` and for no other.
pub fn decode_name(name: &str) -> (d: DecodedName)
    ensures
        d.cell@ == label_of(name@),
        d.time_bin == bin_of(name@),
        d.binary == is_current_name(name@),
{
    let s = chars_of(name);
    let n = stem_len(&s);
    let binary = n < s.len() && tail_is(&s, n + 1, "seg");
    proof {
        reveal_strlit("seg");
        assert("seg"@ =~= extension_of(SegmentKind::Current));
    }
    let ghost st = s@.take(n as int);
    let u = find_from(&s, 0, '_');
    proof {
        assert(s@.skip(0) =~= s@);
        if u < n {
            assert forall|j: int| 0 <= j < u implies st[j] != '_' by {
                lemma_index_of_bounds(s@, '_', j);
            }
            lemma_index_of_bounds(s@, '_', u as int);
            lemma_index_of(st, '_', u as int);
        } else {
            assert forall|j: int| 0 <= j < n implies st[j] != '_' by {
                lemma_index_of_bounds(s@, '_', j);
            }
            lemma_index_of(st, '_', n as int);
        }
    }
    if u >= n {
        proof {
            reveal_strlit("?");
        }
        return DecodedName { cell: String::from_str("?"), time_bin: 0, binary };
    }
    let cell = String::from_str(name.substring_char(0, u));
    let mut v = u + 1;
    while v < n && s[v] != '_'
        invariant
            u < v <= n <= s@.len(),
            forall|j: int| u < j < v ==> s@[j] != '_',
        decreases n - v,
    {
        v += 1;
    }
    proof {
        let rest = st.skip(u + 1);
        assert forall|j: int| 0 <= j < v - u - 1 implies rest[j] != '_' by {
            assert(rest[j] == s@[u + 1 + j]);
        }
        lemma_index_of(rest, '_', v - u - 1);
        assert(rest.take(v - u - 1) =~= s@.subrange(u + 1, v as int));
        assert(st.take(u as int) =~= s@.subrange(0, u as int));
    }
    let time_bin = match read_i64(&s, u + 1, v) {
        Some(b) => b,
        None => 0,
    };
    DecodedName { cell, time_bin, binary }
}

/// Before the first `c` of a string there is no `c`, and at that place
/// there is one.
proof fn lemma_index_of_bounds(s: Seq<char>, c: char, j: int)
    requires
        0 <= j < s.len(),
    ensures
        index_of(s, c) <= s.len(),
        j < index_of(s, c) ==> s[j] != c,
        j == index_of(s, c) ==> s[j] == c,
    decreases s.len(),
{
    if s[0] != c {
        let t = s.skip(1);
        if j > 0 {
            lemma_index_of_bounds(t, c, j - 1);
            assert(t[j - 1] == s[j]);
        } else if t.len() > 0 {
            lemma_index_of_bounds(t, c, 0);
        }
    }
}

/// Whether a file of this name is compacted: its extension is `seg` or
/// `jsonl`.
pub fn is_segment_file(name: &str) -> (r: bool)
    ensures
        r == is_segment_name(name@),
{
    let s = chars_of(name);
    let n = stem_len(&s);
    proof {
        reveal_strlit("seg");
        reveal_strlit("jsonl");
        assert("seg"@ =~= extension_of(SegmentKind::Current));
        assert("jsonl"@ =~= extension_of(SegmentKind::Legacy));
    }
    n < s.len() && (tail_is(&s, n + 1, "seg") || tail_is(&s, n + 1, "jsonl"))
}

/// The name of the temporary file through which the segment `name` is
/// rewritten.
pub fn temp_file_name(name: &str) -> (tmp: String)
    ensures
        tmp@ == temp_name(name@),
{
    let s = chars_of(name);
    let n = stem_len(&s);
    let mut out = String::from_str(name.substring_char(0, n));
    out.append(".seg.tmp");
    proof {
        reveal_strlit(".seg.tmp");
        assert(s@.subrange(0, n as int) =~= s@.take(n as int));
        assert(out@ =~= temp_name(name@));
    }
    out
}

} // verus!
