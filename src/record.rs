//! The record reader: from a byte offset into the corpus to the line that the
//! offset stands for, and that line's key.
use vstd::prelude::*;

verus! {

/// Line feed, which ends a line.
pub const LF: u8 = 10;

/// Carriage return, tolerated before a line feed.
pub const CR: u8 = 13;

/// The separator between a key and the rest of its line.
pub const COLON: u8 = 58;

/// The index of the first `b` in `s` at or after `i`, or `s.len()` if none.
pub open spec fn find_from(s: Seq<u8>, b: u8, i: int) -> int
    decreases s.len() - i,
{
    if i >= s.len() {
        s.len() as int
    } else if s[i] == b {
        i
    } else {
        find_from(s, b, i + 1)
    }
}

/// A line starts at `s`: the first byte of the data, or one right after a line
/// feed.
pub open spec fn is_line_start(data: Seq<u8>, s: int) -> bool {
    0 <= s < data.len() && (s == 0 || data[s - 1] == LF)
}

/// The offset right after the line feed that ends the line through `p`, or the
/// end of the data when no line feed follows.
pub open spec fn next_line(data: Seq<u8>, p: int) -> int {
    let e = find_from(data, LF, p);
    if e < data.len() {
        e + 1
    } else {
        data.len() as int
    }
}

/// What one read of a line from `p` yields: the bytes from `p` up to and
/// including the next line feed, or to the end of the data.
pub open spec fn segment(data: Seq<u8>, p: int) -> Seq<u8> {
    if p >= data.len() {
        Seq::empty()
    } else {
        data.subrange(p, next_line(data, p))
    }
}

/// The offset at which a read for offset `off` starts: the byte before it, so
/// that a line starting exactly at `off` is kept.
pub open spec fn read_origin(off: int) -> int {
    if off == 0 {
        0
    } else {
        off - 1
    }
}

/// The start of the canonical line at `off`: the smallest line start at or
/// after `off`, and the first line for offset zero. It is the length of the
/// data when no line starts there.
pub open spec fn canonical_start(data: Seq<u8>, off: int) -> int {
    if off == 0 {
        0
    } else {
        next_line(data, off - 1)
    }
}

/// A raw line without its terminator: one trailing line feed, then one
/// trailing carriage return, are dropped.
pub open spec fn trim_line(raw: Seq<u8>) -> Seq<u8> {
    let a = if raw.len() > 0 && raw.last() == LF {
        raw.drop_last()
    } else {
        raw
    };
    if a.len() > 0 && a.last() == CR {
        a.drop_last()
    } else {
        a
    }
}

/// The key of a line: its bytes before the first colon, the whole line when
/// it has none.
pub open spec fn key_of(line: Seq<u8>) -> Seq<u8> {
    line.subrange(0, find_from(line, COLON, 0))
}

/// The text of the line that starts at `s`.
pub open spec fn line_at(data: Seq<u8>, s: int) -> Seq<u8> {
    trim_line(segment(data, s))
}

/// The key of the line that starts at `s`.
pub open spec fn key_at(data: Seq<u8>, s: int) -> Seq<u8> {
    key_of(line_at(data, s))
}

/// `find_from` lies between `i` and the end, finds a `b` when it is not the
/// end, and skips no `b` on the way.
pub proof fn lemma_find_from(s: Seq<u8>, b: u8, i: int)
    requires
        0 <= i,
    ensures
        i <= find_from(s, b, i) || (i > s.len() && find_from(s, b, i) == s.len()),
        find_from(s, b, i) <= s.len(),
        find_from(s, b, i) < s.len() ==> s[find_from(s, b, i)] == b,
        forall|k: int| i <= k < find_from(s, b, i) ==> s[k] != b,
    decreases s.len() - i,
{
    if i < s.len() && s[i] != b {
        lemma_find_from(s, b, i + 1);
    }
}

/// Offset alignment: the canonical line at `off` starts at or after `off`, at
/// zero only for offset zero, right after a line feed otherwise, and no line
/// starts between `off` and it.
pub proof fn lemma_canonical_start(data: Seq<u8>, off: int)
    requires
        0 <= off <= data.len(),
    ensures
        off <= canonical_start(data, off) <= data.len(),
        canonical_start(data, off) == 0 <==> off == 0,
        canonical_start(data, off) < data.len() ==> is_line_start(data, canonical_start(data, off)),
        forall|s: int| off <= s < canonical_start(data, off) ==> !is_line_start(data, s),
{
    if off > 0 {
        lemma_find_from(data, LF, off - 1);
        let c = canonical_start(data, off);
        assert forall|s: int| off <= s < c implies !is_line_start(data, s) by {
            assert(off - 1 <= s - 1 < find_from(data, LF, off - 1));
        }
    }
}

/// The line after the one at `s` starts at `next_line(data, s)`: no line
/// starts in between.
pub proof fn lemma_next_line(data: Seq<u8>, s: int)
    requires
        0 <= s < data.len(),
    ensures
        s < next_line(data, s) <= data.len(),
        forall|t: int| s < t < next_line(data, s) ==> !is_line_start(data, t),
        next_line(data, s) < data.len() ==> is_line_start(data, next_line(data, s)),
{
    lemma_find_from(data, LF, s);
    assert forall|t: int| s < t < next_line(data, s) implies !is_line_start(data, t) by {
        assert(s <= t - 1 < find_from(data, LF, s));
    }
}

/// `find_from` is the first `b` at or after `i`.
pub proof fn lemma_find_from_is(s: Seq<u8>, b: u8, i: int, j: int)
    requires
        0 <= i <= j <= s.len(),
        j == s.len() || s[j] == b,
        forall|k: int| i <= k < j ==> s[k] != b,
    ensures
        find_from(s, b, i) == j,
    decreases j - i,
{
    if i < j {
        lemma_find_from_is(s, b, i + 1, j);
    }
}

/// One line of the corpus, as the reader found it for an offset.
pub struct Record {
    /// The offset that was asked for.
    pub offset: u64,
    /// Where the line starts.
    pub start: u64,
    /// The offset right after the line's terminator.
    pub next_off: u64,
    /// The line without its terminator.
    pub line: Vec<u8>,
    /// The line's bytes before its first colon.
    pub key: Vec<u8>,
}

/// Where the line that a read for `off` keeps starts, given the first
/// segment read: the first segment itself for offset zero, else the one after
/// the skipped segment.
pub open spec fn kept_start(off: int, first: Seq<u8>) -> int {
    if off == 0 {
        0
    } else {
        off - 1 + first.len()
    }
}

/// The kept line among the two segments read for `off`: the first segment
/// for offset zero; else the second, provided the skipped first segment ended
/// with a line feed. Empty when the read ran past the end.
pub open spec fn kept_raw(off: int, first: Seq<u8>, second: Seq<u8>) -> Seq<u8> {
    if off == 0 {
        first
    } else if first.len() > 0 && first.last() == LF {
        second
    } else {
        Seq::empty()
    }
}

/// The offset at which the reads for offset `off` start.
pub fn origin_for(off: u64) -> (r: u64)
    ensures
        r == read_origin(off as int),
{
    if off == 0 {
        0
    } else {
        off - 1
    }
}

/// The index of the first `b` in `s`, or its length.
fn index_of(s: &[u8], b: u8) -> (r: usize)
    ensures
        r == find_from(s@, b, 0),
        r <= s@.len(),
{
    let mut i: usize = 0;
    while i < s.len() && s[i] != b
        invariant
            0 <= i <= s@.len(),
            forall|k: int| 0 <= k < i ==> s@[k] != b,
        decreases s@.len() - i,
    {
        i = i + 1;
    }
    proof {
        lemma_find_from_is(s@, b, 0, i as int);
    }
    i
}

/// A copy of `s[from..to]`.
pub fn copy_range(s: &[u8], from: usize, to: usize) -> (r: Vec<u8>)
    requires
        from <= to <= s@.len(),
    ensures
        r@ == s@.subrange(from as int, to as int),
{
    let mut r: Vec<u8> = Vec::new();
    let mut i: usize = from;
    while i < to
        invariant
            from <= i <= to <= s@.len(),
            r@ == s@.subrange(from as int, i as int),
        decreases to - i,
    {
        r.push(s[i]);
        i = i + 1;
        assert(r@ =~= s@.subrange(from as int, i as int));
    }
    r
}

/// The length of `raw` without its terminator.
fn trimmed_len(raw: &[u8]) -> (r: usize)
    ensures
        r <= raw@.len(),
        trim_line(raw@) == raw@.subrange(0, r as int),
{
    let mut n = raw.len();
    if n > 0 && raw[n - 1] == LF {
        n = n - 1;
    }
    if n > 0 && raw[n - 1] == CR {
        n = n - 1;
    }
    assert(trim_line(raw@) =~= raw@.subrange(0, n as int));
    n
}

/// Builds the record for offset `off` from the two segments read from
/// `read_origin(off)`: for offset zero the first segment is the line; for any
/// other offset the first segment is the rest of the line through `off - 1`,
/// which is skipped, and the second is the line. `None` when that line is
/// empty, that is, when the read ran past the end of the data.
pub fn from_segments(off: u64, first: &[u8], second: &[u8]) -> (r: Option<Record>)
    requires
        off + first@.len() + second@.len() <= u64::MAX,
    ensures
        match r {
            None => kept_raw(off as int, first@, second@).len() == 0,
            Some(rec) => {
                let raw = kept_raw(off as int, first@, second@);
                &&& raw.len() > 0
                &&& rec.offset == off
                &&& off <= rec.start < rec.next_off
                &&& rec.start == kept_start(off as int, first@)
                &&& rec.next_off == rec.start + raw.len()
                &&& rec.line@ == trim_line(raw)
                &&& rec.key@ == key_of(rec.line@)
            },
        },
{
    let (start, raw) = if off == 0 {
        (0u64, first)
    } else if first.len() > 0 && first[first.len() - 1] == LF {
        (off - 1 + first.len() as u64, second)
    } else {
        return None;
    };
    if raw.len() == 0 {
        return None;
    }
    let n = trimmed_len(raw);
    let line = copy_range(raw, 0, n);
    let k = index_of(line.as_slice(), COLON);
    let key = copy_range(line.as_slice(), 0, k);
    Some(Record { offset: off, start, next_off: start + raw.len() as u64, line, key })
}

/// One read of a line from `p`: the bytes up to and including the next line
/// feed, or to the end of `data`.
pub fn segment_at(data: &[u8], p: usize) -> (r: Vec<u8>)
    ensures
        r@ == segment(data@, p as int),
{
    let mut r: Vec<u8> = Vec::new();
    if p >= data.len() {
        return r;
    }
    let mut i: usize = p;
    while i < data.len() && data[i] != LF
        invariant
            p <= i <= data@.len(),
            r@ == data@.subrange(p as int, i as int),
            forall|k: int| p <= k < i ==> data@[k] != LF,
        decreases data@.len() - i,
    {
        r.push(data[i]);
        i = i + 1;
        assert(r@ =~= data@.subrange(p as int, i as int));
    }
    proof {
        lemma_find_from_is(data@, LF, p as int, i as int);
    }
    if i < data.len() {
        r.push(data[i]);
        assert(r@ =~= data@.subrange(p as int, i + 1));
    }
    r
}

/// A segment read from `p` ends within the data.
pub proof fn lemma_segment_len(data: Seq<u8>, p: int)
    requires
        0 <= p <= data.len(),
    ensures
        p + segment(data, p).len() <= data.len(),
{
    if p < data.len() {
        lemma_next_line(data, p);
    }
}

/// The segments read from `read_origin(off)` hold the canonical line at `off`,
/// and say where it starts.
pub proof fn lemma_segments_hold_canonical_line(data: Seq<u8>, off: int)
    requires
        0 <= off <= data.len(),
    ensures
        ({
            let first = segment(data, read_origin(off));
            let second = segment(data, read_origin(off) + first.len());
            let c = canonical_start(data, off);
            &&& read_origin(off) + first.len() <= data.len()
            &&& read_origin(off) + first.len() + second.len() <= data.len()
            &&& kept_start(off, first) == c
            &&& kept_raw(off, first, second) == segment(data, c)
            &&& (segment(data, c).len() == 0 <==> c >= data.len())
            &&& c < data.len() ==> segment(data, c).len() == next_line(data, c) - c
        }),
{
    lemma_canonical_start(data, off);
    let c = canonical_start(data, off);
    if off > 0 {
        lemma_next_line(data, off - 1);
        lemma_find_from(data, LF, off - 1);
        assert(segment(data, off - 1).len() == next_line(data, off - 1) - (off - 1));
        let first = segment(data, off - 1);
        if find_from(data, LF, off - 1) < data.len() {
            assert(first.last() == data[find_from(data, LF, off - 1)]);
        } else {
            assert(first.len() > 0 ==> first.last() == data[data.len() - 1]);
        }
    }
    if c < data.len() {
        lemma_next_line(data, c);
        assert(segment(data, c).len() == next_line(data, c) - c);
    }
    let first = segment(data, read_origin(off));
    lemma_segment_len(data, read_origin(off));
    lemma_segment_len(data, read_origin(off) + first.len());
}

/// The record reader on data held in memory: the canonical line at `off`, or
/// `None` past the end.
pub fn read_record(data: &[u8], off: usize) -> (r: Option<Record>)
    requires
        off <= data@.len() < u64::MAX,
    ensures
        match r {
            None => canonical_start(data@, off as int) >= data@.len(),
            Some(rec) => {
                let s = canonical_start(data@, off as int);
                &&& s < data@.len()
                &&& rec.offset == off
                &&& rec.start == s
                &&& rec.next_off == next_line(data@, s)
                &&& rec.line@ == line_at(data@, s)
                &&& rec.key@ == key_at(data@, s)
            },
        },
{
    proof {
        lemma_segments_hold_canonical_line(data@, off as int);
    }
    let origin = origin_for(off as u64) as usize;
    let first = segment_at(data, origin);
    proof {
        lemma_segment_len(data@, origin as int);
    }
    assert(data@.len() == data.len());
    let second = segment_at(data, origin + first.len());
    from_segments(off as u64, first.as_slice(), second.as_slice())
}

} // verus!
