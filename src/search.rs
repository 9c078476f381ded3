//! External binary search: a window of byte offsets over a sorted corpus,
//! narrowed by the records that the reader finds at its midpoints.
use crate::record::{
    canonical_start, copy_range, is_line_start, key_at, lemma_canonical_start, lemma_find_from_is,
    lemma_next_line, line_at, next_line, read_record, segment, trim_line, Record, COLON, LF,
};
use vstd::prelude::*;

verus! {

/// `a` orders strictly before `b` from index `i` on, byte by byte, a proper
/// prefix first.
pub open spec fn lex_lt_from(a: Seq<u8>, b: Seq<u8>, i: int) -> bool
    decreases a.len() - i,
{
    if i >= a.len() {
        i < b.len()
    } else if i >= b.len() {
        false
    } else if a[i] != b[i] {
        a[i] < b[i]
    } else {
        lex_lt_from(a, b, i + 1)
    }
}

/// `a` orders strictly before `b` as byte strings.
pub open spec fn lex_lt(a: Seq<u8>, b: Seq<u8>) -> bool {
    lex_lt_from(a, b, 0)
}

/// No two byte strings order strictly before each other.
pub proof fn lemma_lex_lt_asymmetric(a: Seq<u8>, b: Seq<u8>)
    ensures
        !(lex_lt(a, b) && lex_lt(b, a)),
{
    lemma_lex_lt_from_asymmetric(a, b, 0);
}

proof fn lemma_lex_lt_from_asymmetric(a: Seq<u8>, b: Seq<u8>, i: int)
    requires
        0 <= i,
    ensures
        !(lex_lt_from(a, b, i) && lex_lt_from(b, a, i)),
    decreases a.len() - i,
{
    if i < a.len() && i < b.len() && a[i] == b[i] {
        lemma_lex_lt_from_asymmetric(a, b, i + 1);
    }
}

/// The outcome of comparing two byte strings.
#[derive(PartialEq, Eq, Structural, Clone, Copy, Debug)]
pub enum Order {
    Less,
    Equal,
    Greater,
}

/// Compares two byte strings, byte by byte, a proper prefix first.
pub fn compare_bytes(a: &[u8], b: &[u8]) -> (r: Order)
    ensures
        (r == Order::Less) == lex_lt(a@, b@),
        (r == Order::Equal) == (a@ == b@),
        (r == Order::Greater) == lex_lt(b@, a@),
{
    let mut i: usize = 0;
    while i < a.len() && i < b.len() && a[i] == b[i]
        invariant
            0 <= i <= a@.len(),
            i <= b@.len(),
            forall|k: int| 0 <= k < i ==> a@[k] == b@[k],
            lex_lt(a@, b@) == lex_lt_from(a@, b@, i as int),
            lex_lt(b@, a@) == lex_lt_from(b@, a@, i as int),
        decreases a@.len() - i,
    {
        i = i + 1;
    }
    if i < a.len() && i < b.len() {
        if a[i] < b[i] {
            Order::Less
        } else {
            Order::Greater
        }
    } else if i < b.len() {
        Order::Less
    } else if i < a.len() {
        Order::Greater
    } else {
        assert(a@ =~= b@);
        Order::Equal
    }
}

/// The midpoint that a window probes.
pub open spec fn mid_of(low: u64, high: u64) -> u64 {
    (low + (high - low) / 2) as u64
}

/// The half-open window `[low, high)` of offsets in which the target's line,
/// if present, starts.
pub struct Window {
    pub low: u64,
    pub high: u64,
}

/// A record fit for the window step at `mid`: read for that offset, starting
/// at or after it, and ending after its start.
pub open spec fn fits_probe(rec: Option<Record>, mid: u64) -> bool {
    match rec {
        None => true,
        Some(r) => r.offset == mid && mid <= r.start && r.start < r.next_off,
    }
}

impl Window {
    /// The window over a whole file of `size` bytes.
    pub fn new(size: u64) -> (w: Window)
        ensures
            w.low == 0,
            w.high == size,
    {
        Window { low: 0, high: size }
    }

    /// The offset to read next, or `None` once the window is empty.
    pub fn probe(&self) -> (r: Option<u64>)
        ensures
            r == (if self.low < self.high {
                Some(mid_of(self.low, self.high))
            } else {
                None
            }),
    {
        if self.low < self.high {
            Some(self.low + (self.high - self.low) / 2)
        } else {
            None
        }
    }

    /// One step of the search, given what the reader found at the probed
    /// offset: past the end, or a record at or beyond the window's end,
    /// moves `high` to the midpoint; a record whose key equals `target` is
    /// the answer; a smaller key moves `low` past that record, a greater one
    /// moves `high` to its start. The window shrinks on every step that does
    /// not answer.
    pub fn advance(&mut self, rec: &Option<Record>, target: &[u8]) -> (found: Option<Vec<u8>>)
        requires
            old(self).low < old(self).high,
            fits_probe(*rec, mid_of(old(self).low, old(self).high)),
        ensures
            match *rec {
                Some(r) if r.start < old(self).high => {
                    if r.key@ == target@ {
                        &&& found is Some
                        &&& found->Some_0@ == r.line@
                        &&& *final(self) == *old(self)
                    } else if lex_lt(r.key@, target@) {
                        &&& found is None
                        &&& final(self).low == r.next_off
                        &&& final(self).high == old(self).high
                    } else {
                        &&& found is None
                        &&& final(self).low == old(self).low
                        &&& final(self).high == r.start
                    }
                },
                _ => {
                    &&& found is None
                    &&& final(self).low == old(self).low
                    &&& final(self).high == mid_of(old(self).low, old(self).high)
                },
            },
            found is None ==> final(self).high - final(self).low < old(self).high - old(self).low,
    {
        let mid = self.low + (self.high - self.low) / 2;
        match rec {
            Some(r) if r.start < self.high => {
                match compare_bytes(r.key.as_slice(), target) {
                    Order::Equal => Some(copy_range(r.line.as_slice(), 0, r.line.len())),
                    Order::Less => {
                        self.low = r.next_off;
                        None
                    },
                    Order::Greater => {
                        self.high = r.start;
                        None
                    },
                }
            },
            _ => {
                self.high = mid;
                None
            },
        }
    }
}

/// The lines of `data` are in strictly ascending order of their keys.
pub open spec fn is_sorted(data: Seq<u8>) -> bool {
    forall|s: int, t: int|
        #![trigger key_at(data, s), key_at(data, t)]
        is_line_start(data, s) && is_line_start(data, t) && s < t ==> lex_lt(
            key_at(data, s),
            key_at(data, t),
        )
}

/// A line of `data` has the key `k`.
pub open spec fn contains_key(data: Seq<u8>, k: Seq<u8>) -> bool {
    exists|s: int| is_line_start(data, s) && #[trigger] key_at(data, s) == k
}

/// Every line of `data` with key `k` starts in `[low, high)`.
pub open spec fn window_holds(data: Seq<u8>, k: Seq<u8>, low: int, high: int) -> bool {
    forall|s: int| is_line_start(data, s) && #[trigger] key_at(data, s) == k ==> low <= s < high
}

/// One step of the search keeps every line with the target's key inside the
/// window, on sorted data, when the record is the canonical line at the
/// midpoint.
proof fn lemma_step_keeps_target(
    data: Seq<u8>,
    k: Seq<u8>,
    old_w: Window,
    new_w: Window,
    rec: Option<Record>,
)
    requires
        is_sorted(data),
        old_w.low < old_w.high <= data.len(),
        window_holds(data, k, old_w.low as int, old_w.high as int),
        ({
            let mid = mid_of(old_w.low, old_w.high);
            let c = canonical_start(data, mid as int);
            match rec {
                None => c >= data.len(),
                Some(r) => {
                    &&& c < data.len()
                    &&& r.start == c
                    &&& r.next_off == next_line(data, c)
                    &&& r.key@ == key_at(data, c)
                },
            }
        }),
        match rec {
            Some(r) if r.start < old_w.high => {
                &&& r.key@ != k
                &&& lex_lt(r.key@, k) ==> new_w.low == r.next_off && new_w.high == old_w.high
                &&& !lex_lt(r.key@, k) ==> new_w.low == old_w.low && new_w.high == r.start
            },
            _ => new_w.low == old_w.low && new_w.high == mid_of(old_w.low, old_w.high),
        },
    ensures
        window_holds(data, k, new_w.low as int, new_w.high as int),
{
    let mid = mid_of(old_w.low, old_w.high);
    lemma_canonical_start(data, mid as int);
    let c = canonical_start(data, mid as int);
    assert forall|s: int| is_line_start(data, s) && #[trigger] key_at(data, s) == k implies new_w.low
        <= s < new_w.high by {
        match rec {
            Some(r) => {
                if r.start < old_w.high {
                    lemma_next_line(data, c);
                    lemma_lex_lt_asymmetric(key_at(data, c), k);
                    if s < c {
                        assert(lex_lt(key_at(data, s), key_at(data, c)));
                    } else if s > c {
                        assert(lex_lt(key_at(data, c), key_at(data, s)));
                    }
                } else {
                    assert(!(mid <= s < c));
                }
            },
            None => {
                assert(!(mid <= s < c));
            },
        }
    }
}

/// Looks `target` up in the sorted corpus `data` by binary search over byte
/// offsets. A line that comes back is a line of `data` with that key; `None`
/// comes back only when, on sorted data, no line has it.
pub fn search_bytes(data: &[u8], target: &[u8]) -> (r: Option<Vec<u8>>)
    requires
        data@.len() < u64::MAX,
    ensures
        match r {
            Some(line) => exists|s: int|
                is_line_start(data@, s) && line@ == line_at(data@, s) && #[trigger] key_at(data@, s)
                    == target@,
            None => is_sorted(data@) ==> !contains_key(data@, target@),
        },
{
    let mut w = Window::new(data.len() as u64);
    while w.low < w.high
        invariant
            data@.len() < u64::MAX,
            w.high <= data@.len(),
            is_sorted(data@) ==> window_holds(data@, target@, w.low as int, w.high as int),
        decreases (if w.low < w.high {
            w.high - w.low
        } else {
            0
        }),
    {
        let mid = w.low + (w.high - w.low) / 2;
        assert(mid < data.len());
        let rec = read_record(data, mid as usize);
        let ghost c = canonical_start(data@, mid as int);
        proof {
            lemma_canonical_start(data@, mid as int);
            if c < data@.len() {
                lemma_next_line(data@, c);
            }
        }
        let ghost old_w = w;
        let found = w.advance(&rec, target);
        if let Some(line) = found {
            assert(key_at(data@, c) == target@);
            return Some(line);
        }
        proof {
            if is_sorted(data@) {
                lemma_step_keeps_target(data@, target@, old_w, w, rec);
            }
        }
    }
    None
}

/// A corpus of the single line `k:1`, for a key `k` without a colon or a line
/// feed (a digest), is sorted and holds `k`, and its only line is the whole
/// corpus: looking `k` up in it gives back that line.
pub proof fn lemma_single_record_corpus(k: Seq<u8>)
    requires
        forall|i: int| 0 <= i < k.len() ==> #[trigger] k[i] != COLON && k[i] != LF,
    ensures
        ({
            let data = k + seq![COLON, 49u8];
            &&& is_sorted(data)
            &&& contains_key(data, k)
            &&& forall|s: int| is_line_start(data, s) ==> s == 0
            &&& line_at(data, 0) == data
            &&& key_at(data, 0) == k
        }),
{
    let data = k + seq![COLON, 49u8];
    assert forall|i: int| 0 <= i < data.len() implies #[trigger] data[i] != LF by {
        if i < k.len() {
            assert(data[i] == k[i]);
        }
    }
    lemma_find_from_is(data, LF, 0, data.len() as int);
    assert(segment(data, 0) =~= data);
    assert(trim_line(data) == data);
    lemma_find_from_is(data, COLON, 0, k.len() as int);
    assert(data.subrange(0, k.len() as int) =~= k);
    assert forall|s: int| is_line_start(data, s) implies s == 0 by {
        if s > 0 {
            assert(data[s - 1] != LF);
        }
    }
    assert(key_at(data, 0) == k);
}

} // verus!
