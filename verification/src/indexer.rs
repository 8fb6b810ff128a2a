use vstd::prelude::*;
use crate::bytes_tok::{bfind, bfind_from, lemma_bfind_bounds};

verus! {

pub const DEFAULT_CHECKPOINT_STRIDE: usize = 1024;

/// Whether a line begins at byte `p` of `b`: at the start, or just after a line feed.
pub open spec fn is_line_start(b: Seq<u8>, p: int) -> bool {
    p == 0 || (0 < p <= b.len() && b[p - 1] == 10u8)
}

/// The line starts of `b` below `n`, in increasing order.
pub open spec fn line_starts_below(b: Seq<u8>, n: int) -> Seq<int>
    decreases n,
{
    if n <= 0 {
        Seq::empty()
    } else if is_line_start(b, n - 1) {
        line_starts_below(b, n - 1).push(n - 1)
    } else {
        line_starts_below(b, n - 1)
    }
}

/// The line starts known once `b` has been read up to `c`: every start before `c`, and `c`
/// itself when it starts a line and bytes follow it.
pub open spec fn canonical_starts(b: Seq<u8>, c: int) -> Seq<int> {
    if c < b.len() {
        line_starts_below(b, c + 1)
    } else {
        line_starts_below(b, c)
    }
}

/// The number of line feeds in `b[lo..hi]`.
pub open spec fn newline_count(b: Seq<u8>, lo: int, hi: int) -> int
    decreases hi - lo,
{
    if hi <= lo {
        0
    } else if b[hi - 1] == 10u8 {
        newline_count(b, lo, hi - 1) + 1
    } else {
        newline_count(b, lo, hi - 1)
    }
}

/// The line starts that reading `b[c..e]` discovers past `c`: just after each line feed,
/// when bytes follow it.
pub open spec fn discovered_starts(b: Seq<u8>, c: int, e: int) -> Seq<int>
    decreases e - c,
{
    if e <= c {
        Seq::empty()
    } else if b[e - 1] == 10u8 && e < b.len() {
        discovered_starts(b, c, e - 1).push(e)
    } else {
        discovered_starts(b, c, e - 1)
    }
}

/// One checkpoint for every `stride`-th of the first `n` line starts: its line and offset.
pub open spec fn checkpoints_of(starts: Seq<int>, stride: int, n: int) -> Seq<(int, int)>
    decreases n,
{
    if n <= 0 {
        Seq::empty()
    } else if (n - 1) % stride == 0 {
        checkpoints_of(starts, stride, n - 1).push((n - 1, starts[n - 1]))
    } else {
        checkpoints_of(starts, stride, n - 1)
    }
}

/// The abstract state of an `Indexer`: the line starts found, the line feeds consumed,
/// how far it has read, the checkpoint stride, and the bytes it was last given.
pub struct IndexerView {
    pub starts: Seq<int>,
    pub completed: int,
    pub cursor: int,
    pub stride: int,
    pub seen: Seq<u8>,
}

/// The index describes its bytes exactly: the starts and line feeds up to its cursor.
pub open spec fn describes(v: IndexerView) -> bool {
    &&& 0 <= v.cursor <= v.seen.len()
    &&& v.starts == canonical_starts(v.seen, v.cursor)
    &&& v.completed == newline_count(v.seen, 0, v.cursor)
}

/// The next line start after `off`: one past the first line feed at or after it.
pub open spec fn next_start(b: Seq<u8>, off: int) -> Option<int> {
    if off < 0 || off > b.len() {
        None
    } else if bfind_from(b, 10u8, off) < b.len() {
        Some(bfind_from(b, 10u8, off) + 1)
    } else {
        None
    }
}

/// Walking from line `line` at `off` to line `target`: the line reached and, when the walk
/// arrived, its offset.
pub open spec fn seek(b: Seq<u8>, line: int, off: int, target: int) -> (int, Option<int>)
    decreases target - line,
{
    if line >= target {
        (line, Some(off))
    } else {
        match next_start(b, off) {
            Some(n) => seek(b, line + 1, n, target),
            None => (line, None),
        }
    }
}

/// Where the line at `off` ends: at the next line start, or at the frontier `f` for the last
/// indexed line or when no line feed follows.
pub open spec fn line_end(b: Seq<u8>, total: int, line: int, off: int, f: int) -> int {
    if line + 1 < total {
        match next_start(b, off) {
            Some(n) => n,
            None => f,
        }
    } else {
        f
    }
}

pub open spec fn min_int(a: int, b: int) -> int {
    if a <= b { a } else { b }
}

/// The spans of lines `line..end`, the first beginning at `off`, each cut at the frontier.
pub open spec fn walk(b: Seq<u8>, total: int, line: int, off: int, end: int, f: int) -> Seq<(int, int)>
    decreases end - line,
{
    if line >= end {
        Seq::empty()
    } else {
        let le = line_end(b, total, line, off, f);
        seq![(off, min_int(le, f))] + walk(b, total, line + 1, le, end, f)
    }
}

proof fn lemma_walk_len(b: Seq<u8>, total: int, line: int, off: int, end: int, f: int)
    ensures
        walk(b, total, line, off, end, f).len() == (if line >= end { 0 } else { end - line }),
    decreases end - line,
{
    if line < end {
        lemma_walk_len(b, total, line + 1, line_end(b, total, line, off, f), end, f);
    }
}

/// The last of the first `n` checkpoints at or before `line` (or -1).
pub open spec fn checkpoint_index(cps: Seq<(int, int)>, line: int, n: int) -> int
    decreases n,
{
    if n <= 0 {
        -1
    } else if cps[n - 1].0 <= line {
        n - 1
    } else {
        checkpoint_index(cps, line, n - 1)
    }
}

/// The checkpoints of an index.
pub open spec fn view_checkpoints(v: IndexerView) -> Seq<(int, int)> {
    checkpoints_of(v.starts, v.stride, v.starts.len() as int)
}

/// Where a scan of lines from `start` begins: the line reached from the nearest checkpoint
/// and, when it got there, the offset of `start`.
pub open spec fn scan_origin(v: IndexerView, b: Seq<u8>, start: int) -> (int, Option<int>) {
    let cps = view_checkpoints(v);
    let k = checkpoint_index(cps, start, cps.len() as int);
    if k < 0 {
        (start, None)
    } else {
        seek(b, cps[k].0, cps[k].1, start)
    }
}

/// The spans `line_spans` gives for lines `start..end` of `b`, with the frontier `frontier`.
pub open spec fn spans_of(v: IndexerView, b: Seq<u8>, start: int, end: int, frontier: int) -> Seq<(int, int)> {
    let e = min_int(end, v.starts.len() as int);
    if start >= e {
        Seq::empty()
    } else {
        match scan_origin(v, b, start).1 {
            Some(off) => walk(b, v.starts.len() as int, start, off, e, min_int(frontier, b.len() as int)),
            None => Seq::empty(),
        }
    }
}

/// The span of line `i` of an index that describes its bytes: from its start to the next
/// line's start, or to the frontier `f` for the last line, and never past `f`.
pub open spec fn described_span(starts: Seq<int>, i: int, f: int) -> (int, int) {
    if i + 1 < starts.len() {
        (starts[i], min_int(starts[i + 1], f))
    } else {
        (starts[i], f)
    }
}

#[derive(Debug, Clone, Copy, PartialEq, Eq)]
struct LineCheckpoint {
    line: usize,
    offset: u64,
}

/// A line index built a budget of bytes at a time. It keeps the offset of every
/// `stride`-th line start, and finds any other line by scanning forward from the nearest.
pub struct Indexer {
    checkpoints: Vec<LineCheckpoint>,
    total_lines: usize,
    completed_lines: usize,
    cursor: usize,
    checkpoint_stride: usize,
    last_line_start: usize,
    starts: Ghost<Seq<int>>,
    seen: Ghost<Seq<u8>>,
}

impl View for Indexer {
    type V = IndexerView;

    closed spec fn view(&self) -> IndexerView {
        IndexerView {
            starts: self.starts@,
            completed: self.completed_lines as int,
            cursor: self.cursor as int,
            stride: self.checkpoint_stride as int,
            seen: self.seen@,
        }
    }
}

/// A checkpoint as its line and offset.
spec fn checkpoint_pair(c: LineCheckpoint) -> (int, int) {
    (c.line as int, c.offset as int)
}

impl Indexer {
    /// The index is well formed: its counters, checkpoints and last start agree with its
    /// line starts, which increase and lie within what it has read.
    pub closed spec fn wf(&self) -> bool {
        &&& self.checkpoint_stride >= 1
        &&& self.completed_lines <= self.cursor
        &&& self.total_lines == self.starts@.len()
        &&& self.checkpoints@.map_values(|c: LineCheckpoint| checkpoint_pair(c)) == checkpoints_of(
            self.starts@,
            self.checkpoint_stride as int,
            self.total_lines as int,
        )
        &&& self.last_line_start == if self.total_lines > 0 { self.starts@.last() } else { 0 }
        &&& forall|i: int| 0 <= i < self.starts@.len() ==> 0 <= #[trigger] self.starts@[i] <= self.cursor
        &&& forall|i: int, j: int| 0 <= i < j < self.starts@.len() ==> self.starts@[i] < self.starts@[j]
    }

    pub fn new() -> (r: Self)
        ensures
            r.wf(),
            r@.starts.len() == 0,
            r@.completed == 0,
            r@.cursor == 0,
            r@.stride == DEFAULT_CHECKPOINT_STRIDE,
            r@.seen.len() == 0,
            describes(r@),
    {
        Self::with_checkpoint_stride(DEFAULT_CHECKPOINT_STRIDE)
    }

    /// An empty index keeping every `checkpoint_stride`-th line start (at least every one).
    pub fn with_checkpoint_stride(checkpoint_stride: usize) -> (r: Self)
        ensures
            r.wf(),
            r@.starts.len() == 0,
            r@.completed == 0,
            r@.cursor == 0,
            r@.stride == if checkpoint_stride >= 1 { checkpoint_stride as int } else { 1 },
            r@.seen.len() == 0,
            describes(r@),
    {
        let r = Indexer {
            checkpoints: Vec::new(),
            total_lines: 0,
            completed_lines: 0,
            cursor: 0,
            checkpoint_stride: if checkpoint_stride >= 1 { checkpoint_stride } else { 1 },
            last_line_start: 0,
            starts: Ghost(Seq::empty()),
            seen: Ghost(Seq::empty()),
        };
        proof {
            assert(r.checkpoints@.map_values(|c: LineCheckpoint| checkpoint_pair(c)) =~= Seq::<(int, int)>::empty());
            assert(canonical_starts(Seq::<u8>::empty(), 0) =~= Seq::<int>::empty());
        }
        r
    }

    fn add_line_start(&mut self, offset: usize)
        requires
            old(self).wf(),
            old(self).total_lines < usize::MAX,
            forall|i: int| 0 <= i < old(self).starts@.len() ==> old(self).starts@[i] < offset,
            offset <= old(self).cursor,
        ensures
            final(self).wf(),
            final(self).starts@ == old(self).starts@.push(offset as int),
            final(self).completed_lines == old(self).completed_lines,
            final(self).cursor == old(self).cursor,
            final(self).checkpoint_stride == old(self).checkpoint_stride,
            final(self).seen@ == old(self).seen@,
    {
        let line = self.total_lines;
        let ghost old_cps = self.checkpoints@.map_values(|c: LineCheckpoint| checkpoint_pair(c));
        let ghost new_starts = self.starts@.push(offset as int);
        proof {
            lemma_checkpoints_prefix(self.starts@, new_starts, self.checkpoint_stride as int, line as int);
        }
        if line % self.checkpoint_stride == 0 {
            self.checkpoints.push(LineCheckpoint { line, offset: offset as u64 });
            proof {
                assert(self.checkpoints@.map_values(|c: LineCheckpoint| checkpoint_pair(c)) =~= old_cps.push(
                    (line as int, offset as int),
                ));
            }
        }
        self.total_lines = line + 1;
        self.last_line_start = offset;
        self.starts = Ghost(new_starts);
        proof {
            assert(new_starts[line as int] == offset);
            assert(checkpoints_of(new_starts, self.checkpoint_stride as int, line + 1) == if line as int
                % self.checkpoint_stride as int == 0 {
                checkpoints_of(new_starts, self.checkpoint_stride as int, line as int).push((line as int, offset as int))
            } else {
                checkpoints_of(new_starts, self.checkpoint_stride as int, line as int)
            });
        }
    }

    /// Reads at most `budget` bytes of `bytes` from the cursor on, and returns how many it
    /// read. A line start is recorded where a line begins and bytes follow; `bytes` is the
    /// whole text, which may have grown since the last call.
    pub fn step(&mut self, bytes: &[u8], budget: usize) -> (r: usize)
        requires
            old(self).wf(),
            old(self)@.cursor <= bytes@.len(),
        ensures
            final(self).wf(),
            ({
                let c = old(self)@.cursor;
                let e = min_int(c + budget, bytes@.len() as int);
                let last = if old(self)@.starts.len() > 0 { old(self)@.starts.last() } else { 0 };
                let opens = c < bytes@.len() && (old(self)@.starts.len() == 0 || (c > 0 && bytes@[c - 1] == 10u8
                    && last != c));
                &&& r == e - c
                &&& final(self)@.cursor == e
                &&& final(self)@.completed == old(self)@.completed + newline_count(bytes@, c, e)
                &&& final(self)@.starts == (if opens {
                    old(self)@.starts.push(if old(self)@.starts.len() == 0 { 0 } else { c })
                } else {
                    old(self)@.starts
                })
                    + discovered_starts(bytes@, c, e)
            }),
            final(self)@.stride == old(self)@.stride,
            final(self)@.seen == bytes@,
            describes(old(self)@) && old(self)@.seen.is_prefix_of(bytes@) ==> describes(final(self)@),
    {
        let c = self.cursor;
        let ghost start_starts = self.starts@;
        let ghost last = if self.starts@.len() > 0 { self.starts@.last() } else { 0 };
        let ghost opens = c < bytes@.len() && (self.starts@.len() == 0 || (c > 0 && bytes@[c - 1] == 10u8 && last
            != c));
        proof {
            if describes(self@) && self@.seen.is_prefix_of(bytes@) {
                lemma_describes_prefix(self@, bytes@);
            }
        }
        if c < bytes.len() {
            if self.total_lines == 0 {
                proof {
                    lemma_starts_len_bound(self.starts@, c as int);
                }
                self.add_line_start(0);
            } else if c > 0 && bytes[c - 1] == 10u8 && self.last_line_start != c {
                proof {
                    assert forall|i: int| 0 <= i < self.starts@.len() implies self.starts@[i] < c by {
                        if i < self.starts@.len() - 1 {
                            assert(self.starts@[i] < self.starts@[self.starts@.len() - 1]);
                        }
                    }
                    lemma_starts_len_bound(self.starts@, c as int);
                }
                self.add_line_start(c);
            }
        }
        let ghost after_open = self.starts@;
        proof {
            assert(after_open == if opens {
                start_starts.push(if start_starts.len() == 0 { 0 } else { c as int })
            } else {
                start_starts
            });
            if describes(old(self)@) && old(self)@.seen.is_prefix_of(bytes@) {
                lemma_open_is_canonical(old(self)@, bytes@);
                assert(after_open == canonical_starts(bytes@, c as int));
            }
        }
        let end = if budget <= bytes.len() - c { c + budget } else { bytes.len() };
        self.cursor = end;
        let chunk = &bytes[c..end];
        let ghost completed0 = self.completed_lines as int;
        let mut i: usize = 0;
        while i < chunk.len()
            invariant
                self.wf(),
                0 <= i <= chunk@.len(),
                chunk@ == bytes@.subrange(c as int, end as int),
                c <= end <= bytes@.len(),
                self.cursor == end,
                self.checkpoint_stride == old(self).checkpoint_stride,
                self.seen@ == old(self).seen@,
                self.completed_lines == completed0 + newline_count(bytes@, c as int, c + i),
                self.starts@ == after_open + discovered_starts(bytes@, c as int, c + i),
                forall|k: int| 0 <= k < self.starts@.len() ==> #[trigger] self.starts@[k] <= c + i,
                completed0 == old(self).completed_lines,
                completed0 <= c,
            decreases chunk@.len() - i,
        {
            let q = bfind(chunk, 10u8, i);
            proof {
                lemma_bfind_bounds(chunk@, 10u8, i as int);
                assert forall|k: int| c + i <= k < c + q implies bytes@[k] != 10u8 by {
                    assert(chunk@[k - c] == bytes@[k]);
                }
                lemma_quiet_range(bytes@, c as int, c + i, c + q);
            }
            if q >= chunk.len() {
                i = chunk.len();
            } else {
                proof {
                    assert(chunk@[q as int] == bytes@[c + q]);
                    lemma_newline_count_bound(bytes@, c as int, c + q);
                }
                self.completed_lines = self.completed_lines + 1;
                let abs_next = c + q + 1;
                if abs_next < bytes.len() {
                    proof {
                        lemma_starts_len_bound(self.starts@, abs_next as int);
                    }
                    self.add_line_start(abs_next);
                    proof {
                        assert(self.starts@ =~= after_open + discovered_starts(bytes@, c as int, c + q + 1));
                    }
                }
                i = q + 1;
            }
        }
        let processed = end - c;
        self.seen = Ghost(bytes@);
        proof {
            if describes(old(self)@) && old(self)@.seen.is_prefix_of(bytes@) {
                lemma_canonical_extends(bytes@, c as int, end as int);
                lemma_prefix_newlines(old(self)@.seen, bytes@, c as int);
                lemma_newline_split(bytes@, 0, c as int, end as int);
            }
        }
        processed
    }

    /// Whether everything up to `total` has been read.
    pub fn is_done(&self, total: usize) -> (r: bool)
        ensures
            r == (self@.cursor >= total),
    {
        self.cursor >= total
    }

    pub fn cursor(&self) -> (r: usize)
        ensures
            r == self@.cursor,
    {
        self.cursor
    }

    /// The number of line starts found.
    pub fn total_lines(&self) -> (r: usize)
        requires
            self.wf(),
        ensures
            r == self@.starts.len(),
    {
        self.total_lines
    }

    /// The number of lines read through their line feed. A last line whose start is known
    /// but whose line feed has not been read yet does not count.
    pub fn completed_lines(&self) -> (r: usize)
        ensures
            r == self@.completed,
    {
        self.completed_lines
    }

    /// The number of checkpoints kept.
    pub fn checkpoint_count(&self) -> (r: usize)
        requires
            self.wf(),
        ensures
            r == view_checkpoints(self@).len(),
    {
        proof {
            assert(self.checkpoints@.len() == self.checkpoints@.map_values(|c: LineCheckpoint| checkpoint_pair(c)).len());
        }
        self.checkpoints.len()
    }

    /// The checkpoint to scan from for `line`: the last one at or before it.
    fn checkpoint_before_or_at(&self, line: usize) -> (r: Option<(usize, usize)>)
        requires
            self.wf(),
        ensures
            ({
                let cps = view_checkpoints(self@);
                let k = checkpoint_index(cps, line as int, cps.len() as int);
                match r {
                    Some(p) => k >= 0 && p.0 == cps[k].0 && p.1 == cps[k].1,
                    None => k < 0,
                }
            }),
    {
        let ghost cps = view_checkpoints(self@);
        proof {
            assert(cps == self.checkpoints@.map_values(|c: LineCheckpoint| checkpoint_pair(c)));
            lemma_checkpoints_sorted(self.starts@, self.checkpoint_stride as int, self.total_lines as int);
        }
        // Binary search for the number of checkpoints whose line is at most `line`.
        let mut lo: usize = 0;
        let mut hi: usize = self.checkpoints.len();
        while lo < hi
            invariant
                0 <= lo <= hi <= cps.len(),
                cps.len() == self.checkpoints@.len(),
                cps == self.checkpoints@.map_values(|c: LineCheckpoint| checkpoint_pair(c)),
                forall|a: int, b: int| 0 <= a < b < cps.len() ==> cps[a].0 < cps[b].0,
                forall|a: int| 0 <= a < lo ==> cps[a].0 <= line,
                forall|a: int| hi <= a < cps.len() ==> cps[a].0 > line,
            decreases hi - lo,
        {
            let mid = lo + (hi - lo) / 2;
            proof {
                assert(cps[mid as int] == checkpoint_pair(self.checkpoints@[mid as int]));
            }
            if self.checkpoints[mid].line <= line {
                lo = mid + 1;
            } else {
                hi = mid;
            }
        }
        proof {
            lemma_checkpoint_index(cps, line as int, lo as int, cps.len() as int);
        }
        if lo == 0 {
            None
        } else {
            let cp = self.checkpoints[lo - 1];
            proof {
                assert(cps[lo - 1] == checkpoint_pair(self.checkpoints@[lo - 1]));
                lemma_checkpoint_offsets(self.starts@, self.checkpoint_stride as int, self.total_lines as int, lo - 1);
            }
            Some((cp.line, cp.offset as usize))
        }
    }

    /// The span of the line at `off` and where the next one starts.
    fn span_at(&self, bytes: &[u8], line: usize, off: usize, frontier: usize) -> (r: (usize, usize))
        requires
            self.wf(),
            frontier <= bytes@.len(),
        ensures
            r.1 == line_end(bytes@, self@.starts.len() as int, line as int, off as int, frontier as int),
            r.0 == min_int(r.1 as int, frontier as int),
    {
        let le = if line < self.total_lines && line + 1 < self.total_lines {
            match next_line_start(bytes, off) {
                Some(n) => n,
                None => frontier,
            }
        } else {
            frontier
        };
        (if le <= frontier { le } else { frontier }, le)
    }

    /// Walks from a checkpoint to line `start`: the line reached and, when it got there, the
    /// offset of `start`.
    fn seek_line(&self, bytes: &[u8], start: usize) -> (r: (usize, Option<usize>))
        requires
            self.wf(),
        ensures
            r.0 == scan_origin(self@, bytes@, start as int).0,
            match r.1 {
                Some(o) => scan_origin(self@, bytes@, start as int).1 == Some(o as int),
                None => scan_origin(self@, bytes@, start as int).1 is None,
            },
    {
        match self.checkpoint_before_or_at(start) {
            None => (start, None),
            Some((cl, co)) => {
                let mut line = cl;
                let mut offset = co;
                while line < start
                    invariant
                        seek(bytes@, line as int, offset as int, start as int) == scan_origin(self@, bytes@, start as int),
                    decreases start - line,
                {
                    match next_line_start(bytes, offset) {
                        Some(next) => {
                            offset = next;
                            line = line + 1;
                        },
                        None => {
                            return (line, None);
                        },
                    }
                }
                (line, Some(offset))
            },
        }
    }

    /// The span of line `i`: `[start, end)` with the end after its line feed, if it has one.
    pub fn line_span(&self, bytes: &[u8], i: usize, frontier: usize) -> (r: Option<(usize, usize)>)
        requires
            self.wf(),
        ensures
            ({
                let s = spans_of(self@, bytes@, i as int, if i < usize::MAX { i + 1 } else { i as int }, frontier as int);
                match r {
                    Some(p) => s.len() > 0 && (p.0 as int, p.1 as int) == s[0],
                    None => s.len() == 0,
                }
            }),
    {
        let spans = self.line_spans(bytes, i, if i < usize::MAX { i + 1 } else { i }, frontier);
        if spans.len() > 0 {
            proof {
                assert(spans@.map_values(|p: (usize, usize)| (p.0 as int, p.1 as int))[0] == (spans@[0].0 as int, spans@[0].1 as int));
            }
            Some(spans[0])
        } else {
            None
        }
    }

    /// The spans of lines `start..end` (cut at the number of lines found), each ending after
    /// its line feed and never past `frontier`.
    pub fn line_spans(&self, bytes: &[u8], start: usize, end: usize, frontier: usize) -> (r: Vec<(usize, usize)>)
        requires
            self.wf(),
        ensures
            r@.map_values(|p: (usize, usize)| (p.0 as int, p.1 as int)) == spans_of(self@, bytes@, start as int, end as int, frontier as int),
    {
        let mut spans: Vec<(usize, usize)> = Vec::new();
        let e = if end <= self.total_lines { end } else { self.total_lines };
        if start >= e {
            proof {
                assert(spans@.map_values(|p: (usize, usize)| (p.0 as int, p.1 as int)) =~= Seq::<(int, int)>::empty());
            }
            return spans;
        }
        let f = if frontier <= bytes.len() { frontier } else { bytes.len() };
        let (_, origin) = self.seek_line(bytes, start);
        let mut offset = match origin {
            Some(o) => o,
            None => {
                proof {
                    assert(spans@.map_values(|p: (usize, usize)| (p.0 as int, p.1 as int)) =~= Seq::<(int, int)>::empty());
                }
                return spans;
            },
        };
        let ghost total = self.total_lines as int;
        let mut line = start;
        proof {
            assert(spans@.map_values(|p: (usize, usize)| (p.0 as int, p.1 as int)) + walk(bytes@, total, line as int, offset as int, e as int, f as int)
                =~= walk(bytes@, total, line as int, offset as int, e as int, f as int));
        }
        while line < e
            invariant
                self.wf(),
                start <= line <= e,
                e as int == min_int(end as int, total),
                total == self@.starts.len(),
                f as int == min_int(frontier as int, bytes@.len() as int),
                spans@.map_values(|p: (usize, usize)| (p.0 as int, p.1 as int)) + walk(bytes@, total, line as int, offset as int, e as int, f as int)
                    == walk(bytes@, total, start as int, scan_origin(self@, bytes@, start as int).1->Some_0, e as int, f as int),
            decreases e - line,
        {
            let ghost before = spans@.map_values(|p: (usize, usize)| (p.0 as int, p.1 as int));
            let (cut, le) = self.span_at(bytes, line, offset, f);
            spans.push((offset, cut));
            proof {
                assert(spans@.map_values(|p: (usize, usize)| (p.0 as int, p.1 as int)) =~= before.push((offset as int, cut as int)));
                assert(walk(bytes@, total, line as int, offset as int, e as int, f as int) == seq![(offset as int, cut as int)]
                    + walk(bytes@, total, line + 1, le as int, e as int, f as int));
                assert(before + walk(bytes@, total, line as int, offset as int, e as int, f as int) =~= before.push((offset as int, cut as int))
                    + walk(bytes@, total, line + 1, le as int, e as int, f as int));
            }
            offset = le;
            line = line + 1;
        }
        proof {
            assert(walk(bytes@, total, line as int, offset as int, e as int, f as int) =~= Seq::<(int, int)>::empty());
            assert(spans@.map_values(|p: (usize, usize)| (p.0 as int, p.1 as int)) =~= spans@.map_values(|p: (usize, usize)| (p.0 as int, p.1 as int)) + Seq::<(int, int)>::empty());
        }
        spans
    }

    /// Calls `f(line, start, end)` for each of the lines `start..end`, in order, with the
    /// spans `line_spans` gives.
    pub fn for_each_line_span<F: FnMut(usize, usize, usize)>(&self, bytes: &[u8], start: usize, end: usize, frontier: usize, mut f: F)
        requires
            self.wf(),
            forall|a: usize, b: usize, c: usize| call_requires(f, (a, b, c)),
    {
        let e = if end <= self.total_lines { end } else { self.total_lines };
        if start >= e {
            return;
        }
        let fr = if frontier <= bytes.len() { frontier } else { bytes.len() };
        let (_, origin) = self.seek_line(bytes, start);
        let mut offset = match origin {
            Some(o) => o,
            None => return,
        };
        let mut line = start;
        while line < e
            invariant
                self.wf(),
                start <= line <= e,
                fr <= bytes@.len(),
                forall|a: usize, b: usize, c: usize| call_requires(f, (a, b, c)),
            decreases e - line,
        {
            let (cut, le) = self.span_at(bytes, line, offset, fr);
            f(line, offset, cut);
            offset = le;
            line = line + 1;
        }
    }

    /// Like `for_each_line_span`, but stops once `f` returns false; the line it returned false
    /// for counts as visited. Returns the first line not visited.
    pub fn for_each_line_span_while<F: FnMut(usize, usize, usize) -> bool>(
        &self,
        bytes: &[u8],
        start: usize,
        end: usize,
        frontier: usize,
        mut f: F,
    ) -> (r: usize)
        requires
            self.wf(),
            forall|a: usize, b: usize, c: usize| call_requires(f, (a, b, c)),
        ensures
            ({
                let e = min_int(end as int, self@.starts.len() as int);
                if start >= e {
                    r == min_int(start as int, e)
                } else if scan_origin(self@, bytes@, start as int).1 is None {
                    r == scan_origin(self@, bytes@, start as int).0
                } else {
                    let sp = spans_of(self@, bytes@, start as int, end as int, frontier as int);
                    &&& start < r <= e
                    &&& forall|l: int| start <= l < r - 1 ==> call_ensures(f, (l as usize, #[trigger] sp[l - start].0 as usize,
                        sp[l - start].1 as usize), true)
                    &&& r < e ==> call_ensures(f, ((r - 1) as usize, sp[r - 1 - start].0 as usize, sp[r - 1 - start].1 as usize), false)
                }
            }),
    {
        let e = if end <= self.total_lines { end } else { self.total_lines };
        if start >= e {
            return if start <= e { start } else { e };
        }
        let fr = if frontier <= bytes.len() { frontier } else { bytes.len() };
        let (reached, origin) = self.seek_line(bytes, start);
        let mut offset = match origin {
            Some(o) => o,
            None => return reached,
        };
        let ghost f0 = f;
        let ghost sp = spans_of(self@, bytes@, start as int, end as int, frontier as int);
        let ghost total = self@.starts.len() as int;
        proof {
            lemma_walk_len(bytes@, total, start as int, offset as int, e as int, fr as int);
            assert(sp.skip(0) =~= sp);
        }
        let mut line = start;
        while line < e
            invariant_except_break
                forall|l: int| start <= l < line ==> call_ensures(f, (l as usize, #[trigger] sp[l - start].0 as usize,
                    sp[l - start].1 as usize), true),
            invariant
                self.wf(),
                start <= line <= e,
                start < e,
                fr <= bytes@.len(),
                fr as int == min_int(frontier as int, bytes@.len() as int),
                e as int == min_int(end as int, total),
                total == self@.starts.len(),
                f == f0,
                forall|a: usize, b: usize, c: usize| call_requires(f, (a, b, c)),
                sp.skip(line - start) == walk(bytes@, total, line as int, offset as int, e as int, fr as int),
                sp.len() == e - start,
            ensures
                start < line <= e,
                forall|l: int| start <= l < line - 1 ==> call_ensures(f, (l as usize, #[trigger] sp[l - start].0 as usize,
                    sp[l - start].1 as usize), true),
                line < e ==> call_ensures(f, ((line - 1) as usize, sp[line - 1 - start].0 as usize, sp[line - 1 - start].1 as usize), false),
            decreases e - line,
        {
            let (cut, le) = self.span_at(bytes, line, offset, fr);
            proof {
                let w = walk(bytes@, total, line as int, offset as int, e as int, fr as int);
                let rest = walk(bytes@, total, line + 1, le as int, e as int, fr as int);
                assert(w == seq![(offset as int, cut as int)] + rest);
                assert(w.len() >= 1);
                assert(sp.len() > line - start);
                assert(sp.skip(line - start)[0] == sp[line - start]);
                assert(sp.skip(line + 1 - start) =~= w.skip(1));
                assert(w.skip(1) =~= rest);
            }
            let keep = f(line, offset, cut);
            offset = le;
            line = line + 1;
            if !keep {
                break;
            }
        }
        line
    }

    /// Scans a leading run of the lines `start..end`: `accept` returning false rejects its
    /// line, which is not counted as visited and is returned as the next line to start from.
    pub fn for_each_line_span_prefix<F: FnMut(usize, usize, usize) -> bool>(
        &self,
        bytes: &[u8],
        start: usize,
        end: usize,
        frontier: usize,
        mut accept: F,
    ) -> (r: usize)
        requires
            self.wf(),
            forall|a: usize, b: usize, c: usize| call_requires(accept, (a, b, c)),
        ensures
            ({
                let e = min_int(end as int, self@.starts.len() as int);
                if start >= e {
                    r == min_int(start as int, e)
                } else if scan_origin(self@, bytes@, start as int).1 is None {
                    r == scan_origin(self@, bytes@, start as int).0
                } else {
                    let sp = spans_of(self@, bytes@, start as int, end as int, frontier as int);
                    &&& start <= r <= e
                    &&& forall|l: int| start <= l < r ==> call_ensures(accept, (l as usize, #[trigger] sp[l - start].0 as usize,
                        sp[l - start].1 as usize), true)
                    &&& r < e ==> call_ensures(accept, (r, sp[r - start].0 as usize, sp[r - start].1 as usize), false)
                }
            }),
    {
        let e = if end <= self.total_lines { end } else { self.total_lines };
        if start >= e {
            return if start <= e { start } else { e };
        }
        let fr = if frontier <= bytes.len() { frontier } else { bytes.len() };
        let (reached, origin) = self.seek_line(bytes, start);
        let mut offset = match origin {
            Some(o) => o,
            None => return reached,
        };
        let ghost a0 = accept;
        let ghost sp = spans_of(self@, bytes@, start as int, end as int, frontier as int);
        let ghost total = self@.starts.len() as int;
        proof {
            lemma_walk_len(bytes@, total, start as int, offset as int, e as int, fr as int);
            assert(sp.skip(0) =~= sp);
        }
        let mut line = start;
        while line < e
            invariant
                self.wf(),
                accept == a0,
                start <= line <= e,
                fr <= bytes@.len(),
                fr as int == min_int(frontier as int, bytes@.len() as int),
                e as int == min_int(end as int, total),
                total == self@.starts.len(),
                forall|a: usize, b: usize, c: usize| call_requires(accept, (a, b, c)),
                sp.skip(line - start) == walk(bytes@, total, line as int, offset as int, e as int, fr as int),
                sp.len() == e - start,
                forall|l: int| start <= l < line ==> call_ensures(accept, (l as usize, #[trigger] sp[l - start].0 as usize,
                    sp[l - start].1 as usize), true),
            ensures
                start <= line <= e,
                forall|l: int| start <= l < line ==> call_ensures(accept, (l as usize, #[trigger] sp[l - start].0 as usize,
                    sp[l - start].1 as usize), true),
                line < e ==> call_ensures(accept, (line, sp[line - start].0 as usize, sp[line - start].1 as usize), false),
            decreases e - line,
        {
            let (cut, le) = self.span_at(bytes, line, offset, fr);
            proof {
                let w = walk(bytes@, total, line as int, offset as int, e as int, fr as int);
                let rest = walk(bytes@, total, line + 1, le as int, e as int, fr as int);
                assert(w == seq![(offset as int, cut as int)] + rest);
                assert(sp.skip(line - start)[0] == sp[line - start]);
                assert(sp.skip(line + 1 - start) =~= w.skip(1));
                assert(w.skip(1) =~= rest);
            }
            if !accept(line, offset, cut) {
                break;
            }
            offset = le;
            line = line + 1;
        }
        line
    }
}

impl Default for Indexer {
    fn default() -> (r: Self)
        ensures
            r.wf(),
            describes(r@),
            r@.starts.len() == 0,
            r@.cursor == 0,
            r@.stride == DEFAULT_CHECKPOINT_STRIDE,
    {
        Self::new()
    }
}

/// One past the first line feed at or after `offset`, as `memchr` finds it.
fn next_line_start(bytes: &[u8], offset: usize) -> (r: Option<usize>)
    ensures
        match r {
            Some(n) => next_start(bytes@, offset as int) == Some(n as int),
            None => next_start(bytes@, offset as int) is None,
        },
{
    if offset > bytes.len() {
        return None;
    }
    let q = bfind(bytes, 10u8, offset);
    if q < bytes.len() {
        Some(q + 1)
    } else {
        None
    }
}

// ---------------------------------------------------------------------------------------
// Lemmas

proof fn lemma_checkpoints_prefix(s: Seq<int>, t: Seq<int>, stride: int, n: int)
    requires
        0 <= n <= s.len(),
        n <= t.len(),
        forall|i: int| 0 <= i < n ==> s[i] == t[i],
    ensures
        checkpoints_of(s, stride, n) == checkpoints_of(t, stride, n),
    decreases n,
{
    if n > 0 {
        lemma_checkpoints_prefix(s, t, stride, n - 1);
    }
}

proof fn lemma_checkpoints_sorted(s: Seq<int>, stride: int, n: int)
    requires
        0 <= n,
    ensures
        forall|a: int, b: int| 0 <= a < b < checkpoints_of(s, stride, n).len() ==> checkpoints_of(s, stride, n)[a].0
            < checkpoints_of(s, stride, n)[b].0,
        forall|a: int| 0 <= a < checkpoints_of(s, stride, n).len() ==> 0 <= #[trigger] checkpoints_of(s, stride, n)[a].0 < n,
    decreases n,
{
    if n > 0 {
        lemma_checkpoints_sorted(s, stride, n - 1);
        let prev = checkpoints_of(s, stride, n - 1);
        let cur = checkpoints_of(s, stride, n);
        assert forall|a: int| 0 <= a < prev.len() implies cur[a] == prev[a] by {}
        if (n - 1) % stride == 0 {
            assert(cur[prev.len() as int].0 == n - 1);
        }
    }
}

proof fn lemma_checkpoint_offsets(s: Seq<int>, stride: int, n: int, k: int)
    requires
        0 <= n <= s.len(),
        0 <= k < checkpoints_of(s, stride, n).len(),
    ensures
        0 <= checkpoints_of(s, stride, n)[k].0 < n,
        checkpoints_of(s, stride, n)[k].1 == s[checkpoints_of(s, stride, n)[k].0],
    decreases n,
{
    if n > 0 {
        if k < checkpoints_of(s, stride, n - 1).len() {
            lemma_checkpoint_offsets(s, stride, n - 1, k);
        }
    }
}

proof fn lemma_checkpoint_index(cps: Seq<(int, int)>, line: int, lo: int, n: int)
    requires
        0 <= lo <= n <= cps.len(),
        forall|a: int| 0 <= a < lo ==> cps[a].0 <= line,
        forall|a: int| lo <= a < n ==> cps[a].0 > line,
    ensures
        checkpoint_index(cps, line, n) == lo - 1,
    decreases n,
{
    if n > lo {
        lemma_checkpoint_index(cps, line, lo, n - 1);
    }
}

/// A strictly increasing list of naturals whose entries are below `bound` has fewer than
/// `bound + 1` entries.
proof fn lemma_increasing_len(s: Seq<int>, bound: int)
    requires
        forall|i: int| 0 <= i < s.len() ==> 0 <= #[trigger] s[i] <= bound,
        forall|i: int, j: int| 0 <= i < j < s.len() ==> s[i] < s[j],
    ensures
        s.len() > 0 ==> s.len() <= bound + 1,
        s.len() > 0 ==> s.len() <= s.last() + 1,
    decreases s.len(),
{
    if s.len() > 0 {
        let t = s.drop_last();
        assert forall|i: int| 0 <= i < t.len() implies 0 <= #[trigger] t[i] <= bound by {
            assert(t[i] == s[i]);
        }
        assert forall|i: int, j: int| 0 <= i < j < t.len() implies t[i] < t[j] by {
            assert(t[i] == s[i] && t[j] == s[j]);
        }
        lemma_increasing_len(t, bound);
        if t.len() > 0 {
            assert(t[t.len() - 1] == s[s.len() - 2]);
            assert(s[s.len() - 2] < s[s.len() - 1]);
        }
        assert(0 <= s[s.len() - 1] <= bound);
    }
}

proof fn lemma_starts_len_bound(s: Seq<int>, p: int)
    requires
        forall|i: int| 0 <= i < s.len() ==> 0 <= #[trigger] s[i] < p,
        forall|i: int, j: int| 0 <= i < j < s.len() ==> s[i] < s[j],
        p < usize::MAX,
    ensures
        s.len() < usize::MAX,
{
    if s.len() > 0 {
        lemma_increasing_len(s, p - 1);
    }
}

proof fn lemma_quiet_range(b: Seq<u8>, c: int, lo: int, hi: int)
    requires
        c <= lo <= hi <= b.len(),
        forall|k: int| lo <= k < hi ==> b[k] != 10u8,
    ensures
        newline_count(b, c, hi) == newline_count(b, c, lo),
        discovered_starts(b, c, hi) == discovered_starts(b, c, lo),
    decreases hi - lo,
{
    if hi > lo {
        lemma_quiet_range(b, c, lo, hi - 1);
    }
}

proof fn lemma_newline_count_bound(b: Seq<u8>, lo: int, hi: int)
    requires
        lo <= hi,
    ensures
        0 <= newline_count(b, lo, hi) <= hi - lo,
    decreases hi - lo,
{
    if hi > lo {
        lemma_newline_count_bound(b, lo, hi - 1);
    }
}

proof fn lemma_newline_split(b: Seq<u8>, a: int, c: int, e: int)
    requires
        a <= c <= e,
    ensures
        newline_count(b, a, e) == newline_count(b, a, c) + newline_count(b, c, e),
    decreases e - c,
{
    if e > c {
        lemma_newline_split(b, a, c, e - 1);
    }
}

proof fn lemma_prefix_newlines(s: Seq<u8>, b: Seq<u8>, n: int)
    requires
        s.is_prefix_of(b),
        0 <= n <= s.len(),
    ensures
        newline_count(s, 0, n) == newline_count(b, 0, n),
    decreases n,
{
    if n > 0 {
        assert(s[n - 1] == b[n - 1]);
        lemma_prefix_newlines(s, b, n - 1);
    }
}

proof fn lemma_prefix_starts(s: Seq<u8>, b: Seq<u8>, n: int)
    requires
        s.is_prefix_of(b),
        0 <= n <= s.len() + 1,
    ensures
        line_starts_below(s, n) == line_starts_below(b, n),
    decreases n,
{
    if n > 0 {
        if n - 1 > 0 {
            assert(s[n - 2] == b[n - 2]);
        }
        assert(is_line_start(s, n - 1) == is_line_start(b, n - 1));
        lemma_prefix_starts(s, b, n - 1);
    }
}

proof fn lemma_line_starts_below(b: Seq<u8>, n: int)
    requires
        0 <= n,
    ensures
        forall|i: int| 0 <= i < line_starts_below(b, n).len() ==> 0 <= #[trigger] line_starts_below(b, n)[i] < n
            && is_line_start(b, line_starts_below(b, n)[i]),
        forall|i: int, j: int| 0 <= i < j < line_starts_below(b, n).len() ==> line_starts_below(b, n)[i]
            < line_starts_below(b, n)[j],
        forall|x: int| 0 <= x < n && is_line_start(b, x) ==> line_starts_below(b, n).contains(x),
        n > 0 ==> line_starts_below(b, n).len() > 0 && line_starts_below(b, n)[0] == 0,
    decreases n,
{
    if n > 0 {
        lemma_line_starts_below(b, n - 1);
        let prev = line_starts_below(b, n - 1);
        if is_line_start(b, n - 1) {
            assert(line_starts_below(b, n)[prev.len() as int] == n - 1);
        }
        assert forall|x: int| 0 <= x < n && is_line_start(b, x) implies line_starts_below(b, n).contains(x) by {
            if x < n - 1 {
                let k = choose|k: int| 0 <= k < prev.len() && prev[k] == x;
                assert(line_starts_below(b, n)[k] == x);
            } else {
                assert(line_starts_below(b, n)[prev.len() as int] == x);
            }
        }
        if n - 1 > 0 {
            assert(prev.len() > 0);
            assert(line_starts_below(b, n)[0] == prev[0]);
        }
    }
}

/// The index an old one describes agrees with the longer text it is now given.
proof fn lemma_describes_prefix(v: IndexerView, b: Seq<u8>)
    requires
        describes(v),
        v.seen.is_prefix_of(b),
    ensures
        v.starts == if v.cursor < v.seen.len() { line_starts_below(b, v.cursor + 1) } else { line_starts_below(b, v.cursor) },
        v.completed == newline_count(b, 0, v.cursor),
{
    if v.cursor < v.seen.len() {
        lemma_prefix_starts(v.seen, b, v.cursor + 1);
    } else {
        lemma_prefix_starts(v.seen, b, v.cursor);
    }
    lemma_prefix_newlines(v.seen, b, v.cursor);
}

/// Opening the line at the cursor, where the text now goes on, brings the starts of an
/// index that describes its text to those of the longer text.
proof fn lemma_open_is_canonical(v: IndexerView, b: Seq<u8>)
    requires
        describes(v),
        v.seen.is_prefix_of(b),
    ensures
        ({
            let c = v.cursor;
            let last = if v.starts.len() > 0 { v.starts.last() } else { 0 };
            let opens = c < b.len() && (v.starts.len() == 0 || (c > 0 && b[c - 1] == 10u8 && last != c));
            (if opens { v.starts.push(if v.starts.len() == 0 { 0 } else { c }) } else { v.starts }) == canonical_starts(b, c)
        }),
{
    let c = v.cursor;
    lemma_describes_prefix(v, b);
    if c < v.seen.len() {
        lemma_line_starts_below(b, c + 1);
        let s = line_starts_below(b, c + 1);
        assert(s.len() > 0);
        if c > 0 && b[c - 1] == 10u8 {
            assert(is_line_start(b, c));
            let k = choose|k: int| 0 <= k < s.len() && s[k] == c;
            if k < s.len() - 1 {
                assert(s[k] < s[s.len() - 1]);
            }
        }
    } else {
        lemma_line_starts_below(b, c);
        if c < b.len() {
            let s = line_starts_below(b, c);
            if c > 0 {
                assert(s.len() > 0);
                assert(s.last() < c);
            }
        }
    }
}

/// Reading on from `c` to `e` adds exactly the starts discovered there.
proof fn lemma_canonical_extends(b: Seq<u8>, c: int, e: int)
    requires
        0 <= c <= e <= b.len(),
    ensures
        canonical_starts(b, c) + discovered_starts(b, c, e) == canonical_starts(b, e),
    decreases e - c,
{
    if e == c {
        assert(canonical_starts(b, c) + discovered_starts(b, c, e) =~= canonical_starts(b, c));
    } else {
        lemma_canonical_extends(b, c, e - 1);
        let prev = canonical_starts(b, c) + discovered_starts(b, c, e - 1);
        if b[e - 1] == 10u8 && e < b.len() {
            assert(canonical_starts(b, c) + discovered_starts(b, c, e) =~= prev.push(e));
        } else {
            assert(canonical_starts(b, c) + discovered_starts(b, c, e) =~= prev);
        }
    }
}

// ---------------------------------------------------------------------------------------
// Laws

/// What an index reads depends on the text and how far it has read, not on the budgets it
/// read them in: two indexes that describe the same text up to the same cursor, with the
/// same stride, are the same.
pub proof fn lemma_index_is_determined(a: IndexerView, b: IndexerView)
    requires
        describes(a),
        describes(b),
        a.seen == b.seen,
        a.cursor == b.cursor,
        a.stride == b.stride,
    ensures
        a == b,
{
}

/// In an index that describes its text, the next line starts one past the line feed that
/// ends the previous one.
proof fn lemma_next_start_of_described(v: IndexerView, b: Seq<u8>, i: int)
    requires
        describes(v),
        v.seen.is_prefix_of(b),
        0 <= i,
        i + 1 < v.starts.len(),
    ensures
        next_start(b, v.starts[i]) == Some(v.starts[i + 1]),
{
    let c = v.cursor;
    let n = if c < v.seen.len() { c + 1 } else { c };
    lemma_describes_prefix(v, b);
    lemma_line_starts_below(b, n);
    let s = v.starts;
    assert(s == line_starts_below(b, n));
    let lo = s[i];
    let hi = s[i + 1];
    assert(lo < hi);
    assert(is_line_start(b, hi));
    assert(hi > 0);
    assert(hi <= v.seen.len());
    assert(b[hi - 1] == 10u8);
    lemma_bfind_bounds(b, 10u8, lo);
    let q = bfind_from(b, 10u8, lo);
    if q < hi - 1 {
        assert(b[q] == 10u8);
        assert(is_line_start(b, q + 1));
        assert(s.contains(q + 1));
        let k = choose|k: int| 0 <= k < s.len() && s[k] == q + 1;
        if k <= i {
            if k < i {
                assert(s[k] < s[i]);
            }
        } else {
            if k > i + 1 {
                assert(s[i + 1] < s[k]);
            }
        }
    }
    assert(q == hi - 1);
}

proof fn lemma_seek_described(v: IndexerView, b: Seq<u8>, line: int, target: int)
    requires
        describes(v),
        v.seen.is_prefix_of(b),
        0 <= line <= target < v.starts.len(),
    ensures
        seek(b, line, v.starts[line], target) == (target, Some(v.starts[target])),
    decreases target - line,
{
    if line < target {
        lemma_next_start_of_described(v, b, line);
        lemma_seek_described(v, b, line + 1, target);
    }
}

proof fn lemma_walk_described(v: IndexerView, b: Seq<u8>, line: int, end: int, f: int)
    requires
        describes(v),
        v.seen.is_prefix_of(b),
        0 <= line < end <= v.starts.len(),
    ensures
        walk(b, v.starts.len() as int, line, v.starts[line], end, f) == Seq::new(
            (end - line) as nat,
            |k: int| described_span(v.starts, line + k, f),
        ),
    decreases end - line,
{
    let total = v.starts.len() as int;
    let le = line_end(b, total, line, v.starts[line], f);
    if line + 1 < total {
        lemma_next_start_of_described(v, b, line);
        assert(le == v.starts[line + 1]);
    } else {
        assert(le == f);
    }
    let rest = walk(b, total, line + 1, le, end, f);
    if line + 1 < end {
        lemma_walk_described(v, b, line + 1, end, f);
        assert(rest == Seq::new((end - line - 1) as nat, |k: int| described_span(v.starts, line + 1 + k, f)));
    } else {
        assert(rest =~= Seq::<(int, int)>::empty());
    }
    let w = walk(b, total, line, v.starts[line], end, f);
    assert(w == seq![(v.starts[line], min_int(le, f))] + rest);
    assert(described_span(v.starts, line, f) == (v.starts[line], min_int(le, f)));
    assert(w =~= Seq::new((end - line) as nat, |k: int| described_span(v.starts, line + k, f)));
}

/// On an index that describes a text, and for that text or any longer one, `line_spans`
/// gives each requested line from its start to the next line's start, the last one to the
/// frontier, and none past the frontier.
pub proof fn lemma_spans_of_described(v: IndexerView, b: Seq<u8>, start: int, end: int, frontier: int)
    requires
        describes(v),
        v.seen.is_prefix_of(b),
        v.stride >= 1,
        0 <= start,
    ensures
        ({
            let e = min_int(end, v.starts.len() as int);
            let f = min_int(frontier, b.len() as int);
            spans_of(v, b, start, end, frontier) == if start >= e {
                Seq::<(int, int)>::empty()
            } else {
                Seq::new((e - start) as nat, |k: int| described_span(v.starts, start + k, f))
            }
        }),
{
    let e = min_int(end, v.starts.len() as int);
    let f = min_int(frontier, b.len() as int);
    if start < e {
        let cps = view_checkpoints(v);
        lemma_checkpoints_sorted(v.starts, v.stride, v.starts.len() as int);
        lemma_first_checkpoint(v.starts, v.stride, v.starts.len() as int);
        lemma_checkpoint_index_found(cps, start, cps.len() as int);
        let k = checkpoint_index(cps, start, cps.len() as int);
        lemma_checkpoint_offsets(v.starts, v.stride, v.starts.len() as int, k);
        lemma_seek_described(v, b, cps[k].0, start);
        assert(scan_origin(v, b, start).1 == Some(v.starts[start]));
        lemma_walk_described(v, b, start, e, f);
        assert(spans_of(v, b, start, end, frontier) == walk(b, v.starts.len() as int, start, v.starts[start], e, f));
        assert(spans_of(v, b, start, end, frontier) =~= Seq::new((e - start) as nat, |k: int| described_span(v.starts, start + k, f)));
    }
}

proof fn lemma_first_checkpoint(s: Seq<int>, stride: int, n: int)
    requires
        0 < n,
        stride >= 1,
    ensures
        checkpoints_of(s, stride, n).len() > 0,
        checkpoints_of(s, stride, n)[0].0 == 0,
    decreases n,
{
    if n > 1 {
        lemma_first_checkpoint(s, stride, n - 1);
        assert(checkpoints_of(s, stride, n)[0] == checkpoints_of(s, stride, n - 1)[0]);
    } else {
        assert(0int % stride == 0);
        assert(checkpoints_of(s, stride, 0).len() == 0);
        assert(checkpoints_of(s, stride, 1) == checkpoints_of(s, stride, 0).push((0, s[0])));
    }
}

proof fn lemma_checkpoint_index_found(cps: Seq<(int, int)>, line: int, n: int)
    requires
        0 < n <= cps.len(),
        cps[0].0 <= line,
    ensures
        0 <= checkpoint_index(cps, line, n) < n,
        cps[checkpoint_index(cps, line, n)].0 <= line,
    decreases n,
{
    if n > 1 && cps[n - 1].0 > line {
        lemma_checkpoint_index_found(cps, line, n - 1);
    }
}

} // verus!
