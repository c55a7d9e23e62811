//! Range queries: which tiles to read, and which of their ranges start inside the query.
use vstd::prelude::*;

use crate::index::{ContigRange, span_end};
use crate::loader::IndexHeader;
use crate::sort::sorted_by_start;

verus! {

/// Why a range query has no answer.
#[derive(Clone, Copy, Debug, PartialEq, Eq, Structural)]
pub enum QueryError {
    /// No contig of the index has the queried name.
    UnknownContig,
    /// The query starts past the last indexed tile of its contig.
    OutOfRange,
}

/// The contig and the inclusive range of its tiles that a query reads.
#[derive(Clone, Copy, Debug, PartialEq, Eq, Structural)]
pub struct TileSpan {
    pub contig: usize,
    pub first_tile: u64,
    pub last_tile: u64,
}

/// The ranges of `s` that start in `[lo, hi)` and reach past base `past` (see `span_end`),
/// in their order in `s`.
pub open spec fn window(s: Seq<ContigRange>, lo: int, hi: int, past: int) -> Seq<ContigRange>
    decreases s.len(),
{
    if s.len() == 0 {
        seq![]
    } else {
        let p = window(s.drop_last(), lo, hi, past);
        if lo <= s.last().start_bp && s.last().start_bp < hi && span_end(s.last()) > past {
            p.push(s.last())
        } else {
            p
        }
    }
}

/// Lower bound on the starts taken from the `k`-th tile read: none for the first tile, the
/// tile's own first base for the others (their earlier ranges were taken before).
pub open spec fn lower_bound(first: int, ts: int, k: int) -> int {
    if k == 0 {
        0
    } else {
        (first + k) * ts
    }
}

/// What a range taken from the `k`-th tile read must reach past: the query start for the first
/// tile, so that ranges replicated into it from earlier tiles count where they overlap the
/// query; for later tiles the bound below their own first base, which every range taken meets.
pub open spec fn reach_bound(first: int, ts: int, q_start: int, k: int) -> int {
    if k == 0 {
        q_start
    } else {
        (first + k) * ts - 1
    }
}

/// What a query over tiles `first, first + 1, ...` (given in `tiles`) emits from the first `n` of them.
pub open spec fn hits(
    tiles: Seq<Seq<ContigRange>>,
    first: int,
    ts: int,
    q_start: int,
    q_end: int,
    n: nat,
) -> Seq<ContigRange>
    decreases n,
{
    if n == 0 {
        seq![]
    } else {
        hits(tiles, first, ts, q_start, q_end, (n - 1) as nat) + window(
            tiles[n - 1],
            lower_bound(first, ts, n - 1),
            q_end,
            reach_bound(first, ts, q_start, n - 1),
        )
    }
}

/// The ranges of tile `first + k` (held in `tiles[k]`) all touch that tile: they start before its end.
pub open spec fn starts_within(tiles: Seq<Seq<ContigRange>>, first: int, ts: int) -> bool {
    forall|k: int, i: int|
        0 <= k < tiles.len() && 0 <= i < tiles[k].len() ==> (#[trigger] tiles[k][i]).start_bp < (
        first + k + 1) * ts
}

pub open spec fn all_sorted(tiles: Seq<Seq<ContigRange>>) -> bool {
    forall|k: int| 0 <= k < tiles.len() ==> sorted_by_start(#[trigger] tiles[k])
}

proof fn lemma_window_prefix(s: Seq<ContigRange>, lo: int, hi: int, past: int, i: int)
    requires
        0 <= i <= s.len(),
        forall|j: int| i <= j < s.len() ==> s[j].start_bp >= hi,
    ensures
        window(s, lo, hi, past) == window(s.take(i), lo, hi, past),
    decreases s.len() - i,
{
    if i == s.len() {
        assert(s.take(i) =~= s);
    } else {
        lemma_window_prefix(s.drop_last(), lo, hi, past, i);
        assert(s.drop_last().take(i) =~= s.take(i));
    }
}

/// Whether `r` reaches past base `past`: `span_end(r) > past`.
fn reaches_past(r: &ContigRange, past: u64) -> (b: bool)
    ensures
        b == (span_end(*r) > past),
{
    r.end_bp > past || (r.end_bp <= r.start_bp && r.start_bp >= past)
}

/// The ranges of the first tile read that overlap the query: those starting before `q_end`
/// and reaching past `q_start`, including ranges replicated into this tile from earlier ones.
/// A left-bisecting binary search finds the first start at or past `q_end`; the ranges before
/// it are then taken in order where they reach past `q_start`.
pub fn first_tile_hits(ranges: &[ContigRange], q_start: u64, q_end: u64) -> (r: Vec<ContigRange>)
    requires
        sorted_by_start(ranges@),
    ensures
        r@ == window(ranges@, 0, q_end as int, q_start as int),
{
    let n = ranges.len();
    let mut out: Vec<ContigRange> = Vec::new();
    if n == 0 || ranges[0].start_bp >= q_end {
        proof {
            assert forall|j: int| 0 <= j < n implies ranges@[j].start_bp >= q_end by {
                assert(ranges@[0].start_bp <= ranges@[j].start_bp);
            }
            lemma_window_prefix(ranges@, 0, q_end as int, q_start as int, 0);
            assert(ranges@.take(0) =~= Seq::<ContigRange>::empty());
        }
        return out;
    }
    let mut left: usize = 0;
    let mut right: usize = n;
    while left < right
        invariant
            n == ranges@.len(),
            sorted_by_start(ranges@),
            left <= right <= n,
            forall|i: int| 0 <= i < left ==> ranges@[i].start_bp < q_end,
            forall|i: int| right <= i < n ==> ranges@[i].start_bp >= q_end,
        decreases right - left,
    {
        let mid = left + (right - left) / 2;
        if ranges[mid].start_bp < q_end {
            left = mid + 1;
        } else {
            right = mid;
        }
    }
    let k = left;
    let mut i: usize = 0;
    while i < k
        invariant
            i <= k <= n,
            n == ranges@.len(),
            forall|j: int| 0 <= j < k ==> ranges@[j].start_bp < q_end,
            out@ == window(ranges@.take(i as int), 0, q_end as int, q_start as int),
        decreases k - i,
    {
        let r = ranges[i];
        assert(ranges@.take(i + 1).drop_last() =~= ranges@.take(i as int));
        if reaches_past(&r, q_start) {
            out.push(r);
        }
        i = i + 1;
    }
    proof {
        lemma_window_prefix(ranges@, 0, q_end as int, q_start as int, k as int);
    }
    out
}

/// The ranges of a later tile, starting at base pair `tile_start`, that start in
/// `[tile_start, q_end)`: earlier starts are replicas already taken, and the scan stops at the
/// first start at or past `q_end`.
pub fn later_tile_hits(ranges: &[ContigRange], tile_start: u64, q_end: u64) -> (r: Vec<
    ContigRange,
>)
    requires
        sorted_by_start(ranges@),
        tile_start > 0,
    ensures
        r@ == window(ranges@, tile_start as int, q_end as int, tile_start - 1),
{
    let n = ranges.len();
    let mut out: Vec<ContigRange> = Vec::new();
    let mut i: usize = 0;
    while i < n
        invariant
            n == ranges@.len(),
            sorted_by_start(ranges@),
            i <= n,
            out@ == window(ranges@.take(i as int), tile_start as int, q_end as int, tile_start - 1),
        decreases n - i,
    {
        let r = ranges[i];
        assert(ranges@.take(i + 1).drop_last() =~= ranges@.take(i as int));
        if r.start_bp >= q_end {
            proof {
                assert forall|j: int| i <= j < n implies ranges@[j].start_bp >= q_end by {
                    assert(ranges@[i as int].start_bp <= ranges@[j].start_bp);
                }
                lemma_window_prefix(ranges@, tile_start as int, q_end as int, tile_start - 1, i as int);
            }
            return out;
        }
        if r.start_bp >= tile_start {
            out.push(r);
        }
        i = i + 1;
    }
    assert(ranges@.take(n as int) =~= ranges@);
    out
}

/// Two ranges stand for the same record: same file, same virtual position.
pub open spec fn same_record(a: ContigRange, b: ContigRange) -> bool {
    a.bed_idx == b.bed_idx && a.bgzf_pos == b.bgzf_pos
}

/// No record appears twice in `s`.
pub open spec fn no_repeats(s: Seq<ContigRange>) -> bool {
    forall|i: int, j: int| 0 <= i < j < s.len() ==> !same_record(#[trigger] s[i], #[trigger] s[j])
}

/// Copies of one record in different tiles are identical.
pub open spec fn replicas_agree(tiles: Seq<Seq<ContigRange>>) -> bool {
    forall|k1: int, i1: int, k2: int, i2: int|
        0 <= k1 < tiles.len() && 0 <= i1 < tiles[k1].len() && 0 <= k2 < tiles.len() && 0 <= i2
            < tiles[k2].len() && same_record(#[trigger] tiles[k1][i1], #[trigger] tiles[k2][i2])
            ==> tiles[k1][i1] == tiles[k2][i2]
}

pub proof fn lemma_window_members(s: Seq<ContigRange>, lo: int, hi: int, past: int)
    ensures
        forall|i: int|
            0 <= i < window(s, lo, hi, past).len() ==> {
                &&& lo <= (#[trigger] window(s, lo, hi, past)[i]).start_bp < hi
                &&& exists|j: int| 0 <= j < s.len() && s[j] == window(s, lo, hi, past)[i]
            },
        sorted_by_start(s) ==> sorted_by_start(window(s, lo, hi, past)),
        no_repeats(s) ==> no_repeats(window(s, lo, hi, past)),
    decreases s.len(),
{
    if s.len() > 0 {
        let p = s.drop_last();
        lemma_window_members(p, lo, hi, past);
        let w = window(s, lo, hi, past);
        let wp = window(p, lo, hi, past);
        assert forall|i: int| 0 <= i < w.len() implies {
            &&& lo <= (#[trigger] w[i]).start_bp < hi
            &&& exists|j: int| 0 <= j < s.len() && s[j] == w[i]
        } by {
            if i < wp.len() {
                let j = choose|j: int| 0 <= j < p.len() && p[j] == wp[i];
                assert(s[j] == w[i]);
            } else {
                assert(s[s.len() - 1] == w[i]);
            }
        }
        if sorted_by_start(s) {
            assert(sorted_by_start(p));
            assert forall|a: int, b: int| 0 <= a <= b < w.len() implies w[a].start_bp
                <= w[b].start_bp by {
                if b == wp.len() && a < b {
                    let j = choose|j: int| 0 <= j < p.len() && p[j] == wp[a];
                    assert(s[j] == wp[a]);
                }
            }
        }
        if no_repeats(s) {
            assert(no_repeats(p));
            assert forall|a: int, b: int| 0 <= a < b < w.len() implies !same_record(
                #[trigger] w[a],
                #[trigger] w[b],
            ) by {
                if b == wp.len() {
                    let j = choose|j: int| 0 <= j < p.len() && p[j] == wp[a];
                    assert(s[j] == wp[a]);
                    assert(s[s.len() - 1] == w[b]);
                }
            }
        }
    }
}

proof fn lemma_hits_members(
    tiles: Seq<Seq<ContigRange>>,
    first: int,
    ts: int,
    q_start: int,
    q_end: int,
    n: nat,
)
    requires
        n <= tiles.len(),
        first >= 0,
        ts > 0,
        starts_within(tiles, first, ts),
    ensures
        forall|i: int|
            0 <= i < hits(tiles, first, ts, q_start, q_end, n).len() ==> {
                &&& (#[trigger] hits(tiles, first, ts, q_start, q_end, n)[i]).start_bp < (first + n)
                    * ts
                &&& exists|k: int, j: int|
                    0 <= k < n && 0 <= j < tiles[k].len() && tiles[k][j] == hits(
                        tiles,
                        first,
                        ts,
                        q_start,
                        q_end,
                        n,
                    )[i]
            },
    decreases n,
{
    if n > 0 {
        let m = (n - 1) as nat;
        lemma_hits_members(tiles, first, ts, q_start, q_end, m);
        let h = hits(tiles, first, ts, q_start, q_end, n);
        let hp = hits(tiles, first, ts, q_start, q_end, m);
        let lo = lower_bound(first, ts, m as int);
        let past = reach_bound(first, ts, q_start, m as int);
        let w = window(tiles[m as int], lo, q_end, past);
        lemma_window_members(tiles[m as int], lo, q_end, past);
        assert((first + m) * ts <= (first + n) * ts) by (nonlinear_arith)
            requires
                m < n,
                ts > 0,
        ;
        assert forall|i: int| 0 <= i < h.len() implies {
            &&& (#[trigger] h[i]).start_bp < (first + n) * ts
            &&& exists|k: int, j: int| 0 <= k < n && 0 <= j < tiles[k].len() && tiles[k][j] == h[i]
        } by {
            if i < hp.len() {
                assert(h[i] == hp[i]);
            } else {
                assert(h[i] == w[i - hp.len()]);
                let j = choose|j: int|
                    0 <= j < tiles[m as int].len() && tiles[m as int][j] == w[i - hp.len()];
                assert(tiles[m as int][j].start_bp < (first + m + 1) * ts);
            }
        }
    }
}

/// Results come out in order of start: over tiles as the index persists them (each sorted by
/// start, each range starting before the end of its tile), the emitted starts never decrease.
pub proof fn lemma_hits_sorted(
    tiles: Seq<Seq<ContigRange>>,
    first: int,
    ts: int,
    q_start: int,
    q_end: int,
    n: nat,
)
    requires
        n <= tiles.len(),
        first >= 0,
        ts > 0,
        all_sorted(tiles),
        starts_within(tiles, first, ts),
    ensures
        sorted_by_start(hits(tiles, first, ts, q_start, q_end, n)),
    decreases n,
{
    if n > 0 {
        let m = (n - 1) as nat;
        lemma_hits_sorted(tiles, first, ts, q_start, q_end, m);
        lemma_hits_members(tiles, first, ts, q_start, q_end, m);
        let lo = lower_bound(first, ts, m as int);
        let past = reach_bound(first, ts, q_start, m as int);
        lemma_window_members(tiles[m as int], lo, q_end, past);
        let h = hits(tiles, first, ts, q_start, q_end, n);
        let hp = hits(tiles, first, ts, q_start, q_end, m);
        let w = window(tiles[m as int], lo, q_end, past);
        assert forall|a: int, b: int| 0 <= a <= b < h.len() implies h[a].start_bp
            <= h[b].start_bp by {
            if b >= hp.len() && a < hp.len() {
                assert(h[a] == hp[a]);
                assert(h[b] == w[b - hp.len()]);
                assert(hp[a].start_bp < (first + m) * ts);
            } else if a >= hp.len() {
                assert(h[a] == w[a - hp.len()]);
                assert(h[b] == w[b - hp.len()]);
            } else {
                assert(h[a] == hp[a]);
                assert(h[b] == hp[b]);
            }
        }
    }
}

/// No record is emitted twice: over tiles that each hold a record at most once, whose copies
/// of one record agree, and whose ranges start before the end of their tile, the emitted
/// ranges are pairwise distinct records.
pub proof fn lemma_hits_distinct(
    tiles: Seq<Seq<ContigRange>>,
    first: int,
    ts: int,
    q_start: int,
    q_end: int,
    n: nat,
)
    requires
        n <= tiles.len(),
        first >= 0,
        ts > 0,
        forall|k: int| 0 <= k < tiles.len() ==> no_repeats(#[trigger] tiles[k]),
        replicas_agree(tiles),
        starts_within(tiles, first, ts),
    ensures
        no_repeats(hits(tiles, first, ts, q_start, q_end, n)),
    decreases n,
{
    if n > 0 {
        let m = (n - 1) as nat;
        lemma_hits_distinct(tiles, first, ts, q_start, q_end, m);
        lemma_hits_members(tiles, first, ts, q_start, q_end, m);
        let lo = lower_bound(first, ts, m as int);
        let past = reach_bound(first, ts, q_start, m as int);
        lemma_window_members(tiles[m as int], lo, q_end, past);
        let h = hits(tiles, first, ts, q_start, q_end, n);
        let hp = hits(tiles, first, ts, q_start, q_end, m);
        let w = window(tiles[m as int], lo, q_end, past);
        assert forall|a: int, b: int| 0 <= a < b < h.len() implies !same_record(
            #[trigger] h[a],
            #[trigger] h[b],
        ) by {
            if b >= hp.len() && a < hp.len() {
                assert(h[a] == hp[a]);
                assert(h[b] == w[b - hp.len()]);
                let (k, j) = choose|k: int, j: int|
                    0 <= k < m && 0 <= j < tiles[k].len() && tiles[k][j] == hp[a];
                let j2 = choose|j2: int|
                    0 <= j2 < tiles[m as int].len() && tiles[m as int][j2] == w[b - hp.len()];
                if same_record(h[a], h[b]) {
                    assert(tiles[k][j] == tiles[m as int][j2]);
                }
            } else if a >= hp.len() {
                assert(h[a] == w[a - hp.len()]);
                assert(h[b] == w[b - hp.len()]);
            } else {
                assert(h[a] == hp[a]);
                assert(h[b] == hp[b]);
            }
        }
    }
}

impl IndexHeader {
    /// Resolves a query on contig `contig` over `[q_start, q_end)` to the tiles it reads:
    /// from the tile holding `q_start` to the one holding `q_end - 1`, cut at the contig's last tile.
    pub fn plan_query(&self, contig: &[u8], q_start: u64, q_end: u64) -> (r: Result<
        TileSpan,
        QueryError,
    >)
        requires
            self.wf(),
            q_start < q_end,
        ensures
            (forall|c: int|
                0 <= c < self.contig_names@.len() ==> (#[trigger] self.contig_names@[c])@
                    != contig@) <==> r == Err::<TileSpan, _>(QueryError::UnknownContig),
            r matches Ok(span) ==> {
                &&& span.contig < self.contig_names@.len()
                &&& self.contig_names@[span.contig as int]@ == contig@
                &&& forall|k: int|
                    0 <= k < span.contig ==> (#[trigger] self.contig_names@[k])@ != contig@
                &&& span.first_tile == q_start / (self.tile_size as u64)
                &&& span.first_tile < self.tile_counts@[span.contig as int]
                &&& span.last_tile == if (q_end as int - 1) / (self.tile_size as int)
                    < self.tile_counts@[span.contig as int] {
                    (q_end as int - 1) / (self.tile_size as int)
                } else {
                    self.tile_counts@[span.contig as int] - 1
                }
            },
            r == Err::<TileSpan, _>(QueryError::OutOfRange) ==> exists|c: int|
                {
                    &&& 0 <= c < self.contig_names@.len()
                    &&& (#[trigger] self.contig_names@[c])@ == contig@
                    &&& forall|k: int|
                        0 <= k < c ==> (#[trigger] self.contig_names@[k])@ != contig@
                    &&& (q_start as int) / (self.tile_size as int) >= self.tile_counts@[c]
                },
    {
        let c = match self.contig_index(contig) {
            Some(c) => c,
            None => return Err(QueryError::UnknownContig),
        };
        let size = self.tile_size as u64;
        let n = self.tile_counts[c] as u64;
        let first = q_start / size;
        if first >= n {
            return Err(QueryError::OutOfRange);
        }
        let mut last = (q_end - 1) / size;
        if last >= n {
            last = n - 1;
        }
        Ok(TileSpan { contig: c, first_tile: first, last_tile: last })
    }
}

/// The ranges that a query over `[q_start, q_end)` emits from the tiles it reads, `tiles[k]`
/// holding tile `first + k` with `tile_size` base pairs per tile: from the first tile those
/// that overlap the query (starting before `q_end` and reaching past `q_start`, so that a range
/// replicated into it from an earlier tile counts too), from each later one those starting
/// between its own first base and `q_end`. A record overlapping the query is so emitted once,
/// in order of start (`lemma_query_exact`, `lemma_query_distinct_sorted`).
pub fn search_tiles(
    tiles: &Vec<Vec<ContigRange>>,
    first: u64,
    tile_size: u32,
    q_start: u64,
    q_end: u64,
) -> (r: Vec<ContigRange>)
    requires
        all_sorted(tiles@.map_values(|t: Vec<ContigRange>| t@)),
        tile_size > 0,
        (first + tiles@.len()) * tile_size <= u64::MAX,
    ensures
        r@ == hits(
            tiles@.map_values(|t: Vec<ContigRange>| t@),
            first as int,
            tile_size as int,
            q_start as int,
            q_end as int,
            tiles@.len(),
        ),
{
    let ghost ts = tiles@.map_values(|t: Vec<ContigRange>| t@);
    let mut out: Vec<ContigRange> = Vec::new();
    let mut k: usize = 0;
    while k < tiles.len()
        invariant
            ts == tiles@.map_values(|t: Vec<ContigRange>| t@),
            all_sorted(ts),
            tile_size > 0,
            (first + tiles@.len()) * tile_size <= u64::MAX,
            k <= tiles@.len(),
            out@ == hits(ts, first as int, tile_size as int, q_start as int, q_end as int, k as nat),
        decreases tiles@.len() - k,
    {
        assert(ts[k as int] == tiles@[k as int]@);
        let found = if k == 0 {
            first_tile_hits(tiles[k].as_slice(), q_start, q_end)
        } else {
            assert((first + k) * tile_size <= (first + tiles@.len()) * tile_size) by (nonlinear_arith)
                requires
                    k < tiles@.len(),
            ;
            assert(first + k <= (first + k) * tile_size) by (nonlinear_arith)
                requires
                    tile_size > 0,
            ;
            let base = (first + k as u64) * (tile_size as u64);
            assert(base > 0) by (nonlinear_arith)
                requires
                    base == (first + k) * tile_size,
                    k >= 1,
                    tile_size > 0,
            ;
            later_tile_hits(tiles[k].as_slice(), base, q_end)
        };
        let ghost before = out@;
        let mut found = found;
        out.append(&mut found);
        assert(out@ =~= hits(
            ts,
            first as int,
            tile_size as int,
            q_start as int,
            q_end as int,
            (k + 1) as nat,
        ));
        k = k + 1;
    }
    out
}

} // verus!
