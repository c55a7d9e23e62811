//! A query over a whole contig finds each of its records exactly once.
use vstd::prelude::*;

use crate::format::index_bytes;
use crate::loader::{IndexHeader, range_at};
use crate::round_trip::{lemma_persist_load, names_storable};
use crate::index::{
    span_end, ContigIndex, ContigRange, Ingested, covers, distinct_records, first_tile, key_count, last_tile,
    tile_ranges,
};
use crate::query::{
    all_sorted, hits, lemma_window_members, lemma_hits_distinct, lemma_hits_sorted, lower_bound, no_repeats, reach_bound,
    replicas_agree, same_record, starts_within, window,
};
use crate::sort::{
    lemma_sort_stable, with_start, insert_by_start, lemma_sort_members, lemma_sort_sorted, sort_by_start, sorted_by_start,
};

verus! {

/// How many ranges of `s` come from the record at `bgzf_pos` of file `bed_idx`, start in
/// `[lo, hi)` and reach past base `past`.
pub open spec fn window_count(
    s: Seq<ContigRange>,
    bed_idx: u32,
    bgzf_pos: u64,
    lo: int,
    hi: int,
    past: int,
) -> nat
    decreases s.len(),
{
    if s.len() == 0 {
        0
    } else {
        window_count(s.drop_last(), bed_idx, bgzf_pos, lo, hi, past) + if s.last().bed_idx == bed_idx
            && s.last().bgzf_pos == bgzf_pos && lo <= s.last().start_bp && s.last().start_bp < hi
            && span_end(s.last()) > past {
            1nat
        } else {
            0nat
        }
    }
}

proof fn lemma_key_count_add(a: Seq<ContigRange>, b: Seq<ContigRange>, f: u32, p: u64)
    ensures
        key_count(a + b, f, p) == key_count(a, f, p) + key_count(b, f, p),
    decreases b.len(),
{
    if b.len() == 0 {
        assert(a + b =~= a);
    } else {
        lemma_key_count_add(a, b.drop_last(), f, p);
        assert((a + b).drop_last() =~= a + b.drop_last());
    }
}

proof fn lemma_window_count(s: Seq<ContigRange>, f: u32, p: u64, lo: int, hi: int, past: int)
    ensures
        key_count(window(s, lo, hi, past), f, p) == window_count(s, f, p, lo, hi, past),
    decreases s.len(),
{
    if s.len() > 0 {
        lemma_window_count(s.drop_last(), f, p, lo, hi, past);
        let w = window(s.drop_last(), lo, hi, past);
        assert(w.push(s.last()).drop_last() =~= w);
    }
}

proof fn lemma_insert_count(s: Seq<ContigRange>, r: ContigRange, f: u32, p: u64, lo: int, hi: int, past: int)
    ensures
        window_count(insert_by_start(s, r), f, p, lo, hi, past) == window_count(s, f, p, lo, hi, past) + if r.bed_idx
            == f && r.bgzf_pos == p && lo <= r.start_bp && r.start_bp < hi && span_end(r) > past {
            1nat
        } else {
            0nat
        },
    decreases s.len(),
{
    if s.len() == 0 || s.last().start_bp <= r.start_bp {
        assert(s.push(r).drop_last() =~= s);
    } else {
        let q = insert_by_start(s.drop_last(), r);
        lemma_insert_count(s.drop_last(), r, f, p, lo, hi, past);
        assert(q.push(s.last()).drop_last() =~= q);
    }
}

proof fn lemma_sort_count(s: Seq<ContigRange>, f: u32, p: u64, lo: int, hi: int, past: int)
    ensures
        window_count(sort_by_start(s), f, p, lo, hi, past) == window_count(s, f, p, lo, hi, past),
    decreases s.len(),
{
    if s.len() > 0 {
        lemma_sort_count(s.drop_last(), f, p, lo, hi, past);
        lemma_insert_count(sort_by_start(s.drop_last()), s.last(), f, p, lo, hi, past);
    }
}

proof fn lemma_absent_window(recs: Seq<Ingested>, ts: nat, name: Seq<u8>, t: int, f: u32, p: u64, lo: int, hi: int, past: int)
    requires
        forall|j: int|
            0 <= j < recs.len() ==> !((#[trigger] recs[j]).1.bed_idx == f && recs[j].1.bgzf_pos == p),
    ensures
        window_count(tile_ranges(recs, ts, name, t), f, p, lo, hi, past) == 0,
    decreases recs.len(),
{
    if recs.len() > 0 {
        let prev = recs.drop_last();
        assert forall|j: int| 0 <= j < prev.len() implies !((#[trigger] prev[j]).1.bed_idx == f
            && prev[j].1.bgzf_pos == p) by {
            assert(prev[j] == recs[j]);
        }
        lemma_absent_window(prev, ts, name, t, f, p, lo, hi, past);
        let q = tile_ranges(prev, ts, name, t);
        assert(q.push(recs.last().1).drop_last() =~= q);
    }
}

/// Within one tile, only the record itself can count.
proof fn lemma_tile_window(recs: Seq<Ingested>, ts: nat, name: Seq<u8>, t: int, i: int, lo: int, hi: int, past: int)
    requires
        distinct_records(recs),
        0 <= i < recs.len(),
    ensures
        window_count(tile_ranges(recs, ts, name, t), recs[i].1.bed_idx, recs[i].1.bgzf_pos, lo, hi, past)
            == if recs[i].0 == name && covers(ts, recs[i].1, t) && lo <= recs[i].1.start_bp
            && recs[i].1.start_bp < hi && span_end(recs[i].1) > past {
            1nat
        } else {
            0nat
        },
    decreases recs.len(),
{
    let prev = recs.drop_last();
    let (f, p) = (recs[i].1.bed_idx, recs[i].1.bgzf_pos);
    let q = tile_ranges(prev, ts, name, t);
    assert(q.push(recs.last().1).drop_last() =~= q);
    if i < recs.len() - 1 {
        assert(prev[i] == recs[i]);
        assert forall|a: int, b: int| 0 <= a < b < prev.len() implies !(prev[a].1.bed_idx
            == prev[b].1.bed_idx && prev[a].1.bgzf_pos == prev[b].1.bgzf_pos) by {
            assert(prev[a] == recs[a] && prev[b] == recs[b]);
        }
        lemma_tile_window(prev, ts, name, t, i, lo, hi, past);
    } else {
        assert forall|j: int| 0 <= j < prev.len() implies !((#[trigger] prev[j]).1.bed_idx == f
            && prev[j].1.bgzf_pos == p) by {
            assert(prev[j] == recs[j]);
        }
        lemma_absent_window(prev, ts, name, t, f, p, lo, hi, past);
    }
}

/// The tiles of contig `c` as persisted: each sorted by start.
pub open spec fn persisted_tiles(idx: &ContigIndex, c: int) -> Seq<Seq<ContigRange>> {
    idx.tiles(c).map_values(|t: Seq<ContigRange>| sort_by_start(t))
}

/// Whether `r` overlaps the query `[q_start, q_end)`: it starts before the query ends and
/// reaches past its start.
pub open spec fn overlaps(r: ContigRange, q_start: int, q_end: int) -> bool {
    r.start_bp < q_end && span_end(r) > q_start
}

proof fn lemma_hits_count(
    idx: &ContigIndex,
    c: int,
    i: int,
    tiles: Seq<Seq<ContigRange>>,
    first: int,
    q_start: int,
    q_end: int,
    n: nat,
)
    requires
        idx.wf(),
        distinct_records(idx.records()),
        0 <= c < idx.names().len(),
        0 <= i < idx.records().len(),
        idx.records()[i].0 == idx.names()[c],
        0 <= q_start,
        first == q_start / (idx.spec_tile_size() as int),
        first + n <= idx.tiles(c).len(),
        n <= tiles.len(),
        forall|k: int| 0 <= k < n ==> #[trigger] tiles[k] == persisted_tiles(idx, c)[first + k],
    ensures
        key_count(
            hits(tiles, first, idx.spec_tile_size() as int, q_start, q_end, n),
            idx.records()[i].1.bed_idx,
            idx.records()[i].1.bgzf_pos,
        ) == if n > 0 && overlaps(idx.records()[i].1, q_start, q_end) && first_tile(
            idx.spec_tile_size(),
            idx.records()[i].1,
        ) < first + n {
            1nat
        } else {
            0nat
        },
    decreases n,
{
    let ts = idx.spec_tile_size();
    let t = ts as int;
    let recs = idx.records();
    let r = recs[i].1;
    if n > 0 {
        let k = n - 1;
        lemma_hits_count(idx, c, i, tiles, first, q_start, q_end, (n - 1) as nat);
        let lo = lower_bound(first, t, k);
        let past = reach_bound(first, t, q_start, k);
        let w = window(tiles[k], lo, q_end, past);
        lemma_key_count_add(hits(tiles, first, t, q_start, q_end, (n - 1) as nat), w, r.bed_idx, r.bgzf_pos);
        lemma_window_count(tiles[k], r.bed_idx, r.bgzf_pos, lo, q_end, past);
        let raw = idx.tiles(c)[first + k];
        assert(tiles[k] == sort_by_start(raw));
        lemma_sort_count(raw, r.bed_idx, r.bgzf_pos, lo, q_end, past);
        assert(raw == tile_ranges(recs, ts, idx.names()[c], first + k));
        lemma_tile_window(recs, ts, idx.names()[c], first + k, i, lo, q_end, past);
        let f = first_tile(ts, r);
        let st = r.start_bp as int;
        let se = span_end(r);
        assert(f * t <= st < (f + 1) * t) by (nonlinear_arith)
            requires
                f == st / t,
                t > 0,
        ;
        assert(first * t <= q_start < (first + 1) * t) by (nonlinear_arith)
            requires
                first == q_start / t,
                t > 0,
                q_start >= 0,
        ;
        assert(last_tile(ts, r) >= f) by (nonlinear_arith)
            requires
                f == st / t,
                last_tile(ts, r) == (se - 1) / t,
                st <= se - 1,
                t > 0,
        ;
        let term: nat = if covers(ts, r, first + k) && lo <= st && st < q_end && se > past {
            1
        } else {
            0
        };
        let h = hits(tiles, first, t, q_start, q_end, n);
        let hp = hits(tiles, first, t, q_start, q_end, (n - 1) as nat);
        assert(h == hp + w);
        assert(key_count(w, r.bed_idx, r.bgzf_pos) == term);
        assert(key_count(h, r.bed_idx, r.bgzf_pos) == key_count(hp, r.bed_idx, r.bgzf_pos) + term);
        let ov = overlaps(r, q_start, q_end);
        let goal: nat = if ov && f < first + n { 1 } else { 0 };
        let before: nat = if n - 1 > 0 && ov && f < first + k { 1 } else { 0 };
        assert(key_count(hp, r.bed_idx, r.bgzf_pos) == before);
        if k == 0 {
            // the first tile: the record counts where it overlaps the query and touches the tile
            assert(lo == 0 && past == q_start);
            assert(before == 0);
            if f <= first && se > q_start {
                assert(last_tile(ts, r) >= first) by (nonlinear_arith)
                    requires
                        last_tile(ts, r) == (se - 1) / t,
                        se - 1 >= first * t,
                        t > 0,
                ;
                assert(covers(ts, r, first));
            }
            assert(term == goal);
        } else {
            assert(lo == (first + k) * t && past == lo - 1);
            assert((first + 1) * t <= (first + k) * t) by (nonlinear_arith)
                requires
                    k >= 1,
                    t > 0,
            ;
            if f == first + k {
                assert(covers(ts, r, first + k));
                assert(term == if st < q_end { 1nat } else { 0nat });
                assert(before == 0);
                assert(term == goal);
            } else if f > first + k {
                assert(!covers(ts, r, first + k));
                assert(term == 0);
                assert(before == goal);
            } else {
                assert(f * t + t <= (first + k) * t) by (nonlinear_arith)
                    requires
                        f < first + k,
                        t > 0,
                ;
                assert((f + 1) * t == f * t + t) by (nonlinear_arith);
                assert(st < lo);
                assert(term == 0);
                assert(before == goal);
            }
        }
    }
}

/// The tiles a query reads: tiles `first..=last` of contig `c` as persisted.
pub open spec fn query_tiles(idx: &ContigIndex, c: int, first: int, last: int) -> Seq<
    Seq<ContigRange>,
> {
    persisted_tiles(idx, c).subrange(first, last + 1)
}

/// A query emits exactly the records that overlap it, each once: over the persisted tiles of
/// contig `c` from the tile holding `q_start` to the one holding `q_end - 1` (cut at the last
/// tile), as `plan_query` chooses them and `search_tiles` reads them, a record of `c` is
/// emitted once if it starts before `q_end` and reaches past `q_start` (ranges replicated
/// into the first tile from earlier tiles included), and not at all otherwise (records are
/// told apart by file and virtual position).
pub proof fn lemma_query_exact(idx: &ContigIndex, c: int, i: int, q_start: int, q_end: int)
    requires
        idx.wf(),
        distinct_records(idx.records()),
        0 <= c < idx.names().len(),
        0 <= i < idx.records().len(),
        idx.records()[i].0 == idx.names()[c],
        0 <= q_start < q_end,
        q_start / (idx.spec_tile_size() as int) < idx.tiles(c).len(),
    ensures
        ({
            let t = idx.spec_tile_size() as int;
            let first = q_start / t;
            let last = if (q_end - 1) / t < idx.tiles(c).len() {
                (q_end - 1) / t
            } else {
                idx.tiles(c).len() - 1
            };
            key_count(
                hits(query_tiles(idx, c, first, last), first, t, q_start, q_end, (last + 1 - first) as nat),
                idx.records()[i].1.bed_idx,
                idx.records()[i].1.bgzf_pos,
            ) == if overlaps(idx.records()[i].1, q_start, q_end) {
                1nat
            } else {
                0nat
            }
        }),
{
    let ts = idx.spec_tile_size();
    let t = ts as int;
    let r = idx.records()[i].1;
    let n = idx.tiles(c).len();
    let first = q_start / t;
    let last = if (q_end - 1) / t < n { (q_end - 1) / t } else { n - 1 };
    assert(first <= (q_end - 1) / t) by (nonlinear_arith)
        requires
            first == q_start / t,
            q_start <= q_end - 1,
            t > 0,
    ;
    let tiles = query_tiles(idx, c, first, last);
    assert forall|k: int| 0 <= k < last + 1 - first implies #[trigger] tiles[k] == persisted_tiles(idx, c)[first + k] by {}
    lemma_hits_count(idx, c, i, tiles, first, q_start, q_end, (last + 1 - first) as nat);
    crate::index::lemma_record_tile_count(idx, i, c);
    let f = first_tile(ts, r);
    let st = r.start_bp as int;
    assert(f <= last_tile(ts, r)) by (nonlinear_arith)
        requires
            f == st / t,
            last_tile(ts, r) == (span_end(r) - 1) / t,
            st <= span_end(r) - 1,
            t > 0,
    ;
    if overlaps(r, q_start, q_end) {
        assert(f <= (q_end - 1) / t) by (nonlinear_arith)
            requires
                f == st / t,
                st <= q_end - 1,
                t > 0,
        ;
    }
}

/// Querying a whole contig: over the persisted tiles of contig `c`, a query from base 0 to the
/// end of its last tile emits each record ingested for `c` exactly once (records are told apart
/// by file and virtual position).
pub proof fn lemma_whole_contig_query(idx: &ContigIndex, c: int, i: int)
    requires
        idx.wf(),
        distinct_records(idx.records()),
        0 <= c < idx.names().len(),
        0 <= i < idx.records().len(),
        idx.records()[i].0 == idx.names()[c],
    ensures
        key_count(
            hits(
                persisted_tiles(idx, c),
                0,
                idx.spec_tile_size() as int,
                0,
                (idx.tiles(c).len() * idx.spec_tile_size()) as int,
                idx.tiles(c).len(),
            ),
            idx.records()[i].1.bed_idx,
            idx.records()[i].1.bgzf_pos,
        ) == 1,
{
    let ts = idx.spec_tile_size();
    let t = ts as int;
    let r = idx.records()[i].1;
    let n = idx.tiles(c).len() as int;
    crate::index::lemma_record_tile_count(idx, i, c);
    let f = first_tile(ts, r);
    let st = r.start_bp as int;
    assert(f <= last_tile(ts, r)) by (nonlinear_arith)
        requires
            f == st / t,
            last_tile(ts, r) == (span_end(r) - 1) / t,
            st <= span_end(r) - 1,
            t > 0,
    ;
    assert(st < n * t) by (nonlinear_arith)
        requires
            f == st / t,
            f < n,
            t > 0,
    ;
    assert((n * t - 1) / t == n - 1) by (nonlinear_arith)
        requires
            n >= 1,
            t > 0,
    ;
    assert(0int / t == 0) by (nonlinear_arith)
        requires
            t > 0,
    ;
    lemma_query_exact(idx, c, i, 0, n * t);
    assert(query_tiles(idx, c, 0, n - 1) =~= persisted_tiles(idx, c));
}

proof fn lemma_insert_no_repeats(s: Seq<ContigRange>, r: ContigRange)
    requires
        no_repeats(s),
        forall|j: int| 0 <= j < s.len() ==> !same_record(#[trigger] s[j], r),
    ensures
        no_repeats(insert_by_start(s, r)),
        forall|i: int|
            0 <= i < insert_by_start(s, r).len() ==> (#[trigger] insert_by_start(s, r)[i] == r
                || s.contains(insert_by_start(s, r)[i])),
    decreases s.len(),
{
    let t = insert_by_start(s, r);
    if s.len() == 0 || s.last().start_bp <= r.start_bp {
        assert forall|i: int| 0 <= i < t.len() implies (#[trigger] t[i] == r || s.contains(t[i])) by {
            if i < s.len() {
                assert(t[i] == s[i]);
            }
        }
        assert forall|a: int, b: int| 0 <= a < b < t.len() implies !same_record(
            #[trigger] t[a],
            #[trigger] t[b],
        ) by {
            if b == s.len() {
                assert(t[a] == s[a]);
            } else {
                assert(t[a] == s[a] && t[b] == s[b]);
            }
        }
    } else {
        let p = s.drop_last();
        assert(no_repeats(p));
        lemma_insert_no_repeats(p, r);
        let q = insert_by_start(p, r);
        assert forall|i: int| 0 <= i < t.len() implies (#[trigger] t[i] == r || s.contains(t[i])) by {
            if i < q.len() && q[i] != r {
                let k = choose|k: int| 0 <= k < p.len() && p[k] == q[i];
                assert(s[k] == t[i]);
            } else if i == q.len() {
                assert(s[s.len() - 1] == t[i]);
            }
        }
        assert forall|a: int, b: int| 0 <= a < b < t.len() implies !same_record(
            #[trigger] t[a],
            #[trigger] t[b],
        ) by {
            if b == q.len() {
                if q[a] == r {
                    assert(!same_record(s[s.len() - 1], r));
                } else {
                    let k = choose|k: int| 0 <= k < p.len() && p[k] == q[a];
                    assert(s[k] == q[a]);
                    assert(!same_record(s[k], s[s.len() - 1]));
                }
            } else {
                assert(t[a] == q[a] && t[b] == q[b]);
            }
        }
    }
}

proof fn lemma_sort_no_repeats(s: Seq<ContigRange>)
    requires
        no_repeats(s),
    ensures
        no_repeats(sort_by_start(s)),
    decreases s.len(),
{
    if s.len() > 0 {
        let p = s.drop_last();
        assert(no_repeats(p));
        lemma_sort_no_repeats(p);
        lemma_sort_members(p);
        let q = sort_by_start(p);
        assert forall|j: int| 0 <= j < q.len() implies !same_record(#[trigger] q[j], s.last()) by {
            let k = choose|k: int| 0 <= k < p.len() && p[k] == q[j];
            assert(s[k] == q[j]);
        }
        lemma_insert_no_repeats(q, s.last());
    }
}

/// `x` is the range of an ingested record of contig `name` that touches tile `t`.
pub open spec fn from_record(recs: Seq<Ingested>, ts: nat, name: Seq<u8>, t: int, x: ContigRange) -> bool {
    exists|j: int|
        0 <= j < recs.len() && recs[j].0 == name && covers(ts, recs[j].1, t) && recs[j].1 == x
}

/// Every range of a tile is the range of an ingested record of that contig that touches the tile.
proof fn lemma_tile_members(recs: Seq<Ingested>, ts: nat, name: Seq<u8>, t: int)
    ensures
        forall|x: int|
            0 <= x < tile_ranges(recs, ts, name, t).len() ==> from_record(
                recs,
                ts,
                name,
                t,
                #[trigger] tile_ranges(recs, ts, name, t)[x],
            ),
    decreases recs.len(),
{
    if recs.len() > 0 {
        let p = recs.drop_last();
        lemma_tile_members(p, ts, name, t);
        let q = tile_ranges(p, ts, name, t);
        let w = tile_ranges(recs, ts, name, t);
        assert forall|x: int| 0 <= x < w.len() implies from_record(recs, ts, name, t, #[trigger] w[x]) by {
            if x < q.len() {
                assert(from_record(p, ts, name, t, q[x]));
                let j = choose|j: int|
                    0 <= j < p.len() && p[j].0 == name && covers(ts, p[j].1, t) && p[j].1 == q[x];
                assert(recs[j] == p[j]);
                assert(w[x] == q[x]);
            } else {
                let (n, r) = recs.last();
                assert(n == name && covers(ts, r, t));
                assert(w == q.push(r));
                let j = recs.len() - 1;
                assert(recs[j].0 == name && covers(ts, recs[j].1, t) && recs[j].1 == w[x]);
            }
        }
    }
}

/// A tile holds each record at most once.
proof fn lemma_tile_no_repeats(recs: Seq<Ingested>, ts: nat, name: Seq<u8>, t: int)
    requires
        distinct_records(recs),
    ensures
        no_repeats(tile_ranges(recs, ts, name, t)),
    decreases recs.len(),
{
    if recs.len() > 0 {
        let p = recs.drop_last();
        assert forall|a: int, b: int| 0 <= a < b < p.len() implies !(p[a].1.bed_idx
            == p[b].1.bed_idx && p[a].1.bgzf_pos == p[b].1.bgzf_pos) by {
            assert(p[a] == recs[a] && p[b] == recs[b]);
        }
        lemma_tile_no_repeats(p, ts, name, t);
        lemma_tile_members(p, ts, name, t);
        let q = tile_ranges(p, ts, name, t);
        let w = tile_ranges(recs, ts, name, t);
        assert forall|a: int, b: int| 0 <= a < b < w.len() implies !same_record(
            #[trigger] w[a],
            #[trigger] w[b],
        ) by {
            if b == q.len() {
                assert(from_record(p, ts, name, t, q[a]));
                let j = choose|j: int|
                    0 <= j < p.len() && p[j].0 == name && covers(ts, p[j].1, t) && p[j].1 == q[a];
                assert(recs[j] == p[j]);
                assert(w[b] == recs[recs.len() - 1].1);
            } else {
                assert(w[a] == q[a] && w[b] == q[b]);
            }
        }
    }
}

/// The persisted tiles of a built index are what queries rely on: each sorted by start, each
/// range starting before the end of its tile, no record twice in one tile, and the copies of
/// one record in different tiles identical.
pub proof fn lemma_persisted_tiles_sound(idx: &ContigIndex, c: int)
    requires
        idx.wf(),
        distinct_records(idx.records()),
        0 <= c < idx.names().len(),
    ensures
        all_sorted(persisted_tiles(idx, c)),
        starts_within(persisted_tiles(idx, c), 0, idx.spec_tile_size() as int),
        forall|k: int|
            0 <= k < persisted_tiles(idx, c).len() ==> no_repeats(
                #[trigger] persisted_tiles(idx, c)[k],
            ),
        replicas_agree(persisted_tiles(idx, c)),
{
    let recs = idx.records();
    let ts = idx.spec_tile_size();
    let name = idx.names()[c];
    let pt = persisted_tiles(idx, c);
    assert forall|k: int| 0 <= k < pt.len() implies sorted_by_start(#[trigger] pt[k]) by {
        lemma_sort_sorted(idx.tiles(c)[k]);
    }
    assert forall|k: int| 0 <= k < pt.len() implies no_repeats(#[trigger] pt[k]) by {
        assert(idx.tiles(c)[k] == tile_ranges(recs, ts, name, k));
        lemma_tile_no_repeats(recs, ts, name, k);
        lemma_sort_no_repeats(idx.tiles(c)[k]);
    }
    // every persisted range is the range of an ingested record touching its tile
    assert forall|k: int, x: int| 0 <= k < pt.len() && 0 <= x < pt[k].len() implies from_record(
        recs,
        ts,
        name,
        k,
        #[trigger] pt[k][x],
    ) by {
        let tile = idx.tiles(c)[k];
        assert(tile == tile_ranges(recs, ts, name, k));
        lemma_sort_members(tile);
        let y = choose|y: int| 0 <= y < tile.len() && tile[y] == pt[k][x];
        lemma_tile_members(recs, ts, name, k);
        assert(tile[y] == tile_ranges(recs, ts, name, k)[y]);
        assert(from_record(recs, ts, name, k, tile_ranges(recs, ts, name, k)[y]));
    }
    assert forall|k: int, x: int| 0 <= k < pt.len() && 0 <= x < pt[k].len() implies (
    #[trigger] pt[k][x]).start_bp < (0 + k + 1) * (ts as int) by {
        assert(from_record(recs, ts, name, k, pt[k][x]));
        let j = choose|j: int|
            0 <= j < recs.len() && recs[j].0 == name && covers(ts, recs[j].1, k) && recs[j].1
                == pt[k][x];
        let st = recs[j].1.start_bp as int;
        assert(st < (k + 1) * (ts as int)) by (nonlinear_arith)
            requires
                st / (ts as int) <= k,
                ts > 0,
                st >= 0,
        ;
    }
    assert forall|k1: int, i1: int, k2: int, i2: int|
        0 <= k1 < pt.len() && 0 <= i1 < pt[k1].len() && 0 <= k2 < pt.len() && 0 <= i2
            < pt[k2].len() && same_record(#[trigger] pt[k1][i1], #[trigger] pt[k2][i2]) implies pt[k1][i1]
        == pt[k2][i2] by {
        assert(from_record(recs, ts, name, k1, pt[k1][i1]));
        assert(from_record(recs, ts, name, k2, pt[k2][i2]));
        let j1 = choose|j: int|
            0 <= j < recs.len() && recs[j].0 == name && covers(ts, recs[j].1, k1) && recs[j].1
                == pt[k1][i1];
        let j2 = choose|j: int|
            0 <= j < recs.len() && recs[j].0 == name && covers(ts, recs[j].1, k2) && recs[j].1
                == pt[k2][i2];
        if j1 < j2 {
        } else if j2 < j1 {
        }
    }
}

/// Queries on a built index emit no record twice, and emit in order of start: for any tiles
/// `first..=last` of contig `c` and any query, as `search_tiles` computes it from the
/// persisted tiles.
pub proof fn lemma_query_distinct_sorted(
    idx: &ContigIndex,
    c: int,
    first: int,
    last: int,
    q_start: int,
    q_end: int,
)
    requires
        idx.wf(),
        distinct_records(idx.records()),
        0 <= c < idx.names().len(),
        0 <= first <= last < idx.tiles(c).len(),
    ensures
        ({
            let tiles = persisted_tiles(idx, c).subrange(first, last + 1);
            let h = hits(tiles, first, idx.spec_tile_size() as int, q_start, q_end, tiles.len());
            no_repeats(h) && sorted_by_start(h)
        }),
{
    let ts = idx.spec_tile_size() as int;
    let pt = persisted_tiles(idx, c);
    lemma_persisted_tiles_sound(idx, c);
    let tiles = pt.subrange(first, last + 1);
    assert forall|k: int| 0 <= k < tiles.len() implies no_repeats(#[trigger] tiles[k]) by {
        assert(tiles[k] == pt[first + k]);
    }
    assert forall|k: int| 0 <= k < tiles.len() implies sorted_by_start(#[trigger] tiles[k]) by {
        assert(tiles[k] == pt[first + k]);
    }
    assert forall|k: int, i: int| 0 <= k < tiles.len() && 0 <= i < tiles[k].len() implies (
    #[trigger] tiles[k][i]).start_bp < (first + k + 1) * ts by {
        assert(tiles[k] == pt[first + k]);
        assert(pt[first + k][i].start_bp < (0 + (first + k) + 1) * ts);
    }
    assert forall|k1: int, i1: int, k2: int, i2: int|
        0 <= k1 < tiles.len() && 0 <= i1 < tiles[k1].len() && 0 <= k2 < tiles.len() && 0 <= i2
            < tiles[k2].len() && same_record(#[trigger] tiles[k1][i1], #[trigger] tiles[k2][i2])
        implies tiles[k1][i1] == tiles[k2][i2] by {
        assert(tiles[k1] == pt[first + k1] && tiles[k2] == pt[first + k2]);
        assert(same_record(pt[first + k1][i1], pt[first + k2][i2]));
    }
    lemma_hits_distinct(tiles, first, ts, q_start, q_end, tiles.len());
    lemma_hits_sorted(tiles, first, ts, q_start, q_end, tiles.len());
}


/// The tiles of contig `c` as a loaded header locates them in the index file `b`, decoded.
pub open spec fn loaded_tiles(b: Seq<u8>, h: &IndexHeader, c: int) -> Seq<Seq<ContigRange>> {
    Seq::new(
        h.tile_counts@[c] as nat,
        |t: int|
            Seq::new(
                h.range_counts@[c]@[t] as nat,
                |j: int| range_at(b, h.range_data_index@[c]@[t] + 28 * j),
            ),
    )
}

/// Build, persist, load, query: over the tiles that the header loaded from the bytes
/// `ContigIndex::serialize` wrote locates and decodes, a query over the whole of contig `c`
/// (from base 0 to the end of its last tile) emits each record ingested for `c` exactly once
/// (records told apart by file and virtual position; names of at most 40 bytes without zero
/// bytes).
pub proof fn lemma_round_trip_query(idx: &ContigIndex, h: &IndexHeader, c: int, i: int)
    requires
        idx.wf(),
        idx.fits_format(),
        names_storable(idx.names()),
        index_bytes(idx.spec_tile_size() as u32, idx.names(), idx.all_tiles(), idx.files()).len()
            <= u64::MAX,
        h.read_from(
            index_bytes(idx.spec_tile_size() as u32, idx.names(), idx.all_tiles(), idx.files()),
        ),
        distinct_records(idx.records()),
        0 <= c < idx.names().len(),
        0 <= i < idx.records().len(),
        idx.records()[i].0 == idx.names()[c],
    ensures
        ({
            let b = index_bytes(
                idx.spec_tile_size() as u32,
                idx.names(),
                idx.all_tiles(),
                idx.files(),
            );
            let n = h.tile_counts@[c] as int;
            key_count(
                hits(loaded_tiles(b, h, c), 0, h.tile_size as int, 0, n * h.tile_size, n as nat),
                idx.records()[i].1.bed_idx,
                idx.records()[i].1.bgzf_pos,
            ) == 1
        }),
{
    let b = index_bytes(idx.spec_tile_size() as u32, idx.names(), idx.all_tiles(), idx.files());
    let n = idx.tiles(c).len();
    lemma_record_named_tile(idx, c, i);
    lemma_persist_load(idx, h, c, 0);
    let lt = loaded_tiles(b, h, c);
    let pt = persisted_tiles(idx, c);
    assert forall|t: int| 0 <= t < n implies #[trigger] lt[t] == pt[t] by {
        lemma_persist_load(idx, h, c, t);
        crate::sort::lemma_sort_sorted(idx.tiles(c)[t]);
        assert(lt[t] =~= pt[t]);
    }
    assert(lt =~= pt);
    lemma_whole_contig_query(idx, c, i);
}

/// A record's contig has at least one tile.
proof fn lemma_record_named_tile(idx: &ContigIndex, c: int, i: int)
    requires
        idx.wf(),
        0 <= c < idx.names().len(),
        0 <= i < idx.records().len(),
        idx.records()[i].0 == idx.names()[c],
    ensures
        idx.tiles(c).len() > 0,
{
    crate::index::lemma_record_tile_count(idx, i, c);
}


proof fn lemma_with_start_add(a: Seq<ContigRange>, b: Seq<ContigRange>, v: u64)
    ensures
        with_start(a + b, v) == with_start(a, v) + with_start(b, v),
    decreases b.len(),
{
    if b.len() == 0 {
        assert(a + b =~= a);
        assert(with_start(a, v) + with_start(b, v) =~= with_start(a, v));
    } else {
        lemma_with_start_add(a, b.drop_last(), v);
        assert((a + b).drop_last() =~= a + b.drop_last());
        assert((a + b).last() == b.last());
        assert(with_start(a + b, v) =~= with_start(a, v) + with_start(b, v));
    }
}

proof fn lemma_with_start_window(s: Seq<ContigRange>, lo: int, hi: int, past: int, v: u64)
    ensures
        with_start(window(s, lo, hi, past), v) == window(with_start(s, v), lo, hi, past),
    decreases s.len(),
{
    if s.len() > 0 {
        lemma_with_start_window(s.drop_last(), lo, hi, past, v);
        let w = window(s.drop_last(), lo, hi, past);
        assert(w.push(s.last()).drop_last() =~= w);
        let u = with_start(s.drop_last(), v);
        assert(u.push(s.last()).drop_last() =~= u);
    }
}

proof fn lemma_with_start_none(s: Seq<ContigRange>, v: u64)
    requires
        forall|i: int| 0 <= i < s.len() ==> (#[trigger] s[i]).start_bp != v,
    ensures
        with_start(s, v) == Seq::<ContigRange>::empty(),
    decreases s.len(),
{
    if s.len() > 0 {
        lemma_with_start_none(s.drop_last(), v);
    }
}

/// The tile read (counted from the first) whose ranges can start at `v`.
pub open spec fn tile_of_start(first: int, ts: int, v: int) -> int {
    if v < (first + 1) * ts {
        0
    } else {
        v / ts - first
    }
}

proof fn lemma_query_ties_upto(
    idx: &ContigIndex,
    c: int,
    tiles: Seq<Seq<ContigRange>>,
    first: int,
    q_start: int,
    q_end: int,
    v: u64,
    n: nat,
)
    requires
        idx.wf(),
        distinct_records(idx.records()),
        0 <= c < idx.names().len(),
        0 <= first,
        first + n <= idx.tiles(c).len(),
        n <= tiles.len(),
        forall|k: int| 0 <= k < n ==> #[trigger] tiles[k] == persisted_tiles(idx, c)[first + k],
    ensures
        ({
            let t = idx.spec_tile_size() as int;
            let k = tile_of_start(first, t, v as int);
            with_start(hits(tiles, first, t, q_start, q_end, n), v) == if 0 <= k < n {
                window(
                    with_start(idx.tiles(c)[first + k], v),
                    lower_bound(first, t, k),
                    q_end,
                    reach_bound(first, t, q_start, k),
                )
            } else {
                Seq::<ContigRange>::empty()
            }
        }),
    decreases n,
{
    let t = idx.spec_tile_size() as int;
    let kv = tile_of_start(first, t, v as int);
    if n > 0 {
        let m = n - 1;
        lemma_query_ties_upto(idx, c, tiles, first, q_start, q_end, v, m as nat);
        let lo = lower_bound(first, t, m);
        let past = reach_bound(first, t, q_start, m);
        let w = window(tiles[m], lo, q_end, past);
        lemma_with_start_add(hits(tiles, first, t, q_start, q_end, m as nat), w, v);
        lemma_with_start_window(tiles[m], lo, q_end, past, v);
        let raw = idx.tiles(c)[first + m];
        assert(tiles[m] == sort_by_start(raw));
        lemma_sort_stable(raw, v);
        lemma_persisted_tiles_sound(idx, c);
        assert(kv >= 0) by (nonlinear_arith)
            requires
                kv == tile_of_start(first, t, v as int),
                t > 0,
                first >= 0,
                v >= 0,
        ;
        if kv == m {
            assert(with_start(hits(tiles, first, t, q_start, q_end, m as nat), v) =~= Seq::<
                ContigRange,
            >::empty());
        } else {
            // no range taken from this tile starts at `v`
            lemma_window_members(tiles[m], lo, q_end, past);
            assert forall|i: int| 0 <= i < w.len() implies (#[trigger] w[i]).start_bp != v by {
                let j = choose|j: int| 0 <= j < tiles[m].len() && tiles[m][j] == w[i];
                assert(persisted_tiles(idx, c)[first + m][j].start_bp < (0 + (first + m) + 1) * t);
                let st = w[i].start_bp as int;
                if st == v {
                    if m == 0 {
                        assert(st < (first + 1) * t);
                        assert(kv == 0);
                    } else {
                        assert((first + m) * t <= st < (first + m + 1) * t);
                        assert(st / t == first + m) by (nonlinear_arith)
                            requires
                                (first + m) * t <= st < (first + m + 1) * t,
                                t > 0,
                        ;
                        assert((first + 1) * t <= (first + m) * t) by (nonlinear_arith)
                            requires
                                m >= 1,
                                t > 0,
                        ;
                        assert(kv == m);
                    }
                }
            }
            lemma_with_start_none(w, v);
            assert(with_start(hits(tiles, first, t, q_start, q_end, n), v) =~= with_start(
                hits(tiles, first, t, q_start, q_end, m as nat),
                v,
            ));
        }
    }
}

/// Ties keep insertion order in query output: the ranges a query emits with one start `v` are
/// those of one tile read, taken from that tile in the order in which their records were
/// ingested (`idx.tiles(c)` holds each tile in ingestion order), as its window selects them.
pub proof fn lemma_query_ties(
    idx: &ContigIndex,
    c: int,
    first: int,
    last: int,
    q_start: int,
    q_end: int,
    v: u64,
)
    requires
        idx.wf(),
        distinct_records(idx.records()),
        0 <= c < idx.names().len(),
        0 <= first <= last < idx.tiles(c).len(),
    ensures
        ({
            let t = idx.spec_tile_size() as int;
            let k = tile_of_start(first, t, v as int);
            let h = hits(query_tiles(idx, c, first, last), first, t, q_start, q_end, (last + 1 - first) as nat);
            with_start(h, v) == if 0 <= k <= last - first {
                window(
                    with_start(
                        tile_ranges(idx.records(), idx.spec_tile_size(), idx.names()[c], first + k),
                        v,
                    ),
                    lower_bound(first, t, k),
                    q_end,
                    reach_bound(first, t, q_start, k),
                )
            } else {
                Seq::<ContigRange>::empty()
            }
        }),
{
    let tiles = query_tiles(idx, c, first, last);
    assert forall|k: int| 0 <= k < last + 1 - first implies #[trigger] tiles[k] == persisted_tiles(idx, c)[first + k] by {}
    lemma_query_ties_upto(idx, c, tiles, first, q_start, q_end, v, (last + 1 - first) as nat);
    let k = tile_of_start(first, idx.spec_tile_size() as int, v as int);
    if 0 <= k <= last - first {
        assert(idx.tiles(c)[first + k] == tile_ranges(
            idx.records(),
            idx.spec_tile_size(),
            idx.names()[c],
            first + k,
        ));
    }
}

} // verus!
