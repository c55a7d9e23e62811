//! The in-memory interval index and the rules by which records enter it.
use vstd::prelude::*;

use crate::codec::{bytes_eq, copy_bytes};
use crate::text::{parse_u64, parse_u64_spec, split_bytes, split_on, trim_end, trimmed_len, views};

verus! {

/// Tile width, in base pairs, of a freshly built index.
pub const DEFAULT_TILE_SIZE: u32 = 16384;

/// One interval record: where it lies and where its full line can be read back.
#[derive(Clone, Copy, Debug, PartialEq, Eq, Structural)]
pub struct ContigRange {
    /// Index of the data file that holds the record.
    pub bed_idx: u32,
    /// First base of the record (zero-based).
    pub start_bp: u64,
    /// End of the record (zero-based, half-open).
    pub end_bp: u64,
    /// Virtual position of the record's line in its block-compressed file.
    pub bgzf_pos: u64,
}

/// The ranges that touch one tile of a contig.
pub struct ContigTile {
    pub contig_ranges: Vec<ContigRange>,
}

impl ContigTile {
    pub fn new() -> (r: ContigTile)
        ensures
            r.contig_ranges@ == Seq::<ContigRange>::empty(),
    {
        ContigTile { contig_ranges: Vec::new() }
    }
}

/// Why a data line could not enter the index.
#[derive(Clone, Copy, Debug, PartialEq, Eq, Structural)]
pub enum RecordError {
    /// The line has fewer than three tab-separated fields.
    MissingFields,
    /// The second field is not a base-ten unsigned integer.
    BadStart,
    /// The third field is not a base-ten unsigned integer.
    BadEnd,
    /// The end is zero, so the record touches no tile.
    ZeroEnd,
    /// The record reaches past the last tile that the on-disk format can count.
    BeyondTileLimit,
}

/// Contig name, start and end of a data line: its first three tab-separated fields once
/// trailing white space is removed.
pub open spec fn parse_record_spec(line: Seq<u8>) -> Result<(Seq<u8>, u64, u64), RecordError> {
    let f = split_on(trim_end(line), 9);
    if f.len() < 3 {
        Err(RecordError::MissingFields)
    } else if parse_u64_spec(f[1]) is None {
        Err(RecordError::BadStart)
    } else if parse_u64_spec(f[2]) is None {
        Err(RecordError::BadEnd)
    } else if parse_u64_spec(f[2]) == Some(0u64) {
        Err(RecordError::ZeroEnd)
    } else {
        Ok((f[0], parse_u64_spec(f[1]).unwrap(), parse_u64_spec(f[2]).unwrap()))
    }
}

/// Reads the contig name, start and end of a data line.
pub fn parse_record(line: &[u8]) -> (r: Result<(Vec<u8>, u64, u64), RecordError>)
    ensures
        match r {
            Ok((name, start, end)) => parse_record_spec(line@) == Ok::<_, RecordError>(
                (name@, start, end),
            ),
            Err(e) => parse_record_spec(line@) == Err::<(Seq<u8>, u64, u64), _>(e),
        },
{
    let n = trimmed_len(line);
    let fields = split_bytes(&line[0..n], 9u8);
    assert(line@.subrange(0, n as int) =~= line@.take(n as int));
    if fields.len() < 3 {
        return Err(RecordError::MissingFields);
    }
    assert(views(fields@)[1] == fields@[1]@ && views(fields@)[2] == fields@[2]@);
    let start = match parse_u64(fields[1].as_slice()) {
        Some(v) => v,
        None => return Err(RecordError::BadStart),
    };
    let end = match parse_u64(fields[2].as_slice()) {
        Some(v) => v,
        None => return Err(RecordError::BadEnd),
    };
    if end == 0 {
        return Err(RecordError::ZeroEnd);
    }
    assert(views(fields@)[0] == fields@[0]@);
    Ok((copy_bytes(fields[0].as_slice()), start, end))
}

/// A data file that the index refers to, with what is needed to notice later changes.
pub struct BGZFile {
    pub name: Vec<u8>,
    /// Modification time in seconds since the Unix epoch, as the bits of an IEEE-754 double.
    pub mod_time_bits: u64,
    /// Length of the file in bytes.
    pub bytes: u64,
}

/// A named reference sequence and its tiles.
struct Contig {
    name: Vec<u8>,
    contig_tiles: Vec<ContigTile>,
}

/// A record as it entered the index: the name of its contig and its range.
pub type Ingested = (Seq<u8>, ContigRange);

/// The first tile that `r` touches.
pub open spec fn first_tile(ts: nat, r: ContigRange) -> int {
    r.start_bp as int / ts as int
}

/// Where the bases of `r` end (half-open): its end, except that a record whose end is not
/// past its start counts as the single base at its start.
pub open spec fn span_end(r: ContigRange) -> int {
    if r.end_bp <= r.start_bp {
        r.start_bp + 1
    } else {
        r.end_bp as int
    }
}

/// The last tile that `r` touches.
pub open spec fn last_tile(ts: nat, r: ContigRange) -> int {
    (span_end(r) - 1) / ts as int
}

/// The last tile that `r` touches, for tiles of `tile_size` bases.
pub fn last_tile_of(r: &ContigRange, tile_size: u32) -> (t: u64)
    requires
        tile_size > 0,
    ensures
        t == last_tile(tile_size as nat, *r),
{
    if r.end_bp <= r.start_bp {
        r.start_bp / (tile_size as u64)
    } else {
        (r.end_bp - 1) / (tile_size as u64)
    }
}

/// Whether `r` is replicated into tile `t`.
pub open spec fn covers(ts: nat, r: ContigRange, t: int) -> bool {
    first_tile(ts, r) <= t <= last_tile(ts, r)
}

/// Contig names in the order in which records first named them.
pub open spec fn contig_names(recs: Seq<Ingested>) -> Seq<Seq<u8>>
    decreases recs.len(),
{
    if recs.len() == 0 {
        seq![]
    } else {
        let prev = contig_names(recs.drop_last());
        if prev.contains(recs.last().0) {
            prev
        } else {
            prev.push(recs.last().0)
        }
    }
}

/// Number of tiles of contig `name`: one past the last tile that any of its records touches.
pub open spec fn tile_count(recs: Seq<Ingested>, ts: nat, name: Seq<u8>) -> int
    decreases recs.len(),
{
    if recs.len() == 0 {
        0
    } else {
        let prev = tile_count(recs.drop_last(), ts, name);
        let (n, r) = recs.last();
        if n == name && last_tile(ts, r) + 1 > prev {
            last_tile(ts, r) + 1
        } else {
            prev
        }
    }
}

/// The ranges of tile `t` of contig `name`, in the order in which they were ingested.
pub open spec fn tile_ranges(recs: Seq<Ingested>, ts: nat, name: Seq<u8>, t: int) -> Seq<
    ContigRange,
>
    decreases recs.len(),
{
    if recs.len() == 0 {
        seq![]
    } else {
        let prev = tile_ranges(recs.drop_last(), ts, name, t);
        let (n, r) = recs.last();
        if n == name && covers(ts, r, t) {
            prev.push(r)
        } else {
            prev
        }
    }
}

/// How many ranges of `s` come from the record at `bgzf_pos` of file `bed_idx`.
pub open spec fn key_count(s: Seq<ContigRange>, bed_idx: u32, bgzf_pos: u64) -> nat
    decreases s.len(),
{
    if s.len() == 0 {
        0
    } else {
        key_count(s.drop_last(), bed_idx, bgzf_pos) + if s.last().bed_idx == bed_idx
            && s.last().bgzf_pos == bgzf_pos {
            1nat
        } else {
            0nat
        }
    }
}

/// No two ingested records come from the same place of the same file.
pub open spec fn distinct_records(recs: Seq<Ingested>) -> bool {
    forall|i: int, j: int|
        0 <= i < j < recs.len() ==> !(recs[i].1.bed_idx == recs[j].1.bed_idx && recs[i].1.bgzf_pos
            == recs[j].1.bgzf_pos)
}

/// Contig names are listed once each.
pub proof fn lemma_names_distinct(recs: Seq<Ingested>)
    ensures
        contig_names(recs).no_duplicates(),
    decreases recs.len(),
{
    if recs.len() > 0 {
        lemma_names_distinct(recs.drop_last());
    }
}

/// A contig that no record named has no tiles.
pub proof fn lemma_unnamed_has_no_tiles(recs: Seq<Ingested>, ts: nat, name: Seq<u8>)
    requires
        !contig_names(recs).contains(name),
    ensures
        tile_count(recs, ts, name) == 0,
    decreases recs.len(),
{
    if recs.len() > 0 {
        let prev = contig_names(recs.drop_last());
        if prev.contains(name) {
            let k = choose|k: int| 0 <= k < prev.len() && prev[k] == name;
            assert(contig_names(recs)[k] == name);
        }
        if !prev.contains(recs.last().0) {
            assert(contig_names(recs)[prev.len() as int] == recs.last().0);
        }
        assert(recs.last().0 != name);
        lemma_unnamed_has_no_tiles(recs.drop_last(), ts, name);
    }
}

/// Tiles past a contig's tile count hold nothing.
pub proof fn lemma_beyond_last_tile(recs: Seq<Ingested>, ts: nat, name: Seq<u8>, t: int)
    requires
        t >= tile_count(recs, ts, name),
    ensures
        tile_ranges(recs, ts, name, t) == Seq::<ContigRange>::empty(),
    decreases recs.len(),
{
    if recs.len() > 0 {
        lemma_beyond_last_tile(recs.drop_last(), ts, name, t);
    }
}

/// A record's contig is listed among the contig names.
proof fn lemma_record_named(recs: Seq<Ingested>, i: int)
    requires
        0 <= i < recs.len(),
    ensures
        contig_names(recs).contains(recs[i].0),
    decreases recs.len(),
{
    let prev = contig_names(recs.drop_last());
    if i < recs.len() - 1 {
        lemma_record_named(recs.drop_last(), i);
        let k = choose|k: int| 0 <= k < prev.len() && prev[k] == recs[i].0;
        assert(contig_names(recs)[k] == recs[i].0);
    } else if prev.contains(recs.last().0) {
    } else {
        assert(contig_names(recs)[prev.len() as int] == recs.last().0);
    }
}

/// A contig has a tile for every tile that one of its records touches.
proof fn lemma_tile_exists(recs: Seq<Ingested>, ts: nat, i: int)
    requires
        0 <= i < recs.len(),
    ensures
        last_tile(ts, recs[i].1) < tile_count(recs, ts, recs[i].0),
    decreases recs.len(),
{
    if i < recs.len() - 1 {
        lemma_tile_exists(recs.drop_last(), ts, i);
    }
}

/// A tile holds no range of a record that was never ingested.
proof fn lemma_absent_key(recs: Seq<Ingested>, ts: nat, name: Seq<u8>, t: int, bed_idx: u32, bgzf_pos: u64)
    requires
        forall|j: int|
            0 <= j < recs.len() ==> !((#[trigger] recs[j]).1.bed_idx == bed_idx && recs[j].1.bgzf_pos
                == bgzf_pos),
    ensures
        key_count(tile_ranges(recs, ts, name, t), bed_idx, bgzf_pos) == 0,
    decreases recs.len(),
{
    if recs.len() > 0 {
        let prev = recs.drop_last();
        assert forall|j: int| 0 <= j < prev.len() implies !((#[trigger] prev[j]).1.bed_idx == bed_idx
            && prev[j].1.bgzf_pos == bgzf_pos) by {
            assert(prev[j] == recs[j]);
        }
        lemma_absent_key(prev, ts, name, t, bed_idx, bgzf_pos);
        let p = tile_ranges(prev, ts, name, t);
        assert(p.push(recs.last().1).drop_last() =~= p);
    }
}

/// The tile holds the record `recs[i]` exactly once.
proof fn lemma_key_once(recs: Seq<Ingested>, ts: nat, i: int, t: int)
    requires
        0 <= i < recs.len(),
        distinct_records(recs),
        covers(ts, recs[i].1, t),
    ensures
        key_count(tile_ranges(recs, ts, recs[i].0, t), recs[i].1.bed_idx, recs[i].1.bgzf_pos) == 1,
    decreases recs.len(),
{
    let prev = recs.drop_last();
    let name = recs[i].0;
    let (f, p) = (recs[i].1.bed_idx, recs[i].1.bgzf_pos);
    let pt = tile_ranges(prev, ts, name, t);
    assert(pt.push(recs.last().1).drop_last() =~= pt);
    if i < recs.len() - 1 {
        assert(prev[i] == recs[i]);
        assert forall|a: int, b: int| 0 <= a < b < prev.len() implies !(prev[a].1.bed_idx
            == prev[b].1.bed_idx && prev[a].1.bgzf_pos == prev[b].1.bgzf_pos) by {
            assert(prev[a] == recs[a] && prev[b] == recs[b]);
        }
        lemma_key_once(prev, ts, i, t);
    } else {
        assert forall|j: int| 0 <= j < prev.len() implies !((#[trigger] prev[j]).1.bed_idx == f
            && prev[j].1.bgzf_pos == p) by {
            assert(prev[j] == recs[j]);
        }
        lemma_absent_key(prev, ts, name, t, f, p);
    }
}

/// How many ingested records of contig `name` that touch tile `t` come from the record at
/// `bgzf_pos` of file `bed_idx`.
pub open spec fn ingest_count(
    recs: Seq<Ingested>,
    ts: nat,
    name: Seq<u8>,
    t: int,
    bed_idx: u32,
    bgzf_pos: u64,
) -> nat
    decreases recs.len(),
{
    if recs.len() == 0 {
        0
    } else {
        ingest_count(recs.drop_last(), ts, name, t, bed_idx, bgzf_pos) + if recs.last().0 == name
            && covers(ts, recs.last().1, t) && recs.last().1.bed_idx == bed_idx
            && recs.last().1.bgzf_pos == bgzf_pos {
            1nat
        } else {
            0nat
        }
    }
}

proof fn lemma_tile_key_count(recs: Seq<Ingested>, ts: nat, name: Seq<u8>, t: int, f: u32, p: u64)
    ensures
        key_count(tile_ranges(recs, ts, name, t), f, p) == ingest_count(recs, ts, name, t, f, p),
    decreases recs.len(),
{
    if recs.len() > 0 {
        lemma_tile_key_count(recs.drop_last(), ts, name, t, f, p);
        let q = tile_ranges(recs.drop_last(), ts, name, t);
        assert(q.push(recs.last().1).drop_last() =~= q);
    }
}

/// Replication, counted: tile `t` of contig `c` holds a range of the record at `bgzf_pos` of
/// file `bed_idx` once for each ingested record of `c` from there that touches the tile; so a
/// record ingested once lies exactly once in every tile its interval touches.
pub proof fn lemma_replication_counts(idx: &ContigIndex, c: int, t: int, bed_idx: u32, bgzf_pos: u64)
    requires
        idx.wf(),
        0 <= c < idx.names().len(),
        0 <= t < idx.tiles(c).len(),
    ensures
        key_count(idx.tiles(c)[t], bed_idx, bgzf_pos) == ingest_count(
            idx.records(),
            idx.spec_tile_size(),
            idx.names()[c],
            t,
            bed_idx,
            bgzf_pos,
        ),
{
    lemma_tile_key_count(idx.records(), idx.spec_tile_size(), idx.names()[c], t, bed_idx, bgzf_pos);
}

/// A record's contig has a tile for every tile the record touches.
pub proof fn lemma_record_tile_count(idx: &ContigIndex, i: int, c: int)
    requires
        idx.wf(),
        0 <= i < idx.records().len(),
        0 <= c < idx.names().len(),
        idx.names()[c] == idx.records()[i].0,
    ensures
        last_tile(idx.spec_tile_size(), idx.records()[i].1) < idx.tiles(c).len(),
{
    lemma_tile_exists(idx.records(), idx.spec_tile_size(), i);
}

/// Replication is complete: each ingested record lies, exactly once, in every tile of its
/// contig that its interval touches (records are told apart by file and virtual position).
pub proof fn lemma_replication_complete(idx: &ContigIndex, i: int, t: int)
    requires
        idx.wf(),
        distinct_records(idx.records()),
        0 <= i < idx.records().len(),
        covers(idx.spec_tile_size(), idx.records()[i].1, t),
    ensures
        ({
            let rec = idx.records()[i];
            let c = idx.names().index_of(rec.0);
            &&& 0 <= c < idx.names().len()
            &&& idx.names()[c] == rec.0
            &&& t < idx.tiles(c).len()
            &&& key_count(idx.tiles(c)[t], rec.1.bed_idx, rec.1.bgzf_pos) == 1
        }),
{
    let recs = idx.records();
    let ts = idx.spec_tile_size();
    lemma_record_named(recs, i);
    let c = idx.names().index_of(recs[i].0);
    lemma_tile_exists(recs, ts, i);
    lemma_key_once(recs, ts, i, t);
    assert(idx.tiles(c).len() == tile_count(recs, ts, idx.names()[c]));
}

impl Contig {
    closed spec fn tiles_view(&self) -> Seq<Seq<ContigRange>> {
        self.contig_tiles@.map_values(|t: ContigTile| t.contig_ranges@)
    }

    /// Adds `r` to tiles `first..=last`, creating the tiles up to `last` that are missing.
    fn cover(&mut self, r: ContigRange, first: usize, last: usize)
        requires
            last < u32::MAX,
        ensures
            final(self).name@ == old(self).name@,
            final(self).tiles_view().len() == if old(self).tiles_view().len() > last + 1 {
                old(self).tiles_view().len() as int
            } else {
                last + 1
            },
            forall|t: int|
                0 <= t < final(self).tiles_view().len() ==> #[trigger] final(self).tiles_view()[t]
                    == {
                    let base = if t < old(self).tiles_view().len() {
                        old(self).tiles_view()[t]
                    } else {
                        Seq::<ContigRange>::empty()
                    };
                    if first <= t <= last {
                        base.push(r)
                    } else {
                        base
                    }
                },
    {
        let ghost old_tiles = self.tiles_view();
        while self.contig_tiles.len() <= last
            invariant
                last < u32::MAX,
                self.name@ == old(self).name@,
                old_tiles.len() <= self.tiles_view().len(),
                self.tiles_view().len() <= if old_tiles.len() > last + 1 {
                    old_tiles.len() as int
                } else {
                    last + 1
                },
                forall|t: int|
                    0 <= t < self.tiles_view().len() ==> #[trigger] self.tiles_view()[t] == if t
                        < old_tiles.len() {
                        old_tiles[t]
                    } else {
                        Seq::<ContigRange>::empty()
                    },
            decreases last + 1 - self.contig_tiles@.len(),
        {
            let ghost before = self.tiles_view();
            self.contig_tiles.push(ContigTile::new());
            assert(self.tiles_view() =~= before.push(Seq::<ContigRange>::empty()));
        }
        let ghost grown = self.tiles_view();
        let mut t: usize = first;
        while t <= last
            invariant
                last < u32::MAX,
                self.name@ == old(self).name@,
                self.tiles_view().len() == grown.len(),
                grown.len() > last,
                first <= t,
                first <= last + 1 ==> t <= last + 1,
                first > last ==> t == first,
                forall|u: int|
                    0 <= u < grown.len() ==> #[trigger] self.tiles_view()[u] == if first <= u < t {
                        grown[u].push(r)
                    } else {
                        grown[u]
                    },
            decreases last + 1 - t,
        {
            let ghost before = self.tiles_view();
            self.contig_tiles[t].contig_ranges.push(r);
            assert(self.tiles_view() =~= before.update(t as int, before[t as int].push(r)));
            t = t + 1;
        }
        assert(old_tiles == old(self).tiles_view());
        assert forall|u: int| 0 <= u < self.tiles_view().len() implies #[trigger] self.tiles_view()[u]
            == {
            let base = if u < old_tiles.len() {
                old_tiles[u]
            } else {
                Seq::<ContigRange>::empty()
            };
            if first <= u <= last {
                base.push(r)
            } else {
                base
            }
        } by {
            assert(grown[u] == if u < old_tiles.len() {
                old_tiles[u]
            } else {
                Seq::<ContigRange>::empty()
            });
            if first <= u <= last {
                assert(u < t);
                assert(self.tiles_view()[u] == grown[u].push(r));
            } else {
                assert(self.tiles_view()[u] == grown[u]);
            }
        }
    }
}

/// The index under construction: every record ingested so far, replicated into each tile it touches.
pub struct ContigIndex {
    tile_size: u32,
    bgz_files: Vec<BGZFile>,
    contigs: Vec<Contig>,
    /// The contig of the last record added: consecutive lines usually share it.
    last_contig: usize,
    ingested: Ghost<Seq<Ingested>>,
}

impl ContigIndex {
    pub closed spec fn spec_tile_size(&self) -> nat {
        self.tile_size as nat
    }

    pub proof fn lemma_tile_size_fits(&self)
        ensures
            self.spec_tile_size() <= u32::MAX,
    {
    }

    /// Every record ingested so far, in order.
    pub closed spec fn records(&self) -> Seq<Ingested> {
        self.ingested@
    }

    pub closed spec fn files(&self) -> Seq<BGZFile> {
        self.bgz_files@
    }

    /// The contig names, by dense contig index.
    pub closed spec fn names(&self) -> Seq<Seq<u8>> {
        self.contigs@.map_values(|c: Contig| c.name@)
    }

    /// The tiles of contig `c`, each as the sequence of its ranges.
    pub closed spec fn tiles(&self, c: int) -> Seq<Seq<ContigRange>> {
        self.contigs@[c].tiles_view()
    }

    /// The tiles of every contig, by contig index.
    pub closed spec fn all_tiles(&self) -> Seq<Seq<Seq<ContigRange>>> {
        self.contigs@.map_values(|c: Contig| c.tiles_view())
    }

    pub proof fn lemma_all_tiles(&self)
        ensures
            self.all_tiles().len() == self.names().len(),
            forall|c: int| 0 <= c < self.names().len() ==> #[trigger] self.all_tiles()[c] == self.tiles(c),
    {
    }

    /// Every count that the on-disk format stores in 32 bits fits there.
    pub open spec fn fits_format(&self) -> bool {
        &&& self.names().len() <= u32::MAX
        &&& self.files().len() <= u32::MAX
        &&& forall|c: int| 0 <= c < self.names().len() ==> #[trigger] self.tiles(c).len() <= u32::MAX
        &&& forall|c: int, t: int|
            0 <= c < self.names().len() && 0 <= t < self.tiles(c).len() ==> #[trigger] self.tiles(
                c,
            )[t].len() <= u32::MAX
    }

    /// Whether every count that the on-disk format stores in 32 bits fits there.
    pub fn fits_format_check(&self) -> (r: bool)
        ensures
            r == self.fits_format(),
    {
        if self.contigs.len() > 0xffff_ffffusize || self.bgz_files.len() > 0xffff_ffffusize {
            return false;
        }
        let mut c: usize = 0;
        while c < self.contigs.len()
            invariant
                c <= self.names().len(),
                self.names().len() <= u32::MAX,
                self.files().len() <= u32::MAX,
                forall|k: int| 0 <= k < c ==> #[trigger] self.tiles(k).len() <= u32::MAX,
                forall|k: int, t: int|
                    0 <= k < c && 0 <= t < self.tiles(k).len() ==> #[trigger] self.tiles(k)[t].len()
                        <= u32::MAX,
            decreases self.names().len() - c,
        {
            let n = self.contigs[c].contig_tiles.len();
            if n > 0xffff_ffffusize {
                assert(self.tiles(c as int).len() > u32::MAX);
                return false;
            }
            let mut t: usize = 0;
            while t < n
                invariant
                    c < self.names().len(),
                    n == self.tiles(c as int).len(),
                    t <= n,
                    forall|u: int| 0 <= u < t ==> #[trigger] self.tiles(c as int)[u].len() <= u32::MAX,
                decreases n - t,
            {
                if self.contigs[c].contig_tiles[t].contig_ranges.len() > 0xffff_ffffusize {
                    assert(self.tiles(c as int)[t as int] == self.contigs@[c as int].contig_tiles@[t as int].contig_ranges@);
                    return false;
                }
                t = t + 1;
            }
            c = c + 1;
        }
        true
    }

    /// The structure is exactly what its ingested records determine.
    pub open spec fn wf(&self) -> bool {
        let recs = self.records();
        let ts = self.spec_tile_size();
        &&& ts > 0
        &&& self.names() == contig_names(recs)
        &&& forall|c: int|
            0 <= c < self.names().len() ==> #[trigger] self.tiles(c).len() == tile_count(
                recs,
                ts,
                self.names()[c],
            )
        &&& forall|c: int, t: int|
            0 <= c < self.names().len() && 0 <= t < self.tiles(c).len() ==> #[trigger] self.tiles(
                c,
            )[t] == tile_ranges(recs, ts, self.names()[c], t)
        &&& forall|i: int|
            0 <= i < recs.len() ==> {
                &&& (#[trigger] recs[i]).1.end_bp >= 1
                &&& recs[i].1.bed_idx < self.files().len()
                &&& last_tile(ts, recs[i].1) < u32::MAX
            }
    }

    /// An empty index with the given tile width.
    pub fn new(tile_size: u32) -> (r: ContigIndex)
        requires
            tile_size > 0,
        ensures
            r.wf(),
            r.spec_tile_size() == tile_size,
            r.records().len() == 0,
            r.files().len() == 0,
    {
        let r = ContigIndex {
            tile_size,
            bgz_files: Vec::new(),
            contigs: Vec::new(),
            last_contig: 0,
            ingested: Ghost(Seq::empty()),
        };
        assert(r.names() =~= Seq::<Seq<u8>>::empty());
        r
    }

    pub fn tile_size(&self) -> (r: u32)
        ensures
            r == self.spec_tile_size(),
    {
        self.tile_size
    }

    pub fn file_count(&self) -> (r: usize)
        ensures
            r == self.files().len(),
    {
        self.bgz_files.len()
    }

    pub fn contig_count(&self) -> (r: usize)
        ensures
            r == self.names().len(),
    {
        self.contigs.len()
    }

    pub fn contig_name(&self, c: usize) -> (r: &[u8])
        requires
            c < self.names().len(),
        ensures
            r@ == self.names()[c as int],
    {
        self.contigs[c].name.as_slice()
    }

    /// Number of tiles of contig `c`.
    pub fn contig_tile_count(&self, c: usize) -> (r: usize)
        requires
            c < self.names().len(),
        ensures
            r == self.tiles(c as int).len(),
    {
        self.contigs[c].contig_tiles.len()
    }

    /// The ranges of tile `t` of contig `c`, in insertion order.
    pub fn tile(&self, c: usize, t: usize) -> (r: &[ContigRange])
        requires
            c < self.names().len(),
            t < self.tiles(c as int).len(),
        ensures
            r@ == self.tiles(c as int)[t as int],
    {
        self.contigs[c].contig_tiles[t].contig_ranges.as_slice()
    }

    pub fn file(&self, i: usize) -> (r: &BGZFile)
        requires
            i < self.files().len(),
        ensures
            *r == self.files()[i as int],
    {
        &self.bgz_files[i]
    }

    /// Registers the next data file; its dense index is returned.
    pub fn add_file(&mut self, file: BGZFile) -> (r: u32)
        requires
            old(self).wf(),
            old(self).files().len() < u32::MAX,
        ensures
            final(self).wf(),
            r == old(self).files().len(),
            final(self).files() == old(self).files().push(file),
            final(self).records() == old(self).records(),
            final(self).spec_tile_size() == old(self).spec_tile_size(),
    {
        let r = self.bgz_files.len() as u32;
        self.bgz_files.push(file);
        proof {
            assert(self.names() =~= old(self).names());
            assert forall|c: int| 0 <= c < self.names().len() implies self.tiles(c) == old(
                self,
            ).tiles(c) by {}
        }
        r
    }

    /// Parses one data line and records its range, read back later from `bgzf_pos` of file
    /// `bed_idx`. A line that cannot be parsed leaves the index as it was.
    pub fn ingest_line(&mut self, line: &[u8], bed_idx: u32, bgzf_pos: u64) -> (r: Result<
        (),
        RecordError,
    >)
        requires
            old(self).wf(),
            bed_idx < old(self).files().len(),
        ensures
            final(self).wf(),
            final(self).files() == old(self).files(),
            final(self).spec_tile_size() == old(self).spec_tile_size(),
            match parse_record_spec(line@) {
                Err(e) => r == Err::<(), _>(e) && final(self).records() == old(self).records(),
                Ok((name, start, end)) => if last_tile(
                    old(self).spec_tile_size(),
                    ContigRange { bed_idx, start_bp: start, end_bp: end, bgzf_pos },
                ) >= u32::MAX {
                    r == Err::<(), _>(RecordError::BeyondTileLimit) && final(self).records() == old(
                        self,
                    ).records()
                } else {
                    r is Ok && final(self).records() == old(self).records().push(
                        (name, ContigRange { bed_idx, start_bp: start, end_bp: end, bgzf_pos }),
                    )
                },
            },
    {
        match parse_record(line) {
            Err(e) => Err(e),
            Ok((name, start, end)) => {
                let range = ContigRange { bed_idx, start_bp: start, end_bp: end, bgzf_pos };
                if last_tile_of(&range, self.tile_size) >= 0xffff_ffffu64 {
                    return Err(RecordError::BeyondTileLimit);
                }
                self.add_contig_range(name.as_slice(), bed_idx, start, end, bgzf_pos);
                Ok(())
            },
        }
    }

    /// The dense index of the contig called `name`, if there is one.
    fn find_contig(&self, name: &[u8]) -> (r: Option<usize>)
        ensures
            r matches Some(c) ==> c < self.names().len() && self.names()[c as int] == name@,
            r is None ==> !self.names().contains(name@),
    {
        let hint = self.last_contig;
        if hint < self.contigs.len() && bytes_eq(self.contigs[hint].name.as_slice(), name) {
            return Some(hint);
        }
        let mut c: usize = 0;
        while c < self.contigs.len()
            invariant
                c <= self.contigs@.len(),
                forall|k: int| 0 <= k < c ==> self.names()[k] != name@,
            decreases self.contigs@.len() - c,
        {
            if bytes_eq(self.contigs[c].name.as_slice(), name) {
                return Some(c);
            }
            c = c + 1;
        }
        None
    }

    /// Records one range of contig `contig_name` in every tile that it touches (a record whose
    /// end is not past its start touches only the tile of its start), creating the
    /// contig (with the next dense index) and any missing tiles as needed.
    pub fn add_contig_range(
        &mut self,
        contig_name: &[u8],
        bed_idx: u32,
        start_bp: u64,
        end_bp: u64,
        bgzf_pos: u64,
    )
        requires
            old(self).wf(),
            end_bp >= 1,
            bed_idx < old(self).files().len(),
            last_tile(
                old(self).spec_tile_size(),
                ContigRange { bed_idx, start_bp, end_bp, bgzf_pos },
            ) < u32::MAX,
        ensures
            final(self).wf(),
            final(self).records() == old(self).records().push(
                (contig_name@, ContigRange { bed_idx, start_bp, end_bp, bgzf_pos }),
            ),
            final(self).files() == old(self).files(),
            final(self).spec_tile_size() == old(self).spec_tile_size(),
    {
        let ghost recs = self.records();
        let ghost ts = self.spec_tile_size();
        let ghost old_names = self.names();
        let range = ContigRange { bed_idx, start_bp, end_bp, bgzf_pos };
        let size = self.tile_size as u64;
        let first = start_bp / size;
        let last = last_tile_of(&range, self.tile_size);
        let first_t = if first > last {
            last + 1
        } else {
            first
        };
        proof {
            lemma_names_distinct(recs);
        }
        let c = match self.find_contig(contig_name) {
            Some(c) => c,
            None => {
                proof {
                    lemma_unnamed_has_no_tiles(recs, ts, contig_name@);
                }
                self.contigs.push(Contig { name: copy_bytes(contig_name), contig_tiles: Vec::new() });
                assert(self.names() =~= old_names.push(contig_name@));
                assert(self.tiles(self.contigs@.len() - 1) =~= Seq::<Seq<ContigRange>>::empty());
                self.contigs.len() - 1
            },
        };
        let ghost mid = *self;
        proof {
            assert(mid.names()[c as int] == contig_name@);
            assert(mid.tiles(c as int).len() == tile_count(recs, ts, contig_name@));
            assert forall|t: int| 0 <= t < mid.tiles(c as int).len() implies #[trigger] mid.tiles(
                c as int,
            )[t] == tile_ranges(recs, ts, contig_name@, t) by {
                if c < old_names.len() {
                    assert(old(self).tiles(c as int) == mid.tiles(c as int));
                }
            }
            assert forall|k: int| 0 <= k < mid.names().len() && k != c implies {
                &&& mid.names()[k] != contig_name@
                &&& #[trigger] mid.tiles(k) == old(self).tiles(k)
                &&& mid.names()[k] == old_names[k]
            } by {
                if k < old_names.len() && c < old_names.len() {
                    assert(old_names[k] != old_names[c as int]);
                }
            }
        }
        self.contigs[c].cover(range, first_t as usize, last as usize);
        self.ingested = Ghost(recs.push((contig_name@, range)));
        proof {
            let nrecs = self.records();
            assert(nrecs.drop_last() =~= recs);
            assert(nrecs.last() == (contig_name@, range));
            assert(self.names() =~= mid.names());
            assert(self.names() == contig_names(nrecs));
            assert(last_tile(ts, range) == last as int);
            assert(first_tile(ts, range) == first as int);
            assert forall|k: int| 0 <= k < self.names().len() && k != c implies self.tiles(k)
                == mid.tiles(k) by {}
            assert forall|k: int| 0 <= k < self.names().len() implies #[trigger] self.tiles(k).len()
                == tile_count(nrecs, ts, self.names()[k]) by {
                if k != c {
                    assert(self.names()[k] != contig_name@);
                    assert(tile_count(nrecs, ts, self.names()[k]) == tile_count(recs, ts, self.names()[k]));
                    assert(k < old_names.len());
                    assert(self.tiles(k) == old(self).tiles(k));
                    assert(old(self).tiles(k).len() == tile_count(recs, ts, old_names[k]));
                } else {
                    assert(self.names()[k] == contig_name@);
                    assert(self.tiles(k) == self.contigs@[k].tiles_view());
                    assert(mid.tiles(k) == mid.contigs@[k].tiles_view());
                    assert(tile_count(nrecs, ts, contig_name@) == if last_tile(ts, range) + 1 > tile_count(recs, ts, contig_name@) { last_tile(ts, range) + 1 } else { tile_count(recs, ts, contig_name@) });
                    assert(self.tiles(k).len() == tile_count(nrecs, ts, contig_name@));
                }
            }
            assert forall|k: int, t: int|
                0 <= k < self.names().len() && 0 <= t < self.tiles(k).len() implies #[trigger] self.tiles(
                k,
            )[t] == tile_ranges(nrecs, ts, self.names()[k], t) by {
                if k != c {
                    assert(self.names()[k] != contig_name@);
                    assert(tile_ranges(nrecs, ts, self.names()[k], t) == tile_ranges(recs, ts, self.names()[k], t));
                    assert(k < old_names.len());
                    assert(self.tiles(k) == old(self).tiles(k));
                    assert(old(self).tiles(k)[t] == tile_ranges(recs, ts, old_names[k], t));
                } else {
                    assert(self.names()[k] == contig_name@);
                    if t >= mid.tiles(k).len() {
                        lemma_beyond_last_tile(recs, ts, contig_name@, t);
                    }
                    assert(covers(ts, range, t) == (first_t <= t <= last));
                    assert(self.tiles(k) == self.contigs@[k].tiles_view());
                    assert(tile_ranges(nrecs, ts, contig_name@, t) == if covers(ts, range, t) { tile_ranges(recs, ts, contig_name@, t).push(range) } else { tile_ranges(recs, ts, contig_name@, t) });
                }
            }
            assert forall|i: int| 0 <= i < nrecs.len() implies {
                &&& (#[trigger] nrecs[i]).1.end_bp >= 1
                &&& nrecs[i].1.bed_idx < self.files().len()
                &&& last_tile(ts, nrecs[i].1) < u32::MAX
            } by {
                if i < recs.len() {
                    assert(nrecs[i] == recs[i]);
                }
            }
        }
        let ghost before = *self;
        self.last_contig = c;
        proof {
            assert(self.names() =~= before.names());
            assert forall|k: int| 0 <= k < self.names().len() implies #[trigger] self.tiles(k)
                == before.tiles(k) by {}
        }
    }
}

} // verus!
