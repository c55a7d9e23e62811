//! Reading an index file: the header with its offset table, and tiles on demand.
use vstd::prelude::*;

use crate::codec::{bytes_eq, read_name, read_u16, read_u32, read_u64, u16_at, u32_at, u64_at, until_zero};
use crate::format::magic;
use crate::index::{BGZFile, ContigRange};

verus! {

/// Why an index file could not be read.
#[derive(Clone, Copy, Debug, PartialEq, Eq, Structural)]
pub enum LoadError {
    /// The bytes end before the header does.
    Truncated,
    /// The stored tile size is zero.
    ZeroTileSize,
    /// The range data would reach past the largest file offset.
    TooLarge,
}

/// The header of an index file: everything but the range data, plus where each tile's ranges lie.
pub struct IndexHeader {
    /// Whether the file opens with the expected magic bytes.
    pub magic_ok: bool,
    pub version: u16,
    pub tile_size: u32,
    /// Number of tiles of each contig.
    pub tile_counts: Vec<u32>,
    /// Number of ranges of each tile, by contig then tile.
    pub range_counts: Vec<Vec<u32>>,
    /// Absolute file offset of each tile's ranges, by contig then tile.
    pub range_data_index: Vec<Vec<u64>>,
    pub contig_names: Vec<Vec<u8>>,
    pub bgz_files: Vec<BGZFile>,
}

/// Sum of the `k` little-endian `u32` counts stored from `b[base]` on.
pub open spec fn count_sum(b: Seq<u8>, base: int, k: nat) -> nat
    decreases k,
{
    if k == 0 {
        0
    } else {
        (count_sum(b, base, (k - 1) as nat) + u32_at(b, base + 4 * (k - 1))) as nat
    }
}

pub open spec fn contig_count_of(b: Seq<u8>) -> nat {
    u32_at(b, 12) as nat
}

pub open spec fn file_count_of(b: Seq<u8>) -> nat {
    u32_at(b, 16) as nat
}

/// Where the range counts start.
pub open spec fn counts_base(b: Seq<u8>) -> int {
    20 + 4 * (contig_count_of(b) as int)
}

/// Total number of tiles.
pub open spec fn total_tiles(b: Seq<u8>) -> nat {
    count_sum(b, 20, contig_count_of(b))
}

pub open spec fn names_base(b: Seq<u8>) -> int {
    counts_base(b) + 4 * (total_tiles(b) as int)
}

pub open spec fn files_base(b: Seq<u8>) -> int {
    names_base(b) + 40 * (contig_count_of(b) as int)
}

/// Where the range data starts; the header is everything before it.
pub open spec fn data_base(b: Seq<u8>) -> int {
    files_base(b) + 56 * (file_count_of(b) as int)
}

/// Total number of ranges.
pub open spec fn total_ranges(b: Seq<u8>) -> nat {
    count_sum(b, counts_base(b), total_tiles(b))
}

/// Outcome of reading the header held at the start of `b`.
pub open spec fn load_outcome(b: Seq<u8>) -> Result<(), LoadError> {
    if b.len() < 20 {
        Err(LoadError::Truncated)
    } else if u32_at(b, 8) == 0 {
        Err(LoadError::ZeroTileSize)
    } else if b.len() < counts_base(b) || b.len() < data_base(b) {
        Err(LoadError::Truncated)
    } else if data_base(b) + 28 * total_ranges(b) > u64::MAX {
        Err(LoadError::TooLarge)
    } else {
        Ok(())
    }
}

/// The range stored in the 28 bytes at `b[i]`.
pub open spec fn range_at(b: Seq<u8>, i: int) -> ContigRange {
    ContigRange {
        bed_idx: u32_at(b, i),
        start_bp: u64_at(b, i + 4),
        end_bp: u64_at(b, i + 12),
        bgzf_pos: u64_at(b, i + 20),
    }
}


/// Counts never shrink as more of them are added.
pub proof fn lemma_count_sum_monotone(b: Seq<u8>, base: int, k1: nat, k2: nat)
    requires
        k1 <= k2,
    ensures
        count_sum(b, base, k1) <= count_sum(b, base, k2),
    decreases k2,
{
    if k1 < k2 {
        lemma_count_sum_monotone(b, base, k1, (k2 - 1) as nat);
    }
}

/// Reads the tile count of each contig, and their sum unless it overflows.
fn read_tile_counts(b: &[u8], nc: u32) -> (r: (Vec<u32>, Option<u64>))
    requires
        20 + 4 * (nc as int) <= b@.len(),
    ensures
        r.1 is Some ==> r.0@.len() == nc,
        r.1 is Some ==> forall|k: int| 0 <= k < nc ==> #[trigger] r.0@[k] == u32_at(b@, 20 + 4 * k),
        r.1 matches Some(s) ==> s == count_sum(b@, 20, nc as nat),
        r.1 is None ==> count_sum(b@, 20, nc as nat) > u64::MAX,
{
    let len = b.len();
    let mut counts: Vec<u32> = Vec::new();
    let mut sum: u64 = 0;
    let mut k: u32 = 0;
    while k < nc
        invariant
            len == b@.len(),
            k <= nc,
            20 + 4 * (nc as int) <= b@.len(),
            counts@.len() == k,
            forall|j: int| 0 <= j < k ==> #[trigger] counts@[j] == u32_at(b@, 20 + 4 * j),
            sum == count_sum(b@, 20, k as nat),
        decreases nc - k,
    {
        let x = read_u32(b, 20 + 4 * (k as usize));
        if sum > u64::MAX - (x as u64) {
            proof {
                lemma_count_sum_monotone(b@, 20, (k + 1) as nat, nc as nat);
            }
            return (counts, None);
        }
        sum = sum + x as u64;
        counts.push(x);
        k = k + 1;
    }
    (counts, Some(sum))
}

/// Reads each tile's range count and lays out where each tile's ranges start, from `data`
/// on; fails where an offset would pass `u64::MAX`.
fn read_range_counts(b: &[u8], tile_counts: &Vec<u32>, counts_at: u64, data: u64) -> (r: Option<
    (Vec<Vec<u32>>, Vec<Vec<u64>>),
>)
    requires
        tile_counts@.len() == contig_count_of(b@),
        forall|k: int| 0 <= k < tile_counts@.len() ==> #[trigger] tile_counts@[k] == u32_at(b@, 20 + 4 * k),
        counts_at == counts_base(b@),
        data == data_base(b@),
        data <= b@.len(),
        names_base(b@) <= data,
    ensures
        r is None <==> data_base(b@) + 28 * total_ranges(b@) > u64::MAX,
        r matches Some((rc, off)) ==> {
            &&& rc@.len() == tile_counts@.len()
            &&& off@.len() == tile_counts@.len()
            &&& forall|k: int|
                0 <= k < tile_counts@.len() ==> (#[trigger] rc@[k])@.len() == tile_counts@[k]
                    && off@[k]@.len() == tile_counts@[k]
            &&& forall|k: int, t: int|
                0 <= k < tile_counts@.len() && 0 <= t < tile_counts@[k] ==> {
                    let flat = count_sum(b@, 20, k as nat) + t;
                    &&& #[trigger] rc@[k]@[t] == u32_at(b@, counts_base(b@) + 4 * flat)
                    &&& off@[k]@[t] == data_base(b@) + 28 * count_sum(
                        b@,
                        counts_base(b@),
                        flat as nat,
                    )
                    &&& off@[k]@[t] + 28 * rc@[k]@[t] <= u64::MAX
                }
        },
{
    let ghost nc = tile_counts@.len();
    let ghost ct = counts_base(b@);
    let len = b.len();
    let mut rc: Vec<Vec<u32>> = Vec::new();
    let mut offs: Vec<Vec<u64>> = Vec::new();
    let mut off: u64 = data;
    let mut flat: u64 = 0;
    let mut c: usize = 0;
    while c < tile_counts.len()
        invariant
            nc == tile_counts@.len(),
            nc == contig_count_of(b@),
            forall|k: int| 0 <= k < nc ==> #[trigger] tile_counts@[k] == u32_at(b@, 20 + 4 * k),
            ct == counts_base(b@),
            counts_at == ct,
            data == data_base(b@),
            data <= b@.len(),
            len == b@.len(),
            names_base(b@) <= data,
            c <= nc,
            flat == count_sum(b@, 20, c as nat),
            off == data + 28 * count_sum(b@, ct, flat as nat),
            rc@.len() == c,
            offs@.len() == c,
            forall|k: int|
                0 <= k < c ==> (#[trigger] rc@[k])@.len() == tile_counts@[k] && offs@[k]@.len()
                    == tile_counts@[k],
            forall|k: int, t: int|
                0 <= k < c && 0 <= t < tile_counts@[k] ==> {
                    let fl = count_sum(b@, 20, k as nat) + t;
                    &&& #[trigger] rc@[k]@[t] == u32_at(b@, ct + 4 * fl)
                    &&& offs@[k]@[t] == data + 28 * count_sum(b@, ct, fl as nat)
                    &&& offs@[k]@[t] + 28 * rc@[k]@[t] <= u64::MAX
                },
        decreases nc - c,
    {
        let n = tile_counts[c];
        let mut row: Vec<u32> = Vec::new();
        let mut row_off: Vec<u64> = Vec::new();
        let mut t: u32 = 0;
        proof {
            lemma_count_sum_monotone(b@, 20, (c + 1) as nat, nc as nat);
        }
        while t < n
            invariant
                n == tile_counts@[c as int],
                c < nc,
                nc == contig_count_of(b@),
                ct == counts_base(b@),
                counts_at == ct,
                data == data_base(b@),
                data <= b@.len(),
                len == b@.len(),
                names_base(b@) <= data,
                count_sum(b@, 20, (c + 1) as nat) <= total_tiles(b@),
                count_sum(b@, 20, (c + 1) as nat) == count_sum(b@, 20, c as nat) + n,
                t <= n,
                flat == count_sum(b@, 20, c as nat) + t,
                off == data + 28 * count_sum(b@, ct, flat as nat),
                row@.len() == t,
                row_off@.len() == t,
                forall|u: int|
                    0 <= u < t ==> {
                        let fl = count_sum(b@, 20, c as nat) + u;
                        &&& #[trigger] row@[u] == u32_at(b@, ct + 4 * fl)
                        &&& row_off@[u] == data + 28 * count_sum(b@, ct, fl as nat)
                        &&& row_off@[u] + 28 * row@[u] <= u64::MAX
                    },
            decreases n - t,
        {
            assert(counts_at + 4 * flat + 4 <= data);
            let x = read_u32(b, (counts_at + 4 * flat) as usize);
            if off > u64::MAX - 28 * (x as u64) {
                proof {
                    lemma_count_sum_monotone(b@, ct, (flat + 1) as nat, total_tiles(b@));
                }
                return None;
            }
            row.push(x);
            row_off.push(off);
            off = off + 28 * (x as u64);
            flat = flat + 1;
            t = t + 1;
        }
        let ghost rc_before = rc@;
        let ghost offs_before = offs@;
        rc.push(row);
        offs.push(row_off);
        proof {
            assert(count_sum(b@, 20, (c + 1) as nat) == flat);
            assert forall|k: int, t: int|
                0 <= k < c + 1 && 0 <= t < tile_counts@[k] implies {
                    let fl = count_sum(b@, 20, k as nat) + t;
                    &&& #[trigger] rc@[k]@[t] == u32_at(b@, ct + 4 * fl)
                    &&& offs@[k]@[t] == data + 28 * count_sum(b@, ct, fl as nat)
                    &&& offs@[k]@[t] + 28 * rc@[k]@[t] <= u64::MAX
                } by {
                if k < c {
                    assert(rc@[k] == rc_before[k]);
                    assert(offs@[k] == offs_before[k]);
                } else {
                    assert(rc@[k] == row);
                    assert(offs@[k] == row_off);
                }
            }
        }
        c = c + 1;
    }
    assert(flat == total_tiles(b@));
    Some((rc, offs))
}

/// Reads `nc` zero-padded names stored one after another from `b[at]` on.
fn read_names(b: &[u8], nc: u32, at: u64) -> (r: Vec<Vec<u8>>)
    requires
        at + 40 * nc <= b@.len(),
    ensures
        r@.len() == nc,
        forall|j: int|
            0 <= j < nc ==> (#[trigger] r@[j])@ == until_zero(b@.subrange(at + 40 * j, at + 40 * j + 40)),
{
    let len = b.len();
    let mut names: Vec<Vec<u8>> = Vec::new();
    let mut k: u32 = 0;
    while k < nc
        invariant
            k <= nc,
            at + 40 * nc <= b@.len(),
            len == b@.len(),
            names@.len() == k,
            forall|j: int|
                0 <= j < k ==> (#[trigger] names@[j])@ == until_zero(b@.subrange(at + 40 * j, at + 40 * j + 40)),
        decreases nc - k,
    {
        let name = read_name(b, (at + 40 * (k as u64)) as usize);
        names.push(name);
        k = k + 1;
    }
    names
}

/// Reads `nf` file descriptors, 56 bytes each, stored one after another from `b[at]` on.
fn read_files(b: &[u8], nf: u32, at: u64) -> (r: Vec<BGZFile>)
    requires
        at + 56 * nf <= b@.len(),
    ensures
        r@.len() == nf,
        forall|j: int|
            0 <= j < nf ==> {
                let f = #[trigger] r@[j];
                let p = at + 56 * j;
                &&& f.name@ == until_zero(b@.subrange(p, p + 40))
                &&& f.mod_time_bits == u64_at(b@, p + 40)
                &&& f.bytes == u64_at(b@, p + 48)
            },
{
    let len = b.len();
    let mut files: Vec<BGZFile> = Vec::new();
    let mut i: u32 = 0;
    while i < nf
        invariant
            i <= nf,
            at + 56 * nf <= b@.len(),
            len == b@.len(),
            files@.len() == i,
            forall|j: int|
                0 <= j < i ==> {
                    let f = #[trigger] files@[j];
                    let p = at + 56 * j;
                    &&& f.name@ == until_zero(b@.subrange(p, p + 40))
                    &&& f.mod_time_bits == u64_at(b@, p + 40)
                    &&& f.bytes == u64_at(b@, p + 48)
                },
        decreases nf - i,
    {
        let p = (at + 56 * (i as u64)) as usize;
        let name = read_name(b, p);
        let mod_time_bits = read_u64(b, p + 40);
        let bytes = read_u64(b, p + 48);
        files.push(BGZFile { name, mod_time_bits, bytes });
        i = i + 1;
    }
    files
}

impl IndexHeader {
    /// The header agrees with the counts it was built from.
    pub open spec fn wf(&self) -> bool {
        let c = self.tile_counts@.len();
        &&& self.tile_size > 0
        &&& self.range_counts@.len() == c
        &&& self.range_data_index@.len() == c
        &&& self.contig_names@.len() == c
        &&& forall|k: int|
            0 <= k < c ==> (#[trigger] self.range_counts@[k])@.len() == self.tile_counts@[k]
                && self.range_data_index@[k]@.len() == self.tile_counts@[k]
        &&& forall|k: int, t: int|
            0 <= k < c && 0 <= t < self.tile_counts@[k] ==> self.range_data_index@[k]@[t] + 28
                * (#[trigger] self.range_counts@[k]@[t]) <= u64::MAX
    }

    /// The header as `b` stores it.
    pub open spec fn read_from(&self, b: Seq<u8>) -> bool {
        let nc = contig_count_of(b);
        let nf = file_count_of(b);
        &&& self.magic_ok == (b.subrange(0, 6) == magic())
        &&& self.version == u16_at(b, 6)
        &&& self.tile_size == u32_at(b, 8)
        &&& self.tile_counts@.len() == nc
        &&& forall|k: int| 0 <= k < nc ==> #[trigger] self.tile_counts@[k] == u32_at(b, 20 + 4 * k)
        &&& forall|k: int, t: int|
            0 <= k < nc && 0 <= t < self.tile_counts@[k] ==> {
                let flat = count_sum(b, 20, k as nat) + t;
                &&& #[trigger] self.range_counts@[k]@[t] == u32_at(b, counts_base(b) + 4 * flat)
                &&& self.range_data_index@[k]@[t] == data_base(b) + 28 * count_sum(
                    b,
                    counts_base(b),
                    flat as nat,
                )
            }
        &&& forall|k: int|
            0 <= k < nc ==> (#[trigger] self.contig_names@[k])@ == until_zero(
                b.subrange(names_base(b) + 40 * k, names_base(b) + 40 * k + 40),
            )
        &&& self.bgz_files@.len() == nf
        &&& forall|i: int|
            0 <= i < nf ==> {
                let f = #[trigger] self.bgz_files@[i];
                let at = files_base(b) + 56 * i;
                &&& f.name@ == until_zero(b.subrange(at, at + 40))
                &&& f.mod_time_bits == u64_at(b, at + 40)
                &&& f.bytes == u64_at(b, at + 48)
            }
    }

    #[verifier::rlimit(40)]
    /// Reads the header at the start of `b`: the counts, contig names and file descriptors, and
    /// the offset of each tile's ranges. `b` must reach at least to where the range data starts.
    pub fn load(b: &[u8]) -> (r: Result<IndexHeader, LoadError>)
        ensures
            match r {
                Ok(h) => load_outcome(b@) is Ok && h.wf() && h.read_from(b@),
                Err(e) => load_outcome(b@) == Err::<(), _>(e),
            },
    {
        let len = b.len();
        if len < 20 {
            return Err(LoadError::Truncated);
        }
        let magic_ok = b[0] == 35 && b[1] == 82 && b[2] == 95 && b[3] == 73 && b[4] == 68 && b[5]
            == 88;
        assert(magic_ok == (b@.subrange(0, 6) =~= magic()));
        let version = read_u16(b, 6);
        let tile_size = read_u32(b, 8);
        if tile_size == 0 {
            return Err(LoadError::ZeroTileSize);
        }
        let nc = read_u32(b, 12);
        let nf = read_u32(b, 16);
        let counts_at: u64 = 20 + 4 * (nc as u64);
        if (len as u64) < counts_at {
            return Err(LoadError::Truncated);
        }
        let (tile_counts, total) = read_tile_counts(b, nc);
        let total = match total {
            Some(s) => s,
            None => return Err(LoadError::Truncated),
        };
        // names, files and range data follow the range counts
        if total > (u64::MAX - counts_at) / 4 {
            return Err(LoadError::Truncated);
        }
        let names_at = counts_at + 4 * total;
        if names_at > u64::MAX - 40 * (nc as u64) {
            return Err(LoadError::Truncated);
        }
        let files_at = names_at + 40 * (nc as u64);
        if files_at > u64::MAX - 56 * (nf as u64) {
            return Err(LoadError::Truncated);
        }
        let data_at = files_at + 56 * (nf as u64);
        if (len as u64) < data_at {
            return Err(LoadError::Truncated);
        }
        let (range_counts, range_data_index) = match read_range_counts(
            b,
            &tile_counts,
            counts_at,
            data_at,
        ) {
            Some(p) => p,
            None => return Err(LoadError::TooLarge),
        };
        let contig_names = read_names(b, nc, names_at);
        let bgz_files = read_files(b, nf, files_at);
        let h = IndexHeader {
            magic_ok,
            version,
            tile_size,
            tile_counts,
            range_counts,
            range_data_index,
            contig_names,
            bgz_files,
        };
        proof {
            assert(counts_at == counts_base(b@));
            assert(total == total_tiles(b@));
            assert(names_at == names_base(b@));
            assert(files_at == files_base(b@));
            assert(data_at == data_base(b@));
            assert(load_outcome(b@) is Ok);
            assert(h.wf());
            assert(h.read_from(b@));
        }
        Ok(h)
    }

    /// Where the ranges of tile `t` of contig `c` lie in the index file: offset and byte length.
    pub fn tile_location(&self, c: usize, t: usize) -> (r: (u64, u64))
        requires
            self.wf(),
            c < self.tile_counts@.len(),
            t < self.tile_counts@[c as int],
        ensures
            r.0 == self.range_data_index@[c as int]@[t as int],
            r.1 == 28 * self.range_counts@[c as int]@[t as int],
            r.0 + r.1 <= u64::MAX,
    {
        let n = self.range_counts[c][t];
        (self.range_data_index[c][t], 28 * (n as u64))
    }

    /// The dense index of the contig called `name`.
    pub fn contig_index(&self, name: &[u8]) -> (r: Option<usize>)
        ensures
            r matches Some(c) ==> c < self.contig_names@.len() && self.contig_names@[c as int]@
                == name@,
            r matches Some(c) ==> forall|k: int| 0 <= k < c ==> (#[trigger] self.contig_names@[k])@ != name@,
            r is None ==> forall|c: int|
                0 <= c < self.contig_names@.len() ==> (#[trigger] self.contig_names@[c])@ != name@,
    {
        let mut c: usize = 0;
        while c < self.contig_names.len()
            invariant
                c <= self.contig_names@.len(),
                forall|k: int| 0 <= k < c ==> (#[trigger] self.contig_names@[k])@ != name@,
            decreases self.contig_names@.len() - c,
        {
            if bytes_eq(self.contig_names[c].as_slice(), name) {
                return Some(c);
            }
            c = c + 1;
        }
        None
    }
}

/// How many leading bytes of an index file the header needs, judged from its first bytes `b`:
/// enough to read the counts, then enough to reach the range data (at most `u64::MAX`).
/// Reading more until `b` is that long gives `IndexHeader::load` all it reads.
pub fn header_len(b: &[u8]) -> (r: u64)
    ensures
        b@.len() < 20 ==> r == 20,
        b@.len() >= 20 && b@.len() < counts_base(b@) ==> r == counts_base(b@),
        b@.len() >= 20 && b@.len() >= counts_base(b@) ==> r == if data_base(b@) <= u64::MAX {
            data_base(b@)
        } else {
            u64::MAX as int
        },
{
    let len = b.len();
    if len < 20 {
        return 20;
    }
    let nc = read_u32(b, 12);
    let nf = read_u32(b, 16);
    let counts_at: u64 = 20 + 4 * (nc as u64);
    if (len as u64) < counts_at {
        return counts_at;
    }
    let (_, total) = read_tile_counts(b, nc);
    let total = match total {
        Some(s) => s,
        None => return u64::MAX,
    };
    if total > (u64::MAX - counts_at) / 4 {
        return u64::MAX;
    }
    let names_at = counts_at + 4 * total;
    if names_at > u64::MAX - 40 * (nc as u64) {
        return u64::MAX;
    }
    let files_at = names_at + 40 * (nc as u64);
    if files_at > u64::MAX - 56 * (nf as u64) {
        return u64::MAX;
    }
    files_at + 56 * (nf as u64)
}

/// The ranges stored one after another in `b`, 28 bytes each (a trailing partial record is ignored).
pub fn decode_ranges(b: &[u8]) -> (r: Vec<ContigRange>)
    ensures
        r@.len() == b@.len() / 28,
        forall|i: int| 0 <= i < r@.len() ==> #[trigger] r@[i] == range_at(b@, 28 * i),
{
    let len = b.len();
    let n = len / 28;
    let mut r: Vec<ContigRange> = Vec::new();
    let mut i: usize = 0;
    while i < n
        invariant
            len == b@.len(),
            n == b@.len() / 28,
            i <= n,
            r@.len() == i,
            forall|j: int| 0 <= j < i ==> #[trigger] r@[j] == range_at(b@, 28 * j),
        decreases n - i,
    {
        assert(28 * i + 28 <= len) by (nonlinear_arith)
            requires
                i < n,
                n == len / 28,
        ;
        let at = 28 * i;
        r.push(
            ContigRange {
                bed_idx: read_u32(b, at),
                start_bp: read_u64(b, at + 4),
                end_bp: read_u64(b, at + 12),
                bgzf_pos: read_u64(b, at + 20),
            },
        );
        i = i + 1;
    }
    r
}

} // verus!
