//! The on-disk layout of an index, and its writer.
use vstd::prelude::*;

use crate::codec::{le16, le32, le64, padded_name, push_name, push_u16, push_u32, push_u64};
use crate::index::{BGZFile, ContigIndex, ContigRange};
use crate::sort::{sort_by_start, sort_ranges};

verus! {

/// Version of the layout that this library writes.
pub const FORMAT_VERSION: u16 = 0;

/// The six bytes `#R_IDX` that open an index file.
pub open spec fn magic() -> Seq<u8> {
    seq![35u8, 82u8, 95u8, 73u8, 68u8, 88u8]
}

/// The pieces of `s`, one after another.
pub open spec fn concat_all(s: Seq<Seq<u8>>) -> Seq<u8>
    decreases s.len(),
{
    if s.len() == 0 {
        seq![]
    } else {
        concat_all(s.drop_last()) + s.last()
    }
}

pub open spec fn range_bytes(r: ContigRange) -> Seq<u8> {
    le32(r.bed_idx) + le64(r.start_bp) + le64(r.end_bp) + le64(r.bgzf_pos)
}

pub open spec fn ranges_bytes(s: Seq<ContigRange>) -> Seq<u8> {
    concat_all(s.map_values(|r: ContigRange| range_bytes(r)))
}

pub open spec fn file_bytes(f: BGZFile) -> Seq<u8> {
    padded_name(f.name@) + le64(f.mod_time_bits) + le64(f.bytes)
}

/// Tile count of each contig.
pub open spec fn tile_counts_bytes(tiles: Seq<Seq<Seq<ContigRange>>>) -> Seq<u8> {
    concat_all(tiles.map_values(|ct: Seq<Seq<ContigRange>>| le32(ct.len() as u32)))
}

/// Range count of each tile of one contig.
pub open spec fn contig_range_counts_bytes(ct: Seq<Seq<ContigRange>>) -> Seq<u8> {
    concat_all(ct.map_values(|t: Seq<ContigRange>| le32(t.len() as u32)))
}

/// Range count of each tile, contig after contig.
pub open spec fn range_counts_bytes(tiles: Seq<Seq<Seq<ContigRange>>>) -> Seq<u8> {
    concat_all(tiles.map_values(|ct: Seq<Seq<ContigRange>>| contig_range_counts_bytes(ct)))
}

pub open spec fn names_bytes(names: Seq<Seq<u8>>) -> Seq<u8> {
    concat_all(names.map_values(|n: Seq<u8>| padded_name(n)))
}

pub open spec fn files_bytes(files: Seq<BGZFile>) -> Seq<u8> {
    concat_all(files.map_values(|f: BGZFile| file_bytes(f)))
}

/// The sorted ranges of each tile of one contig.
pub open spec fn contig_data_bytes(ct: Seq<Seq<ContigRange>>) -> Seq<u8> {
    concat_all(ct.map_values(|t: Seq<ContigRange>| ranges_bytes(sort_by_start(t))))
}

/// The sorted ranges of each tile, contig after contig.
pub open spec fn data_bytes(tiles: Seq<Seq<Seq<ContigRange>>>) -> Seq<u8> {
    concat_all(tiles.map_values(|ct: Seq<Seq<ContigRange>>| contig_data_bytes(ct)))
}

/// The bytes of an index file.
pub open spec fn index_bytes(
    tile_size: u32,
    names: Seq<Seq<u8>>,
    tiles: Seq<Seq<Seq<ContigRange>>>,
    files: Seq<BGZFile>,
) -> Seq<u8> {
    magic() + le16(FORMAT_VERSION) + le32(tile_size) + le32(names.len() as u32) + le32(
        files.len() as u32,
    ) + tile_counts_bytes(tiles) + range_counts_bytes(tiles) + names_bytes(names) + files_bytes(
        files,
    ) + data_bytes(tiles)
}

/// One range in the IGD-compatible layout: its 28 bytes, padded to 32 as a C compiler aligns it.
pub open spec fn igd_range_bytes(r: ContigRange) -> Seq<u8> {
    range_bytes(r) + le32(0)
}

pub open spec fn igd_ranges_bytes(s: Seq<ContigRange>) -> Seq<u8> {
    concat_all(s.map_values(|r: ContigRange| igd_range_bytes(r)))
}

/// One contig's data in the IGD-compatible layout: its tile count, then each tile's sorted ranges.
pub open spec fn igd_contig_bytes(ct: Seq<Seq<ContigRange>>) -> Seq<u8> {
    le32(ct.len() as u32) + concat_all(
        ct.map_values(|t: Seq<ContigRange>| igd_ranges_bytes(sort_by_start(t))),
    )
}

/// The bytes of an index in the IGD-compatible layout: tile size, a type tag of 1, contig
/// count, tile and range counts, names, then each contig's data.
pub open spec fn igd_bytes(
    tile_size: u32,
    names: Seq<Seq<u8>>,
    tiles: Seq<Seq<Seq<ContigRange>>>,
) -> Seq<u8> {
    le32(tile_size) + le32(1) + le32(names.len() as u32) + tile_counts_bytes(tiles)
        + range_counts_bytes(tiles) + names_bytes(names) + concat_all(
        tiles.map_values(|ct: Seq<Seq<ContigRange>>| igd_contig_bytes(ct)),
    )
}

proof fn lemma_concat_step(s: Seq<Seq<u8>>, k: int)
    requires
        0 <= k < s.len(),
    ensures
        concat_all(s.take(k + 1)) == concat_all(s.take(k)) + s[k],
{
    assert(s.take(k + 1).drop_last() =~= s.take(k));
}

proof fn lemma_concat_whole(s: Seq<Seq<u8>>)
    ensures
        concat_all(s.take(s.len() as int)) == concat_all(s),
{
    assert(s.take(s.len() as int) =~= s);
}

fn push_range(out: &mut Vec<u8>, r: ContigRange)
    ensures
        final(out)@ == old(out)@ + range_bytes(r),
{
    push_u32(out, r.bed_idx);
    push_u64(out, r.start_bp);
    push_u64(out, r.end_bp);
    push_u64(out, r.bgzf_pos);
    assert(final(out)@ =~= old(out)@ + range_bytes(r));
}

fn push_ranges(out: &mut Vec<u8>, v: &[ContigRange])
    ensures
        final(out)@ == old(out)@ + ranges_bytes(v@),
{
    let ghost start = out@;
    let ghost pieces = v@.map_values(|r: ContigRange| range_bytes(r));
    let mut i: usize = 0;
    while i < v.len()
        invariant
            i <= v@.len(),
            pieces == v@.map_values(|r: ContigRange| range_bytes(r)),
            out@ == start + concat_all(pieces.take(i as int)),
        decreases v@.len() - i,
    {
        proof {
            lemma_concat_step(pieces, i as int);
        }
        push_range(out, v[i]);
        assert(out@ =~= start + concat_all(pieces.take(i + 1)));
        i = i + 1;
    }
    proof {
        lemma_concat_whole(pieces);
    }
}

fn push_file(out: &mut Vec<u8>, f: &BGZFile)
    ensures
        final(out)@ == old(out)@ + file_bytes(*f),
{
    push_name(out, f.name.as_slice());
    push_u64(out, f.mod_time_bits);
    push_u64(out, f.bytes);
    assert(final(out)@ =~= old(out)@ + file_bytes(*f));
}

fn push_tile_counts(out: &mut Vec<u8>, idx: &ContigIndex)
    ensures
        final(out)@ == old(out)@ + tile_counts_bytes(idx.all_tiles()),
{
    proof {
        idx.lemma_all_tiles();
    }
    let ghost start = out@;
    let ghost tiles = idx.all_tiles();
    let ghost pieces = tiles.map_values(|ct: Seq<Seq<ContigRange>>| le32(ct.len() as u32));
    let nc = idx.contig_count();
    let mut c: usize = 0;
    while c < nc
        invariant
            nc == tiles.len(),
            tiles == idx.all_tiles(),
            forall|k: int| 0 <= k < tiles.len() ==> #[trigger] tiles[k] == idx.tiles(k),
            tiles.len() == idx.names().len(),
            c <= nc,
            pieces == tiles.map_values(|ct: Seq<Seq<ContigRange>>| le32(ct.len() as u32)),
            out@ == start + concat_all(pieces.take(c as int)),
        decreases nc - c,
    {
        proof {
            lemma_concat_step(pieces, c as int);
        }
        let n = idx.contig_tile_count(c);
        push_u32(out, n as u32);
        assert(out@ =~= start + concat_all(pieces.take(c + 1)));
        c = c + 1;
    }
    proof {
        lemma_concat_whole(pieces);
    }
}

fn push_range_counts(out: &mut Vec<u8>, idx: &ContigIndex)
    ensures
        final(out)@ == old(out)@ + range_counts_bytes(idx.all_tiles()),
{
    proof {
        idx.lemma_all_tiles();
    }
    let ghost start = out@;
    let ghost tiles = idx.all_tiles();
    let ghost pieces = tiles.map_values(|ct: Seq<Seq<ContigRange>>| contig_range_counts_bytes(ct));
    let nc = idx.contig_count();
    let mut c: usize = 0;
    while c < nc
        invariant
            nc == tiles.len(),
            tiles == idx.all_tiles(),
            forall|k: int| 0 <= k < tiles.len() ==> #[trigger] tiles[k] == idx.tiles(k),
            tiles.len() == idx.names().len(),
            c <= nc,
            pieces == tiles.map_values(|ct: Seq<Seq<ContigRange>>| contig_range_counts_bytes(ct)),
            out@ == start + concat_all(pieces.take(c as int)),
        decreases nc - c,
    {
        proof {
            lemma_concat_step(pieces, c as int);
        }
        let ghost mid = out@;
        let ghost ct = tiles[c as int];
        let ghost inner = ct.map_values(|t: Seq<ContigRange>| le32(t.len() as u32));
        let nt = idx.contig_tile_count(c);
        let mut t: usize = 0;
        while t < nt
            invariant
                c < nc,
                nc == idx.names().len(),
                ct == idx.tiles(c as int),
                nt == ct.len(),
                t <= nt,
                inner == ct.map_values(|t: Seq<ContigRange>| le32(t.len() as u32)),
                out@ == mid + concat_all(inner.take(t as int)),
            decreases nt - t,
        {
            proof {
                lemma_concat_step(inner, t as int);
            }
            let n = idx.tile(c, t).len();
            push_u32(out, n as u32);
            assert(out@ =~= mid + concat_all(inner.take(t + 1)));
            t = t + 1;
        }
        proof {
            lemma_concat_whole(inner);
        }
        assert(out@ =~= start + concat_all(pieces.take(c + 1)));
        c = c + 1;
    }
    proof {
        lemma_concat_whole(pieces);
    }
}

fn push_names(out: &mut Vec<u8>, idx: &ContigIndex)
    ensures
        final(out)@ == old(out)@ + names_bytes(idx.names()),
{
    let ghost start = out@;
    let ghost pieces = idx.names().map_values(|n: Seq<u8>| padded_name(n));
    let nc = idx.contig_count();
    let mut c: usize = 0;
    while c < nc
        invariant
            nc == idx.names().len(),
            c <= nc,
            pieces == idx.names().map_values(|n: Seq<u8>| padded_name(n)),
            out@ == start + concat_all(pieces.take(c as int)),
        decreases nc - c,
    {
        proof {
            lemma_concat_step(pieces, c as int);
        }
        push_name(out, idx.contig_name(c));
        assert(out@ =~= start + concat_all(pieces.take(c + 1)));
        c = c + 1;
    }
    proof {
        lemma_concat_whole(pieces);
    }
}

fn push_files(out: &mut Vec<u8>, idx: &ContigIndex)
    ensures
        final(out)@ == old(out)@ + files_bytes(idx.files()),
{
    let ghost start = out@;
    let ghost pieces = idx.files().map_values(|f: BGZFile| file_bytes(f));
    let nf = idx.file_count();
    let mut i: usize = 0;
    while i < nf
        invariant
            nf == idx.files().len(),
            i <= nf,
            pieces == idx.files().map_values(|f: BGZFile| file_bytes(f)),
            out@ == start + concat_all(pieces.take(i as int)),
        decreases nf - i,
    {
        proof {
            lemma_concat_step(pieces, i as int);
        }
        push_file(out, idx.file(i));
        assert(out@ =~= start + concat_all(pieces.take(i + 1)));
        i = i + 1;
    }
    proof {
        lemma_concat_whole(pieces);
    }
}

fn push_data(out: &mut Vec<u8>, idx: &ContigIndex)
    ensures
        final(out)@ == old(out)@ + data_bytes(idx.all_tiles()),
{
    proof {
        idx.lemma_all_tiles();
    }
    let ghost start = out@;
    let ghost tiles = idx.all_tiles();
    let ghost pieces = tiles.map_values(|ct: Seq<Seq<ContigRange>>| contig_data_bytes(ct));
    let nc = idx.contig_count();
    let mut c: usize = 0;
    while c < nc
        invariant
            nc == tiles.len(),
            tiles == idx.all_tiles(),
            forall|k: int| 0 <= k < tiles.len() ==> #[trigger] tiles[k] == idx.tiles(k),
            tiles.len() == idx.names().len(),
            c <= nc,
            pieces == tiles.map_values(|ct: Seq<Seq<ContigRange>>| contig_data_bytes(ct)),
            out@ == start + concat_all(pieces.take(c as int)),
        decreases nc - c,
    {
        proof {
            lemma_concat_step(pieces, c as int);
        }
        let ghost mid = out@;
        let ghost ct = tiles[c as int];
        let ghost inner = ct.map_values(|t: Seq<ContigRange>| ranges_bytes(sort_by_start(t)));
        let nt = idx.contig_tile_count(c);
        let mut t: usize = 0;
        while t < nt
            invariant
                c < nc,
                nc == idx.names().len(),
                ct == idx.tiles(c as int),
                nt == ct.len(),
                t <= nt,
                inner == ct.map_values(|t: Seq<ContigRange>| ranges_bytes(sort_by_start(t))),
                out@ == mid + concat_all(inner.take(t as int)),
            decreases nt - t,
        {
            proof {
                lemma_concat_step(inner, t as int);
            }
            let sorted = sort_ranges(idx.tile(c, t));
            push_ranges(out, sorted.as_slice());
            assert(out@ =~= mid + concat_all(inner.take(t + 1)));
            t = t + 1;
        }
        proof {
            lemma_concat_whole(inner);
        }
        assert(out@ =~= start + concat_all(pieces.take(c + 1)));
        c = c + 1;
    }
    proof {
        lemma_concat_whole(pieces);
    }
}

fn push_igd_ranges(out: &mut Vec<u8>, v: &[ContigRange])
    ensures
        final(out)@ == old(out)@ + igd_ranges_bytes(v@),
{
    let ghost start = out@;
    let ghost pieces = v@.map_values(|r: ContigRange| igd_range_bytes(r));
    let mut i: usize = 0;
    while i < v.len()
        invariant
            i <= v@.len(),
            pieces == v@.map_values(|r: ContigRange| igd_range_bytes(r)),
            out@ == start + concat_all(pieces.take(i as int)),
        decreases v@.len() - i,
    {
        proof {
            lemma_concat_step(pieces, i as int);
        }
        push_range(out, v[i]);
        push_u32(out, 0);
        assert(out@ =~= start + concat_all(pieces.take(i + 1)));
        i = i + 1;
    }
    proof {
        lemma_concat_whole(pieces);
    }
}

fn push_igd_data(out: &mut Vec<u8>, idx: &ContigIndex)
    ensures
        final(out)@ == old(out)@ + concat_all(
            idx.all_tiles().map_values(|ct: Seq<Seq<ContigRange>>| igd_contig_bytes(ct)),
        ),
{
    proof {
        idx.lemma_all_tiles();
    }
    let ghost start = out@;
    let ghost tiles = idx.all_tiles();
    let ghost pieces = tiles.map_values(|ct: Seq<Seq<ContigRange>>| igd_contig_bytes(ct));
    let nc = idx.contig_count();
    let mut c: usize = 0;
    while c < nc
        invariant
            nc == tiles.len(),
            tiles == idx.all_tiles(),
            forall|k: int| 0 <= k < tiles.len() ==> #[trigger] tiles[k] == idx.tiles(k),
            tiles.len() == idx.names().len(),
            c <= nc,
            pieces == tiles.map_values(|ct: Seq<Seq<ContigRange>>| igd_contig_bytes(ct)),
            out@ == start + concat_all(pieces.take(c as int)),
        decreases nc - c,
    {
        proof {
            lemma_concat_step(pieces, c as int);
        }
        let ghost ct = tiles[c as int];
        let ghost inner = ct.map_values(|t: Seq<ContigRange>| igd_ranges_bytes(sort_by_start(t)));
        let nt = idx.contig_tile_count(c);
        push_u32(out, nt as u32);
        let ghost mid = out@;
        let mut t: usize = 0;
        while t < nt
            invariant
                c < nc,
                nc == idx.names().len(),
                ct == idx.tiles(c as int),
                nt == ct.len(),
                t <= nt,
                inner == ct.map_values(|t: Seq<ContigRange>| igd_ranges_bytes(sort_by_start(t))),
                out@ == mid + concat_all(inner.take(t as int)),
            decreases nt - t,
        {
            proof {
                lemma_concat_step(inner, t as int);
            }
            let sorted = sort_ranges(idx.tile(c, t));
            push_igd_ranges(out, sorted.as_slice());
            assert(out@ =~= mid + concat_all(inner.take(t + 1)));
            t = t + 1;
        }
        proof {
            lemma_concat_whole(inner);
        }
        assert(out@ =~= start + concat_all(pieces.take(c + 1)));
        c = c + 1;
    }
    proof {
        lemma_concat_whole(pieces);
    }
}

impl ContigIndex {
    /// The index file for this index: header, counts, names, file descriptors, then each
    /// tile's ranges sorted by start.
    pub fn serialize(&self) -> (r: Vec<u8>)
        requires
            self.wf(),
            self.fits_format(),
        ensures
            r@ == index_bytes(
                self.spec_tile_size() as u32,
                self.names(),
                self.all_tiles(),
                self.files(),
            ),
    {
        let mut out: Vec<u8> = Vec::new();
        out.push(35u8);
        out.push(82u8);
        out.push(95u8);
        out.push(73u8);
        out.push(68u8);
        out.push(88u8);
        assert(out@ =~= magic());
        push_u16(&mut out, FORMAT_VERSION);
        push_u32(&mut out, self.tile_size());
        push_u32(&mut out, self.contig_count() as u32);
        push_u32(&mut out, self.file_count() as u32);
        push_tile_counts(&mut out, self);
        push_range_counts(&mut out, self);
        push_names(&mut out, self);
        push_files(&mut out, self);
        push_data(&mut out, self);
        out
    }

    /// The index in the IGD-compatible layout, which readers of that format can load.
    pub fn serialize_igd(&self) -> (r: Vec<u8>)
        requires
            self.wf(),
            self.fits_format(),
        ensures
            r@ == igd_bytes(self.spec_tile_size() as u32, self.names(), self.all_tiles()),
    {
        let mut out: Vec<u8> = Vec::new();
        push_u32(&mut out, self.tile_size());
        push_u32(&mut out, 1);
        push_u32(&mut out, self.contig_count() as u32);
        push_tile_counts(&mut out, self);
        push_range_counts(&mut out, self);
        push_names(&mut out, self);
        push_igd_data(&mut out, self);
        assert(out@ =~= igd_bytes(self.spec_tile_size() as u32, self.names(), self.all_tiles()));
        out
    }
}

} // verus!
