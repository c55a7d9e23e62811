//! Reading back what was written: the loader recovers the index that the writer persisted.
use vstd::prelude::*;

use crate::codec::{
    le16, le32, le64, lemma_u16_round_trip, lemma_u32_round_trip, lemma_u64_round_trip,
    lemma_until_zero_at, padded_name, u16_at, u32_at, u64_at, until_zero,
};
use crate::format::{
    FORMAT_VERSION, concat_all, contig_data_bytes, contig_range_counts_bytes, data_bytes,
    file_bytes, files_bytes, index_bytes, magic, names_bytes, range_bytes, range_counts_bytes,
    ranges_bytes, tile_counts_bytes,
};
use crate::loader::{
    IndexHeader, count_sum, counts_base, data_base, load_outcome, range_at, total_ranges, total_tiles,
};
use crate::sort::{lemma_sort_sorted, sort_by_start};
use crate::index::{BGZFile, ContigIndex, ContigRange};

verus! {

/// Total length of the pieces of `s`.
pub open spec fn lens_sum(s: Seq<Seq<u8>>) -> nat
    decreases s.len(),
{
    if s.len() == 0 {
        0
    } else {
        lens_sum(s.drop_last()) + s.last().len()
    }
}

pub proof fn lemma_concat_len(s: Seq<Seq<u8>>)
    ensures
        concat_all(s).len() == lens_sum(s),
    decreases s.len(),
{
    if s.len() > 0 {
        lemma_concat_len(s.drop_last());
    }
}

pub proof fn lemma_concat_add(a: Seq<Seq<u8>>, b: Seq<Seq<u8>>)
    ensures
        concat_all(a + b) == concat_all(a) + concat_all(b),
    decreases b.len(),
{
    if b.len() == 0 {
        assert(a + b =~= a);
        assert(concat_all(a) + concat_all(b) =~= concat_all(a));
    } else {
        lemma_concat_add(a, b.drop_last());
        assert((a + b).drop_last() =~= a + b.drop_last());
        assert((a + b).last() == b.last());
        assert(concat_all(a + b) =~= concat_all(a) + concat_all(b));
    }
}

/// The pieces before `s[k]`, `s[k]` itself, and those after it.
pub proof fn lemma_concat_split(s: Seq<Seq<u8>>, k: int)
    requires
        0 <= k < s.len(),
    ensures
        concat_all(s) == concat_all(s.take(k)) + s[k] + concat_all(s.skip(k + 1)),
        concat_all(s.take(k)).len() == lens_sum(s.take(k)),
{
    assert(s =~= s.take(k) + (seq![s[k]] + s.skip(k + 1)));
    lemma_concat_add(s.take(k), seq![s[k]] + s.skip(k + 1));
    lemma_concat_add(seq![s[k]], s.skip(k + 1));
    let one = seq![s[k]];
    assert(one.drop_last() =~= Seq::<Seq<u8>>::empty());
    assert(concat_all(one.drop_last()) == Seq::<u8>::empty());
    assert(concat_all(one) == concat_all(one.drop_last()) + one.last());
    assert(concat_all(one) =~= s[k]);
    lemma_concat_len(s.take(k));
}

/// Pieces of one width `w`: the first `k` of them take `w * k` bytes.
pub proof fn lemma_uniform_sum(s: Seq<Seq<u8>>, w: nat, k: int)
    requires
        0 <= k <= s.len(),
        forall|i: int| 0 <= i < s.len() ==> (#[trigger] s[i]).len() == w,
    ensures
        lens_sum(s.take(k)) == w * k,
    decreases k,
{
    if k > 0 {
        lemma_uniform_sum(s, w, k - 1);
        assert(s.take(k).drop_last() =~= s.take(k - 1));
        assert(s.take(k).last() == s[k - 1]);
        assert(w * k == w * (k - 1) + w) by (nonlinear_arith);
    } else {
        assert(s.take(k) =~= Seq::<Seq<u8>>::empty());
        assert(w * 0 == 0);
    }
}

pub proof fn lemma_u32_within(x: Seq<u8>, y: Seq<u8>, z: Seq<u8>, i: int)
    requires
        0 <= i,
        i + 4 <= y.len(),
    ensures
        u32_at(x + y + z, x.len() + i) == u32_at(y, i),
{
    let b = x + y + z;
    let p = x.len() + i;
    assert(b[p] == y[i] && b[p + 1] == y[i + 1] && b[p + 2] == y[i + 2] && b[p + 3] == y[i + 3]);
}

pub proof fn lemma_u64_within(x: Seq<u8>, y: Seq<u8>, z: Seq<u8>, i: int)
    requires
        0 <= i,
        i + 8 <= y.len(),
    ensures
        u64_at(x + y + z, x.len() + i) == u64_at(y, i),
{
    let b = x + y + z;
    let p = x.len() + i;
    assert(b[p] == y[i] && b[p + 1] == y[i + 1] && b[p + 2] == y[i + 2] && b[p + 3] == y[i + 3]);
    assert(b[p + 4] == y[i + 4] && b[p + 5] == y[i + 5] && b[p + 6] == y[i + 6] && b[p + 7] == y[
        i + 7
    ]);
}

pub proof fn lemma_sub_within(x: Seq<u8>, y: Seq<u8>, z: Seq<u8>, i: int, n: int)
    requires
        0 <= i,
        0 <= n,
        i + n <= y.len(),
    ensures
        (x + y + z).subrange(x.len() + i, x.len() + i + n) == y.subrange(i, i + n),
{
    assert((x + y + z).subrange(x.len() + i, x.len() + i + n) =~= y.subrange(i, i + n));
}


/// The 20 bytes that open an index file.
pub open spec fn head_bytes(ts: u32, nc: nat, nf: nat) -> Seq<u8> {
    magic() + le16(FORMAT_VERSION) + le32(ts) + le32(nc as u32) + le32(nf as u32)
}

/// Number of tiles of the first `k` contigs.
pub open spec fn tiles_before(tiles: Seq<Seq<Seq<ContigRange>>>, k: int) -> nat
    decreases k,
{
    if k <= 0 {
        0
    } else {
        tiles_before(tiles, k - 1) + tiles[k - 1].len()
    }
}

/// What the layout needs to hold its counts in 32 bits.
pub open spec fn counts_fit(
    names: Seq<Seq<u8>>,
    tiles: Seq<Seq<Seq<ContigRange>>>,
    files: Seq<BGZFile>,
) -> bool {
    &&& names.len() == tiles.len()
    &&& names.len() <= u32::MAX
    &&& files.len() <= u32::MAX
    &&& forall|c: int| 0 <= c < tiles.len() ==> (#[trigger] tiles[c]).len() <= u32::MAX
    &&& forall|c: int, t: int|
        0 <= c < tiles.len() && 0 <= t < tiles[c].len() ==> (#[trigger] tiles[c][t]).len()
            <= u32::MAX
}

proof fn lemma_head(ts: u32, nc: nat, nf: nat, rest: Seq<u8>)
    requires
        nc <= u32::MAX,
        nf <= u32::MAX,
    ensures
        head_bytes(ts, nc, nf).len() == 20,
        ({
            let b = head_bytes(ts, nc, nf) + rest;
            &&& b.subrange(0, 6) == magic()
            &&& u16_at(b, 6) == FORMAT_VERSION
            &&& u32_at(b, 8) == ts
            &&& u32_at(b, 12) == nc
            &&& u32_at(b, 16) == nf
        }),
{
    let h = head_bytes(ts, nc, nf);
    let b = h + rest;
    assert(b.subrange(0, 6) =~= magic());
    assert(b.subrange(6, 8) =~= le16(FORMAT_VERSION));
    assert(b.subrange(8, 12) =~= le32(ts));
    assert(b.subrange(12, 16) =~= le32(nc as u32));
    assert(b.subrange(16, 20) =~= le32(nf as u32));
    lemma_u16_round_trip(FORMAT_VERSION, b, 6);
    lemma_u32_round_trip(ts, b, 8);
    lemma_u32_round_trip(nc as u32, b, 12);
    lemma_u32_round_trip(nf as u32, b, 16);
}

proof fn lemma_le32_piece(v: u32, y: Seq<u8>, x: Seq<u8>, z: Seq<u8>)
    requires
        y == le32(v),
    ensures
        u32_at(x + y + z, x.len() as int) == v,
{
    lemma_u32_within(x, y, z, 0);
    assert(y.subrange(0, 4) =~= le32(v));
    lemma_u32_round_trip(v, y, 0);
}

/// The tile count of contig `k` sits at `20 + 4 * k`.
proof fn lemma_tile_count_at(
    ts: u32,
    names: Seq<Seq<u8>>,
    tiles: Seq<Seq<Seq<ContigRange>>>,
    files: Seq<BGZFile>,
    k: int,
)
    requires
        counts_fit(names, tiles, files),
        0 <= k < tiles.len(),
    ensures
        u32_at(index_bytes(ts, names, tiles, files), 20 + 4 * k) == tiles[k].len(),
{
    let h = head_bytes(ts, names.len(), files.len());
    lemma_head(ts, names.len(), files.len(), Seq::empty());
    let pieces = tiles.map_values(|ct: Seq<Seq<ContigRange>>| le32(ct.len() as u32));
    lemma_concat_split(pieces, k);
    lemma_uniform_sum(pieces, 4, k);
    let a = concat_all(pieces.take(k));
    let z = concat_all(pieces.skip(k + 1));
    let rest = range_counts_bytes(tiles) + names_bytes(names) + files_bytes(files) + data_bytes(tiles);
    assert(index_bytes(ts, names, tiles, files) =~= (h + a) + pieces[k] + (z + rest));
    lemma_le32_piece(tiles[k].len() as u32, pieces[k], h + a, z + rest);
}

/// The tile counts add up as the stored counts do.
proof fn lemma_tiles_before(
    ts: u32,
    names: Seq<Seq<u8>>,
    tiles: Seq<Seq<Seq<ContigRange>>>,
    files: Seq<BGZFile>,
    k: int,
)
    requires
        counts_fit(names, tiles, files),
        0 <= k <= tiles.len(),
    ensures
        crate::loader::count_sum(index_bytes(ts, names, tiles, files), 20, k as nat)
            == tiles_before(tiles, k),
    decreases k,
{
    if k > 0 {
        lemma_tiles_before(ts, names, tiles, files, k - 1);
        lemma_tile_count_at(ts, names, tiles, files, k - 1);
    }
}


/// Number of ranges in the first `t` tiles of one contig.
pub open spec fn ranges_in(ct: Seq<Seq<ContigRange>>, t: int) -> nat
    decreases t,
{
    if t <= 0 {
        0
    } else {
        ranges_in(ct, t - 1) + ct[t - 1].len()
    }
}

/// Number of ranges in all tiles of the first `c` contigs.
pub open spec fn ranges_before(tiles: Seq<Seq<Seq<ContigRange>>>, c: int) -> nat
    decreases c,
{
    if c <= 0 {
        0
    } else {
        ranges_before(tiles, c - 1) + ranges_in(tiles[c - 1], tiles[c - 1].len() as int)
    }
}

proof fn lemma_tile_counts_len(tiles: Seq<Seq<Seq<ContigRange>>>)
    ensures
        tile_counts_bytes(tiles).len() == 4 * tiles.len(),
{
    let pieces = tiles.map_values(|ct: Seq<Seq<ContigRange>>| le32(ct.len() as u32));
    lemma_concat_len(pieces);
    lemma_uniform_sum(pieces, 4, tiles.len() as int);
    assert(pieces.take(tiles.len() as int) =~= pieces);
}

proof fn lemma_contig_counts_len(ct: Seq<Seq<ContigRange>>)
    ensures
        contig_range_counts_bytes(ct).len() == 4 * ct.len(),
{
    let pieces = ct.map_values(|t: Seq<ContigRange>| le32(t.len() as u32));
    lemma_concat_len(pieces);
    lemma_uniform_sum(pieces, 4, ct.len() as int);
    assert(pieces.take(ct.len() as int) =~= pieces);
}

proof fn lemma_counts_prefix_len(tiles: Seq<Seq<Seq<ContigRange>>>, c: int)
    requires
        0 <= c <= tiles.len(),
    ensures
        lens_sum(
            tiles.map_values(|ct: Seq<Seq<ContigRange>>| contig_range_counts_bytes(ct)).take(c),
        ) == 4 * tiles_before(tiles, c),
    decreases c,
{
    let pieces = tiles.map_values(|ct: Seq<Seq<ContigRange>>| contig_range_counts_bytes(ct));
    if c > 0 {
        lemma_counts_prefix_len(tiles, c - 1);
        assert(pieces.take(c).drop_last() =~= pieces.take(c - 1));
        lemma_contig_counts_len(tiles[c - 1]);
    } else {
        assert(pieces.take(0) =~= Seq::<Seq<u8>>::empty());
    }
}

proof fn lemma_range_counts_len(tiles: Seq<Seq<Seq<ContigRange>>>)
    ensures
        range_counts_bytes(tiles).len() == 4 * tiles_before(tiles, tiles.len() as int),
{
    let pieces = tiles.map_values(|ct: Seq<Seq<ContigRange>>| contig_range_counts_bytes(ct));
    lemma_concat_len(pieces);
    lemma_counts_prefix_len(tiles, tiles.len() as int);
    assert(pieces.take(tiles.len() as int) =~= pieces);
}

proof fn lemma_nest(
    p: Seq<u8>,
    a: Seq<u8>,
    ia: Seq<u8>,
    ip: Seq<u8>,
    iz: Seq<u8>,
    z: Seq<u8>,
    rest: Seq<u8>,
)
    ensures
        p + (a + (ia + ip + iz) + z) + rest == (p + a + ia) + ip + (iz + z + rest),
{
    assert(p + (a + (ia + ip + iz) + z) + rest =~= (p + a + ia) + ip + (iz + z + rest));
}

proof fn lemma_split3(x: Seq<u8>, y: Seq<u8>, z: Seq<u8>, w: Seq<u8>, v: Seq<u8>, u: Seq<u8>)
    ensures
        x + y + z + w + v + u == (x + y) + z + (w + v + u),
{
    assert(x + y + z + w + v + u =~= (x + y) + z + (w + v + u));
}

/// The range count of tile `t` of contig `c` sits in the flat, row-major list of counts.
proof fn lemma_range_count_at(
    ts: u32,
    names: Seq<Seq<u8>>,
    tiles: Seq<Seq<Seq<ContigRange>>>,
    files: Seq<BGZFile>,
    c: int,
    t: int,
)
    requires
        counts_fit(names, tiles, files),
        0 <= c < tiles.len(),
        0 <= t < tiles[c].len(),
    ensures
        u32_at(
            index_bytes(ts, names, tiles, files),
            20 + 4 * tiles.len() + 4 * (tiles_before(tiles, c) + t),
        ) == tiles[c][t].len(),
{
    let h = head_bytes(ts, names.len(), files.len());
    lemma_head(ts, names.len(), files.len(), Seq::empty());
    lemma_tile_counts_len(tiles);
    let tc = tile_counts_bytes(tiles);
    let cpieces = tiles.map_values(|ct: Seq<Seq<ContigRange>>| contig_range_counts_bytes(ct));
    lemma_concat_split(cpieces, c);
    lemma_counts_prefix_len(tiles, c);
    let a = concat_all(cpieces.take(c));
    let z = concat_all(cpieces.skip(c + 1));
    let ipieces = tiles[c].map_values(|u: Seq<ContigRange>| le32(u.len() as u32));
    lemma_concat_split(ipieces, t);
    lemma_uniform_sum(ipieces, 4, t);
    let ia = concat_all(ipieces.take(t));
    let iz = concat_all(ipieces.skip(t + 1));
    assert(cpieces[c] == concat_all(ipieces));
    let rest = names_bytes(names) + files_bytes(files) + data_bytes(tiles);
    lemma_split3(h, tc, range_counts_bytes(tiles), names_bytes(names), files_bytes(files), data_bytes(tiles));
    lemma_nest(h + tc, a, ia, ipieces[t], iz, z, rest);
    lemma_le32_piece(tiles[c][t].len() as u32, ipieces[t], h + tc + a + ia, iz + z + rest);
}

/// The stored range counts add up, row by row, to the ranges before each tile.
proof fn lemma_ranges_before(
    ts: u32,
    names: Seq<Seq<u8>>,
    tiles: Seq<Seq<Seq<ContigRange>>>,
    files: Seq<BGZFile>,
    c: int,
    t: int,
)
    requires
        counts_fit(names, tiles, files),
        0 <= c <= tiles.len(),
        0 <= t,
        c < tiles.len() ==> t <= tiles[c].len(),
        c == tiles.len() ==> t == 0,
    ensures
        crate::loader::count_sum(
            index_bytes(ts, names, tiles, files),
            20 + 4 * (tiles.len() as int),
            (tiles_before(tiles, c) + t) as nat,
        ) == ranges_before(tiles, c) + ranges_in(
            if c < tiles.len() {
                tiles[c]
            } else {
                Seq::<Seq<ContigRange>>::empty()
            },
            t,
        ),
    decreases c, t,
{
    let b = index_bytes(ts, names, tiles, files);
    if t > 0 {
        lemma_ranges_before(ts, names, tiles, files, c, t - 1);
        lemma_range_count_at(ts, names, tiles, files, c, t - 1);
    } else if c > 0 {
        lemma_ranges_before(ts, names, tiles, files, c - 1, tiles[c - 1].len() as int);
    }
}


proof fn lemma_names_len(names: Seq<Seq<u8>>)
    ensures
        names_bytes(names).len() == 40 * names.len(),
{
    let pieces = names.map_values(|n: Seq<u8>| padded_name(n));
    lemma_concat_len(pieces);
    lemma_uniform_sum(pieces, 40, names.len() as int);
    assert(pieces.take(names.len() as int) =~= pieces);
}

proof fn lemma_files_len(files: Seq<BGZFile>)
    ensures
        files_bytes(files).len() == 56 * files.len(),
{
    let pieces = files.map_values(|f: BGZFile| file_bytes(f));
    lemma_concat_len(pieces);
    lemma_uniform_sum(pieces, 56, files.len() as int);
    assert(pieces.take(files.len() as int) =~= pieces);
}

proof fn lemma_split_names(x: Seq<u8>, y: Seq<u8>, z: Seq<u8>, w: Seq<u8>, v: Seq<u8>, u: Seq<u8>)
    ensures
        x + y + z + w + v + u == (x + y + z) + w + (v + u),
{
    assert(x + y + z + w + v + u =~= (x + y + z) + w + (v + u));
}

/// A name of at most 40 bytes without zero bytes is read back as written.
pub proof fn lemma_name_round_trip(n: Seq<u8>)
    requires
        n.len() <= 40,
        forall|j: int| 0 <= j < n.len() ==> n[j] != 0,
    ensures
        until_zero(padded_name(n)) == n,
{
    let p = padded_name(n);
    lemma_until_zero_at(p, n.len() as int);
    assert(p.subrange(0, n.len() as int) =~= n);
}

/// Contig name `c` is stored at `names_base + 40 * c`.
proof fn lemma_name_at(
    ts: u32,
    names: Seq<Seq<u8>>,
    tiles: Seq<Seq<Seq<ContigRange>>>,
    files: Seq<BGZFile>,
    c: int,
)
    requires
        counts_fit(names, tiles, files),
        0 <= c < names.len(),
    ensures
        ({
            let at = 20 + 4 * names.len() + 4 * tiles_before(tiles, tiles.len() as int) + 40 * c;
            index_bytes(ts, names, tiles, files).subrange(at, at + 40) == padded_name(names[c])
        }),
{
    let h = head_bytes(ts, names.len(), files.len());
    lemma_head(ts, names.len(), files.len(), Seq::empty());
    lemma_tile_counts_len(tiles);
    lemma_range_counts_len(tiles);
    let pre = h + tile_counts_bytes(tiles) + range_counts_bytes(tiles);
    let pieces = names.map_values(|n: Seq<u8>| padded_name(n));
    lemma_concat_split(pieces, c);
    lemma_uniform_sum(pieces, 40, c);
    let a = concat_all(pieces.take(c));
    let z = concat_all(pieces.skip(c + 1));
    lemma_split_names(h, tile_counts_bytes(tiles), range_counts_bytes(tiles), names_bytes(names), files_bytes(files), data_bytes(tiles));
    let rest = files_bytes(files) + data_bytes(tiles);
    assert(pre + (a + pieces[c] + z) + rest =~= (pre + a) + pieces[c] + (z + rest));
    lemma_sub_within(pre + a, pieces[c], z + rest, 0, 40);
    assert(pieces[c].subrange(0, 40) =~= pieces[c]);
}

proof fn lemma_ranges_bytes_len(s: Seq<ContigRange>)
    ensures
        ranges_bytes(s).len() == 28 * s.len(),
{
    let pieces = s.map_values(|r: ContigRange| range_bytes(r));
    lemma_concat_len(pieces);
    lemma_uniform_sum(pieces, 28, s.len() as int);
    assert(pieces.take(s.len() as int) =~= pieces);
}

proof fn lemma_contig_data_prefix(ct: Seq<Seq<ContigRange>>, t: int)
    requires
        0 <= t <= ct.len(),
    ensures
        lens_sum(ct.map_values(|u: Seq<ContigRange>| ranges_bytes(sort_by_start(u))).take(t))
            == 28 * ranges_in(ct, t),
    decreases t,
{
    let pieces = ct.map_values(|u: Seq<ContigRange>| ranges_bytes(sort_by_start(u)));
    if t > 0 {
        lemma_contig_data_prefix(ct, t - 1);
        assert(pieces.take(t).drop_last() =~= pieces.take(t - 1));
        lemma_ranges_bytes_len(sort_by_start(ct[t - 1]));
        lemma_sort_sorted(ct[t - 1]);
    } else {
        assert(pieces.take(0) =~= Seq::<Seq<u8>>::empty());
    }
}

proof fn lemma_data_prefix(tiles: Seq<Seq<Seq<ContigRange>>>, c: int)
    requires
        0 <= c <= tiles.len(),
    ensures
        lens_sum(tiles.map_values(|ct: Seq<Seq<ContigRange>>| contig_data_bytes(ct)).take(c))
            == 28 * ranges_before(tiles, c),
    decreases c,
{
    let pieces = tiles.map_values(|ct: Seq<Seq<ContigRange>>| contig_data_bytes(ct));
    if c > 0 {
        lemma_data_prefix(tiles, c - 1);
        assert(pieces.take(c).drop_last() =~= pieces.take(c - 1));
        let ct = tiles[c - 1];
        let inner = ct.map_values(|u: Seq<ContigRange>| ranges_bytes(sort_by_start(u)));
        lemma_concat_len(inner);
        lemma_contig_data_prefix(ct, ct.len() as int);
        assert(inner.take(ct.len() as int) =~= inner);
    } else {
        assert(pieces.take(0) =~= Seq::<Seq<u8>>::empty());
    }
}

proof fn lemma_nest3(
    p: Seq<u8>,
    a1: Seq<u8>,
    a2: Seq<u8>,
    a3: Seq<u8>,
    x: Seq<u8>,
    z3: Seq<u8>,
    z2: Seq<u8>,
    z1: Seq<u8>,
)
    ensures
        p + (a1 + (a2 + (a3 + x + z3) + z2) + z1) == (p + a1 + a2 + a3) + x + (z3 + z2 + z1),
{
    assert(p + (a1 + (a2 + (a3 + x + z3) + z2) + z1) =~= (p + a1 + a2 + a3) + x + (z3 + z2 + z1));
}

proof fn lemma_range_decode(q: Seq<u8>, r: ContigRange, zz: Seq<u8>)
    ensures
        range_at(q + range_bytes(r) + zz, q.len() as int) == r,
{
    let x = range_bytes(r);
    assert(x == le32(r.bed_idx) + le64(r.start_bp) + le64(r.end_bp) + le64(r.bgzf_pos));
    lemma_u32_within(q, x, zz, 0);
    lemma_u64_within(q, x, zz, 4);
    lemma_u64_within(q, x, zz, 12);
    lemma_u64_within(q, x, zz, 20);
    assert(x.subrange(0, 4) =~= le32(r.bed_idx));
    assert(x.subrange(4, 12) =~= le64(r.start_bp));
    assert(x.subrange(12, 20) =~= le64(r.end_bp));
    assert(x.subrange(20, 28) =~= le64(r.bgzf_pos));
    lemma_u32_round_trip(r.bed_idx, x, 0);
    lemma_u64_round_trip(r.start_bp, x, 4);
    lemma_u64_round_trip(r.end_bp, x, 12);
    lemma_u64_round_trip(r.bgzf_pos, x, 20);
}

#[verifier::rlimit(60)]
/// Range `i` of tile `t` of contig `c` is stored, in persisted order, after all ranges of
/// earlier tiles.
proof fn lemma_range_at(
    ts: u32,
    names: Seq<Seq<u8>>,
    tiles: Seq<Seq<Seq<ContigRange>>>,
    files: Seq<BGZFile>,
    c: int,
    t: int,
    i: int,
)
    requires
        counts_fit(names, tiles, files),
        0 <= c < tiles.len(),
        0 <= t < tiles[c].len(),
        0 <= i < tiles[c][t].len(),
    ensures
        ({
            let at = 20 + 44 * names.len() + 4 * tiles_before(tiles, tiles.len() as int) + 56
                * files.len() + 28 * (ranges_before(tiles, c) + ranges_in(tiles[c], t)) + 28 * i;
            &&& sort_by_start(tiles[c][t]).len() == tiles[c][t].len()
            &&& range_at(index_bytes(ts, names, tiles, files), at) == sort_by_start(tiles[c][t])[i]
        }),
{
    let h = head_bytes(ts, names.len(), files.len());
    lemma_head(ts, names.len(), files.len(), Seq::empty());
    lemma_tile_counts_len(tiles);
    lemma_range_counts_len(tiles);
    lemma_names_len(names);
    lemma_files_len(files);
    let pre = h + tile_counts_bytes(tiles) + range_counts_bytes(tiles) + names_bytes(names)
        + files_bytes(files);
    let cpieces = tiles.map_values(|ct: Seq<Seq<ContigRange>>| contig_data_bytes(ct));
    lemma_concat_split(cpieces, c);
    lemma_data_prefix(tiles, c);
    let ct = tiles[c];
    let tpieces = ct.map_values(|u: Seq<ContigRange>| ranges_bytes(sort_by_start(u)));
    assert(cpieces[c] == concat_all(tpieces));
    lemma_concat_split(tpieces, t);
    lemma_contig_data_prefix(ct, t);
    let sorted = sort_by_start(ct[t]);
    lemma_sort_sorted(ct[t]);
    let rpieces = sorted.map_values(|r: ContigRange| range_bytes(r));
    assert(tpieces[t] == concat_all(rpieces));
    lemma_concat_split(rpieces, i);
    lemma_uniform_sum(rpieces, 28, i);
    let a1 = concat_all(cpieces.take(c));
    let z1 = concat_all(cpieces.skip(c + 1));
    let a2 = concat_all(tpieces.take(t));
    let z2 = concat_all(tpieces.skip(t + 1));
    let a3 = concat_all(rpieces.take(i));
    let z3 = concat_all(rpieces.skip(i + 1));
    let x = rpieces[i];
    assert(index_bytes(ts, names, tiles, files) == pre + data_bytes(tiles));
    lemma_nest3(pre, a1, a2, a3, x, z3, z2, z1);
    let q = pre + a1 + a2 + a3;
    assert(x == range_bytes(sorted[i]));
    lemma_range_decode(q, sorted[i], z3 + z2 + z1);
}


proof fn lemma_total_len(
    ts: u32,
    names: Seq<Seq<u8>>,
    tiles: Seq<Seq<Seq<ContigRange>>>,
    files: Seq<BGZFile>,
)
    requires
        counts_fit(names, tiles, files),
    ensures
        index_bytes(ts, names, tiles, files).len() == 20 + 44 * names.len() + 4 * tiles_before(
            tiles,
            tiles.len() as int,
        ) + 56 * files.len() + 28 * ranges_before(tiles, tiles.len() as int),
{
    lemma_head(ts, names.len(), files.len(), Seq::empty());
    lemma_tile_counts_len(tiles);
    lemma_range_counts_len(tiles);
    lemma_names_len(names);
    lemma_files_len(files);
    let pieces = tiles.map_values(|ct: Seq<Seq<ContigRange>>| contig_data_bytes(ct));
    lemma_concat_len(pieces);
    lemma_data_prefix(tiles, tiles.len() as int);
    assert(pieces.take(tiles.len() as int) =~= pieces);
}

/// Names that survive the fixed-width name field: at most 40 bytes, none of them zero.
pub open spec fn names_storable(names: Seq<Seq<u8>>) -> bool {
    forall|c: int|
        0 <= c < names.len() ==> (#[trigger] names[c]).len() <= 40 && forall|j: int|
            0 <= j < names[c].len() ==> names[c][j] != 0
}

proof fn lemma_split_head(x: Seq<u8>, y: Seq<u8>, z: Seq<u8>, w: Seq<u8>, v: Seq<u8>, u: Seq<u8>)
    ensures
        x + y + z + w + v + u == x + (y + z + w + v + u),
{
    assert(x + y + z + w + v + u =~= x + (y + z + w + v + u));
}

/// What the loader reads from written bytes, stated over the bytes alone.
proof fn lemma_layout(
    ts: u32,
    names: Seq<Seq<u8>>,
    tiles: Seq<Seq<Seq<ContigRange>>>,
    files: Seq<BGZFile>,
)
    requires
        counts_fit(names, tiles, files),
        ts > 0,
        index_bytes(ts, names, tiles, files).len() <= u64::MAX,
    ensures
        ({
            let b = index_bytes(ts, names, tiles, files);
            &&& load_outcome(b) is Ok
            &&& b.subrange(0, 6) == magic()
            &&& u16_at(b, 6) == FORMAT_VERSION
            &&& u32_at(b, 8) == ts
            &&& u32_at(b, 12) == names.len()
            &&& u32_at(b, 16) == files.len()
            &&& counts_base(b) == 20 + 4 * names.len()
            &&& total_tiles(b) == tiles_before(tiles, tiles.len() as int)
            &&& data_base(b) == 20 + 44 * names.len() + 4 * tiles_before(tiles, tiles.len() as int)
                + 56 * files.len()
        }),
{
    let b = index_bytes(ts, names, tiles, files);
    let h = head_bytes(ts, names.len(), files.len());
    let rest = tile_counts_bytes(tiles) + range_counts_bytes(tiles) + names_bytes(names)
        + files_bytes(files) + data_bytes(tiles);
    lemma_split_head(h, tile_counts_bytes(tiles), range_counts_bytes(tiles), names_bytes(names), files_bytes(files), data_bytes(tiles));
    lemma_head(ts, names.len(), files.len(), rest);
    lemma_total_len(ts, names, tiles, files);
    lemma_tiles_before(ts, names, tiles, files, tiles.len() as int);
    lemma_ranges_before(ts, names, tiles, files, tiles.len() as int, 0);
}

proof fn lemma_tile_facts(
    ts: u32,
    names: Seq<Seq<u8>>,
    tiles: Seq<Seq<Seq<ContigRange>>>,
    files: Seq<BGZFile>,
    c: int,
    t: int,
)
    requires
        counts_fit(names, tiles, files),
        ts > 0,
        index_bytes(ts, names, tiles, files).len() <= u64::MAX,
        0 <= c < tiles.len(),
        0 <= t < tiles[c].len(),
    ensures
        ({
            let b = index_bytes(ts, names, tiles, files);
            let flat = count_sum(b, 20, c as nat) + t;
            &&& u32_at(b, 20 + 4 * c) == tiles[c].len()
            &&& u32_at(b, counts_base(b) + 4 * flat) == tiles[c][t].len()
            &&& forall|i: int|
                0 <= i < tiles[c][t].len() ==> range_at(
                    b,
                    data_base(b) + 28 * count_sum(b, counts_base(b), flat as nat) + 28 * i,
                ) == sort_by_start(tiles[c][t])[i]
        }),
{
    lemma_layout(ts, names, tiles, files);
    lemma_tile_count_at(ts, names, tiles, files, c);
    lemma_tiles_before(ts, names, tiles, files, c);
    lemma_range_count_at(ts, names, tiles, files, c, t);
    lemma_ranges_before(ts, names, tiles, files, c, t);
    let b = index_bytes(ts, names, tiles, files);
    assert forall|i: int| 0 <= i < tiles[c][t].len() implies range_at(
        b,
        data_base(b) + 28 * count_sum(b, counts_base(b), (count_sum(b, 20, c as nat) + t) as nat)
            + 28 * i,
    ) == sort_by_start(tiles[c][t])[i] by {
        lemma_range_at(ts, names, tiles, files, c, t, i);
    }
}

proof fn lemma_name_facts(
    ts: u32,
    names: Seq<Seq<u8>>,
    tiles: Seq<Seq<Seq<ContigRange>>>,
    files: Seq<BGZFile>,
    c: int,
)
    requires
        counts_fit(names, tiles, files),
        ts > 0,
        index_bytes(ts, names, tiles, files).len() <= u64::MAX,
        names_storable(names),
        0 <= c < names.len(),
    ensures
        ({
            let b = index_bytes(ts, names, tiles, files);
            let at = crate::loader::names_base(b) + 40 * c;
            until_zero(b.subrange(at, at + 40)) == names[c]
        }),
{
    lemma_layout(ts, names, tiles, files);
    lemma_name_at(ts, names, tiles, files, c);
    lemma_name_round_trip(names[c]);
}

#[verifier::rlimit(50)]
proof fn lemma_read_back(
    ts: u32,
    names: Seq<Seq<u8>>,
    tiles: Seq<Seq<Seq<ContigRange>>>,
    files: Seq<BGZFile>,
    h: &IndexHeader,
    c: int,
    t: int,
)
    requires
        counts_fit(names, tiles, files),
        ts > 0,
        index_bytes(ts, names, tiles, files).len() <= u64::MAX,
        names_storable(names),
        h.read_from(index_bytes(ts, names, tiles, files)),
        0 <= c < tiles.len(),
        0 <= t < tiles[c].len(),
    ensures
        load_outcome(index_bytes(ts, names, tiles, files)) is Ok,
        h.tile_size == ts,
        h.tile_counts@.len() == names.len(),
        h.tile_counts@[c] == tiles[c].len(),
        h.contig_names@[c]@ == names[c],
        h.range_counts@[c]@[t] == tiles[c][t].len(),
        forall|i: int|
            0 <= i < tiles[c][t].len() ==> range_at(
                index_bytes(ts, names, tiles, files),
                h.range_data_index@[c]@[t] + 28 * i,
            ) == sort_by_start(tiles[c][t])[i],
{
    let b = index_bytes(ts, names, tiles, files);
    lemma_layout(ts, names, tiles, files);
    lemma_tile_facts(ts, names, tiles, files, c, t);
    lemma_name_facts(ts, names, tiles, files, c);
    assert(h.tile_counts@[c] == u32_at(b, 20 + 4 * c));
    let flat = count_sum(b, 20, c as nat) + t;
    assert(h.range_counts@[c]@[t] == u32_at(b, counts_base(b) + 4 * flat));
    assert(h.range_data_index@[c]@[t] == data_base(b) + 28 * count_sum(b, counts_base(b), flat as nat));
    assert(h.contig_names@[c]@ == until_zero(
        b.subrange(crate::loader::names_base(b) + 40 * c, crate::loader::names_base(b) + 40 * c + 40),
    ));
}

/// Persist, then load: from the bytes that `ContigIndex::serialize` writes, `IndexHeader::load`
/// succeeds, and the header it reads has the index's tile size, contig names, tile counts and
/// range counts, and locates for each tile bytes that decode to that tile's ranges in
/// persisted order (by start, ties in ingestion order).
pub proof fn lemma_persist_load(idx: &ContigIndex, h: &IndexHeader, c: int, t: int)
    requires
        idx.wf(),
        idx.fits_format(),
        names_storable(idx.names()),
        index_bytes(idx.spec_tile_size() as u32, idx.names(), idx.all_tiles(), idx.files()).len()
            <= u64::MAX,
        h.read_from(
            index_bytes(idx.spec_tile_size() as u32, idx.names(), idx.all_tiles(), idx.files()),
        ),
        0 <= c < idx.names().len(),
        0 <= t < idx.tiles(c).len(),
    ensures
        load_outcome(
            index_bytes(idx.spec_tile_size() as u32, idx.names(), idx.all_tiles(), idx.files()),
        ) is Ok,
        h.tile_size == idx.spec_tile_size(),
        h.tile_counts@.len() == idx.names().len(),
        h.tile_counts@[c] == idx.tiles(c).len(),
        h.contig_names@[c]@ == idx.names()[c],
        h.range_counts@[c]@[t] == idx.tiles(c)[t].len(),
        forall|i: int|
            0 <= i < idx.tiles(c)[t].len() ==> range_at(
                index_bytes(idx.spec_tile_size() as u32, idx.names(), idx.all_tiles(), idx.files()),
                h.range_data_index@[c]@[t] + 28 * i,
            ) == sort_by_start(idx.tiles(c)[t])[i],
{
    idx.lemma_all_tiles();
    let ts = idx.spec_tile_size() as u32;
    let names = idx.names();
    let tiles = idx.all_tiles();
    let files = idx.files();
    assert(tiles[c] == idx.tiles(c));
    assert(counts_fit(names, tiles, files)) by {
        assert forall|k: int| 0 <= k < tiles.len() implies (#[trigger] tiles[k]).len()
            <= u32::MAX by {
            assert(tiles[k] == idx.tiles(k));
        }
        assert forall|k: int, u: int| 0 <= k < tiles.len() && 0 <= u < tiles[k].len() implies (
        #[trigger] tiles[k][u]).len() <= u32::MAX by {
            assert(tiles[k] == idx.tiles(k));
        }
    }
    idx.lemma_tile_size_fits();
    lemma_read_back(ts, names, tiles, files, h, c, t);
}

} // verus!
