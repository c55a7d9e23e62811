use te_idx::filter::{filter_line, filter_lines};
use te_idx::index::{BGZFile, ContigIndex, ContigRange, DEFAULT_TILE_SIZE};
use te_idx::loader::{decode_ranges, IndexHeader};
use te_idx::query::{first_tile_hits, later_tile_hits, search_tiles, QueryError, TileSpan};
use te_idx::sort::is_sorted_by_start;

/// Builds an index over `lines` (one data file; each record's pointer is its line number),
/// persists it, loads it back and runs a query; the emitted records are mapped back to lines.
fn run_query(
    lines: &[&str],
    contig: &str,
    start: u64,
    end: u64,
    family: Option<&str>,
    nrph: bool,
) -> Result<Vec<String>, QueryError> {
    let bytes = build(lines);
    let header = IndexHeader::load(&bytes).expect("index loads");
    let span = header.plan_query(contig.as_bytes(), start, end)?;
    let tiles = read_tiles(&header, &bytes, span);
    let hits = search_tiles(&tiles, span.first_tile, header.tile_size, start, end);
    let family = family.map(|f| f.as_bytes().to_vec());
    Ok(hits
        .iter()
        .map(|r| lines[r.bgzf_pos as usize].to_string())
        .filter(|l| filter_line(l.as_bytes(), &family, nrph))
        .collect())
}

fn build(lines: &[&str]) -> Vec<u8> {
    let mut idx = ContigIndex::new(DEFAULT_TILE_SIZE);
    let f = idx.add_file(BGZFile { name: b"fam.bed.bgz".to_vec(), mod_time_bits: 7, bytes: 99 });
    for (i, l) in lines.iter().enumerate() {
        idx.ingest_line(l.as_bytes(), f, i as u64).expect("line parses");
    }
    assert!(idx.fits_format_check());
    idx.serialize()
}

fn read_tiles(header: &IndexHeader, bytes: &[u8], span: TileSpan) -> Vec<Vec<ContigRange>> {
    (span.first_tile..=span.last_tile)
        .map(|t| {
            let (off, len) = header.tile_location(span.contig, t as usize);
            let ranges = decode_ranges(&bytes[off as usize..(off + len) as usize]);
            assert!(is_sorted_by_start(&ranges));
            ranges
        })
        .collect()
}

const R1: &str = "chr1\t100\t200\tFAM1.a\t0\t+\t0";
const R2: &str = "chr1\t15000\t20000\tFAM2.b\t0\t-\t1";

#[test]
fn single_record_is_returned() {
    let out = run_query(&[R1], "chr1", 0, 300, None, false).unwrap();
    assert_eq!(out, vec![R1.to_string()]);
}

#[test]
fn records_across_tiles_come_in_start_order() {
    let out = run_query(&[R2, R1], "chr1", 0, 25000, None, false).unwrap();
    assert_eq!(out, vec![R1.to_string(), R2.to_string()]);
}

#[test]
fn replicated_record_is_found_once_from_its_first_tile() {
    let out = run_query(&[R1, R2], "chr1", 15000, 17000, None, false).unwrap();
    assert_eq!(out, vec![R2.to_string()]);
}

#[test]
fn record_replicated_into_the_first_tile_is_returned() {
    // the spanning record starts in tile 0 but overlaps a query that starts in tile 1
    let out = run_query(&[R1, R2], "chr1", 16500, 17000, None, false).unwrap();
    assert_eq!(out, vec![R2.to_string()]);
}

#[test]
fn first_tile_records_ending_before_the_query_are_not_returned() {
    let out = run_query(&[R1, R2], "chr1", 300, 400, None, false).unwrap();
    assert!(out.is_empty());
    let out = run_query(&[R1, R2], "chr1", 150, 160, None, false).unwrap();
    assert_eq!(out, vec![R1.to_string()]);
}

#[test]
fn empty_interval_on_a_tile_boundary_is_a_single_base() {
    let point = "chr1\t16384\t16384\tP.a\t1";
    let bytes = build(&[R1, point]);
    let header = IndexHeader::load(&bytes).unwrap();
    assert_eq!(header.tile_counts, vec![2]);
    assert_eq!(header.range_counts, vec![vec![1, 1]]);
    let out = run_query(&[R1, point], "chr1", 16384, 16385, None, false).unwrap();
    assert_eq!(out, vec![point.to_string()]);
    let out = run_query(&[R1, point], "chr1", 16000, 17000, None, false).unwrap();
    assert_eq!(out, vec![point.to_string()]);
}

#[test]
fn nrph_filter_keeps_flagged_records() {
    let a = "chr1\t100\t200\tFAM1.a\t0\t+\t1";
    let b = "chr1\t150\t250\tFAM1.a\t0\t+\t0";
    let out = run_query(&[a, b], "chr1", 0, 300, None, true).unwrap();
    assert_eq!(out, vec![a.to_string()]);
}

#[test]
fn family_filter_keeps_matching_accession() {
    let out = run_query(&[R1, R2], "chr1", 0, 25000, Some("FAM2"), false).unwrap();
    assert_eq!(out, vec![R2.to_string()]);
}

#[test]
fn start_beyond_last_tile_is_out_of_range() {
    let r = run_query(&[R1, R2], "chr1", 40000, 50000, None, false);
    assert_eq!(r, Err(QueryError::OutOfRange));
}

#[test]
fn unknown_contig_is_reported() {
    let r = run_query(&[R1], "chr9", 0, 300, None, false);
    assert_eq!(r, Err(QueryError::UnknownContig));
}

#[test]
fn end_past_last_tile_is_clamped() {
    let bytes = build(&[R1, R2]);
    let header = IndexHeader::load(&bytes).unwrap();
    let span = header.plan_query(b"chr1", 100, 1_000_000).unwrap();
    assert_eq!(span, TileSpan { contig: 0, first_tile: 0, last_tile: 1 });
    let out = run_query(&[R1, R2], "chr1", 100, 1_000_000, None, false).unwrap();
    assert_eq!(out.len(), 2);
}

#[test]
fn whole_contig_round_trip_returns_each_record_once() {
    let lines = [
        "chr1\t40000\t40010\tF.a\t1",
        R2,
        "chr2\t5\t6\tF.a\t1",
        R1,
        "chr1\t16384\t16390\tF.a\t1",
        "chr1\t0\t50000\tF.a\t1",
    ];
    let out = run_query(&lines, "chr1", 0, 3 * 16384, None, false).unwrap();
    let expected: Vec<String> = [lines[5], lines[3], lines[1], lines[4], lines[0]]
        .iter()
        .map(|s| s.to_string())
        .collect();
    assert_eq!(out, expected);
}

#[test]
fn multi_tile_query_emits_no_pointer_twice() {
    let lines = ["chr1\t10\t60000\tF.a\t1", "chr1\t20000\t40000\tF.a\t1", "chr1\t33000\t33001\tF.a\t1"];
    let bytes = build(&lines);
    let header = IndexHeader::load(&bytes).unwrap();
    let span = header.plan_query(b"chr1", 0, 60000).unwrap();
    let tiles = read_tiles(&header, &bytes, span);
    let hits = search_tiles(&tiles, span.first_tile, header.tile_size, 0, 60000);
    let mut ptrs: Vec<u64> = hits.iter().map(|r| r.bgzf_pos).collect();
    assert_eq!(ptrs, vec![0, 1, 2]);
    ptrs.dedup();
    assert_eq!(ptrs.len(), 3);
}

#[test]
fn equal_starts_keep_insertion_order() {
    let a = "chr1\t500\t600\tA.x\t1";
    let b = "chr1\t300\t400\tB.x\t1";
    let c = "chr1\t500\t510\tC.x\t1";
    let out = run_query(&[a, b, c], "chr1", 0, 1000, None, false).unwrap();
    assert_eq!(out, vec![b.to_string(), a.to_string(), c.to_string()]);
}

#[test]
fn filter_twice_equals_filter_once() {
    let lines: Vec<Vec<u8>> = vec![
        b"chr1 1 2 DF1.x 0 1".to_vec(),
        b"chr1 1 2 DF2.x 0 1".to_vec(),
        b"chr1 1 2 DF1.y 0 0".to_vec(),
    ];
    let fam = Some(b"DF1".to_vec());
    let once = filter_lines(&lines, &fam, true);
    assert_eq!(once, vec![lines[0].clone()]);
    assert_eq!(filter_lines(&once, &fam, true), once);
    let nrph_once = filter_lines(&lines, &None, true);
    assert_eq!(nrph_once.len(), 2);
    assert_eq!(filter_lines(&nrph_once, &None, true), nrph_once);
}

#[test]
fn filter_line_edge_cases() {
    assert!(!filter_line(b"", &None, true));
    assert!(filter_line(b"", &None, false));
    assert!(!filter_line(b"a b c", &Some(b"c".to_vec()), false));
    assert!(filter_line(b"a b c DF7 1\n", &Some(b"DF7".to_vec()), true));
    assert!(!filter_line(b"a b c DF7 11", &None, true));
}

fn r(start: u64, pos: u64) -> ContigRange {
    ContigRange { bed_idx: 0, start_bp: start, end_bp: start + 1, bgzf_pos: pos }
}

#[test]
fn first_tile_binary_search_bounds() {
    let tile = vec![r(1, 0), r(5, 1), r(5, 2), r(9, 3), r(12, 4)];
    assert_eq!(first_tile_hits(&tile, 5, 12), vec![r(5, 1), r(5, 2), r(9, 3)]);
    assert_eq!(first_tile_hits(&tile, 0, 1), vec![]);
    assert_eq!(first_tile_hits(&tile, 13, 20), vec![]);
    assert_eq!(first_tile_hits(&[], 0, 20), vec![]);
}

#[test]
fn later_tile_skips_replicas_and_stops_at_end() {
    let tile = vec![r(1, 0), r(10, 1), r(11, 2), r(30, 3)];
    assert_eq!(later_tile_hits(&tile, 10, 30), vec![r(10, 1), r(11, 2)]);
}
