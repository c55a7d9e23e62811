use te_idx::codec::{push_name, push_u16, push_u32, push_u64, read_name, read_u32, read_u64};
use te_idx::consistency::{check_consistency, ConsistencyWarning};
use te_idx::index::{parse_record, BGZFile, ContigIndex, ContigRange, RecordError};
use te_idx::loader::{header_len, IndexHeader, LoadError};
use te_idx::records::{
    join_fields, read_family_assembly_annotations, select_line, Annotation, BenchMarkAnnotation,
    DataKind, FormattableLine, MaskHit,
};
use te_idx::sort::sort_ranges;
use te_idx::text::{parse_u64, split_bytes, ws_split};

fn fields(s: &str) -> Vec<Vec<u8>> {
    s.split('\t').map(|f| f.as_bytes().to_vec()).collect()
}

#[test]
fn little_endian_integers() {
    let mut out = Vec::new();
    push_u16(&mut out, 0x0102);
    push_u32(&mut out, 0x0a0b0c0d);
    push_u64(&mut out, 0x1122334455667788);
    assert_eq!(out, vec![2, 1, 0x0d, 0x0c, 0x0b, 0x0a, 0x88, 0x77, 0x66, 0x55, 0x44, 0x33, 0x22, 0x11]);
    assert_eq!(read_u32(&out, 2), 0x0a0b0c0d);
    assert_eq!(read_u64(&out, 6), 0x1122334455667788);
}

#[test]
fn names_are_padded_and_cut() {
    let mut out = Vec::new();
    push_name(&mut out, b"chr1");
    assert_eq!(out.len(), 40);
    assert_eq!(&out[..5], b"chr1\0");
    assert_eq!(read_name(&out, 0), b"chr1".to_vec());
    let long = [b'x'; 45];
    let mut out = Vec::new();
    push_name(&mut out, &long);
    assert_eq!(read_name(&out, 0), vec![b'x'; 40]);
}

#[test]
fn decimal_parsing() {
    assert_eq!(parse_u64(b"16384"), Some(16384));
    assert_eq!(parse_u64(b"+7"), Some(7));
    assert_eq!(parse_u64(b"18446744073709551615"), Some(u64::MAX));
    assert_eq!(parse_u64(b"18446744073709551616"), None);
    assert_eq!(parse_u64(b""), None);
    assert_eq!(parse_u64(b"+"), None);
    assert_eq!(parse_u64(b"12a"), None);
}

#[test]
fn splitting() {
    assert_eq!(split_bytes(b"a\t\tb", b'\t'), vec![b"a".to_vec(), vec![], b"b".to_vec()]);
    assert_eq!(ws_split(b"  a \t bc\n"), vec![b"a".to_vec(), b"bc".to_vec()]);
}

#[test]
fn record_lines_parse_or_fail() {
    assert_eq!(
        parse_record(b"chr1\t100\t200\tDF1.a\r\n"),
        Ok((b"chr1".to_vec(), 100, 200))
    );
    assert_eq!(parse_record(b"chr1\t100"), Err(RecordError::MissingFields));
    assert_eq!(parse_record(b"chr1\tx\t200"), Err(RecordError::BadStart));
    assert_eq!(parse_record(b"chr1\t1\t-2"), Err(RecordError::BadEnd));
    assert_eq!(parse_record(b"chr1\t0\t0"), Err(RecordError::ZeroEnd));
}

#[test]
fn ingest_rejects_records_past_the_tile_limit() {
    let mut idx = ContigIndex::new(1);
    let f = idx.add_file(BGZFile { name: b"a".to_vec(), mod_time_bits: 0, bytes: 0 });
    assert_eq!(idx.ingest_line(b"c\t0\t99999999999", f, 0), Err(RecordError::BeyondTileLimit));
    // an empty interval counts as the base at its start
    assert_eq!(
        idx.ingest_line(b"c\t99999999999\t99999999999", f, 1),
        Err(RecordError::BeyondTileLimit)
    );
    assert_eq!(idx.contig_count(), 0);
}

#[test]
fn replication_fills_every_touched_tile() {
    let mut idx = ContigIndex::new(100);
    let f = idx.add_file(BGZFile { name: b"a".to_vec(), mod_time_bits: 0, bytes: 0 });
    idx.add_contig_range(b"c1", f, 150, 420, 9);
    idx.add_contig_range(b"c2", f, 100, 100, 10);
    idx.add_contig_range(b"c1", f, 10, 20, 11);
    assert_eq!(idx.contig_count(), 2);
    assert_eq!(idx.contig_name(1), b"c2");
    assert_eq!(idx.contig_tile_count(0), 5);
    // an empty interval on a tile boundary is the single base at its start: tile 1
    assert_eq!(idx.contig_tile_count(1), 2);
    assert_eq!(idx.tile(1, 0).len(), 0);
    let spanning = ContigRange { bed_idx: 0, start_bp: 150, end_bp: 420, bgzf_pos: 9 };
    assert_eq!(idx.tile(0, 0).len(), 1);
    for t in 1..5 {
        assert_eq!(idx.tile(0, t), &[spanning]);
    }
    assert_eq!(idx.tile(1, 1)[0].bgzf_pos, 10);
}

#[test]
fn stable_sort_by_start() {
    let r = |s: u64, p: u64| ContigRange { bed_idx: 0, start_bp: s, end_bp: s + 1, bgzf_pos: p };
    let v = vec![r(5, 0), r(1, 1), r(5, 2), r(3, 3), r(1, 4)];
    assert_eq!(sort_ranges(&v), vec![r(1, 1), r(1, 4), r(3, 3), r(5, 0), r(5, 2)]);
}

#[test]
fn serialized_layout_and_header() {
    let mut idx = ContigIndex::new(16384);
    let f = idx.add_file(BGZFile { name: b"f.bgz".to_vec(), mod_time_bits: 3, bytes: 4 });
    idx.ingest_line(b"chr1\t15000\t20000", f, 77).unwrap();
    let bytes = idx.serialize();
    // 20 + 4 (one tile count) + 8 (two range counts) + 40 + 56 + 2 * 28
    assert_eq!(bytes.len(), 184);
    assert_eq!(&bytes[..6], b"#R_IDX");
    assert_eq!(header_len(&bytes[..10]), 20);
    assert_eq!(header_len(&bytes[..20]), 24);
    assert_eq!(header_len(&bytes[..24]), 128);
    let h = IndexHeader::load(&bytes[..128]).unwrap();
    assert!(h.magic_ok);
    assert_eq!(h.version, 0);
    assert_eq!(h.tile_size, 16384);
    assert_eq!(h.tile_counts, vec![2]);
    assert_eq!(h.range_counts, vec![vec![1, 1]]);
    assert_eq!(h.range_data_index, vec![vec![128, 156]]);
    assert_eq!(h.contig_names, vec![b"chr1".to_vec()]);
    assert_eq!(h.bgz_files[0].name, b"f.bgz".to_vec());
    assert_eq!((h.bgz_files[0].mod_time_bits, h.bgz_files[0].bytes), (3, 4));
    assert_eq!(h.tile_location(0, 1), (156, 28));
}

#[test]
fn igd_layout_pads_ranges() {
    let mut idx = ContigIndex::new(16384);
    let f = idx.add_file(BGZFile { name: b"f.bgz".to_vec(), mod_time_bits: 3, bytes: 4 });
    idx.ingest_line(b"chr1\t15000\t20000", f, 77).unwrap();
    let bytes = idx.serialize_igd();
    // 12 + 4 (tile count) + 8 (range counts) + 40 (name) + 4 (tile count again) + 2 * 32
    assert_eq!(bytes.len(), 132);
    assert_eq!(read_u32(&bytes, 0), 16384);
    assert_eq!(read_u32(&bytes, 4), 1);
    assert_eq!(read_u32(&bytes, 64), 2);
    assert_eq!(read_u64(&bytes, 72), 15000);
    assert_eq!(read_u32(&bytes, 96), 0);
    assert_eq!(read_u64(&bytes, 104), 15000);
}

#[test]
fn load_errors() {
    assert_eq!(IndexHeader::load(b"#R_IDX").err(), Some(LoadError::Truncated));
    let mut b = b"#R_IDX".to_vec();
    push_u16(&mut b, 0);
    push_u32(&mut b, 0);
    push_u32(&mut b, 0);
    push_u32(&mut b, 0);
    assert_eq!(IndexHeader::load(&b).err(), Some(LoadError::ZeroTileSize));
    let mut b = b"XXXXXX".to_vec();
    push_u16(&mut b, 3);
    push_u32(&mut b, 10);
    push_u32(&mut b, 1);
    push_u32(&mut b, 0);
    assert_eq!(IndexHeader::load(&b).err(), Some(LoadError::Truncated));
    push_u32(&mut b, 1);
    push_u32(&mut b, u32::MAX);
    push_u32(&mut b, u32::MAX);
    push_name(&mut b, b"c");
    // mismatched magic and version still load
    let h = IndexHeader::load(&b).unwrap();
    assert!(!h.magic_ok);
    assert_eq!(h.version, 3);
    assert_eq!(h.range_counts, vec![vec![u32::MAX]]);
    assert_eq!(h.range_data_index, vec![vec![68]]);
}

#[test]
fn consistency_warnings() {
    let f = |n: &str, m: u64, b: u64| BGZFile { name: n.as_bytes().to_vec(), mod_time_bits: m, bytes: b };
    let indexed = vec![f("a", 1, 1), f("b", 1, 1), f("c", 1, 1), f("d", 1, 1)];
    let disk = vec![f("d", 1, 1), f("b", 1, 2), f("c", 2, 1), f("e", 1, 1)];
    assert_eq!(
        check_consistency(&indexed, &disk),
        vec![
            ConsistencyWarning::Missing(0),
            ConsistencyWarning::Resized(1),
            ConsistencyWarning::Retimed(2),
            ConsistencyWarning::Added(3),
        ]
    );
}

const BED: &str = "chr1\t89176556\t89176720\tDF000000001\t11.0\t-\t0.1\t89176700\t89176576\t37\t206\t290.0\t1\t14.7\tMIR\t248956422\t5M\tcaf";

#[test]
fn annotation_download_format() {
    let a = Annotation::from_bed(&fields(BED));
    assert_eq!(a.fam_acc, b"DF000000001".to_vec());
    let dl = a.to_dl_fmt(b"chr1", b"262");
    assert_eq!(
        String::from_utf8(join_fields(&dl, b'\t')).unwrap(),
        "chr1\tDF000000001\tMIR\t11.0\t290.0\t37\t206\t262\t-\t89176700\t89176576\t89176556\t89176720\t248956422"
    );
    assert_eq!(join_fields(&a.to_bed_fmt(), b'\t'), BED.as_bytes().to_vec());
    assert_eq!(a.to_filter_fmt().len(), 16);
}

#[test]
fn export_and_bed_layouts() {
    let export = "s\tDF1\tname\t1.0\t2.0\t0.3\t4\t5\t+\t6\t7\t8\t9\t10\tcig\t11.1\t0\tcaf";
    let a = Annotation::from_export_tsv(&fields(export));
    assert_eq!(a.get_acc(), b"DF1".to_vec());
    let bed = join_fields(&a.to_bed_fmt(), b'\t');
    assert_eq!(
        String::from_utf8(bed).unwrap(),
        "s\t8\t9\tDF1\t1.0\t+\t0.3\t6\t7\t4\t5\t2.0\t0\t11.1\tname\t10\tcig\tcaf"
    );
    let b = BenchMarkAnnotation::from_export_tsv(&fields(export)[..15].to_vec());
    assert_eq!(b.to_bed_fmt().len(), 15);
    let m = MaskHit::from_export_tsv(&fields("chr2\t1\t5\t(AT)n\t4"));
    assert_eq!(m.get_acc(), b"chr2".to_vec());
    assert_eq!(m.to_dl_fmt(b"x", b"y"), m.to_bed_fmt());
    let line = FormattableLine::from_export_tsv(&fields("chr2\t1\t5\t(AT)n\t4"), DataKind::Masks);
    assert_eq!(line.get_acc(), b"chr2".to_vec());
}

#[test]
fn column_filter_selects_by_position() {
    let t = Some(b"14.7".to_vec());
    assert!(select_line(BED.as_bytes(), DataKind::Assembly, 14, &t).is_some());
    assert!(select_line(BED.as_bytes(), DataKind::Assembly, 13, &t).is_none());
    assert!(select_line(BED.as_bytes(), DataKind::Assembly, 0, &t).is_none());
    assert!(select_line(b"too short", DataKind::Assembly, 1, &None).is_none());
}

#[test]
fn family_query_with_and_without_nrph() {
    let other = BED.replace("\t1\t14.7", "\t0\t14.7");
    let lines = vec![BED.as_bytes().to_vec(), other.as_bytes().to_vec(), b"short line".to_vec()];
    let names = vec![b"chr1".to_vec(), b"chr1".to_vec(), Vec::new()];
    let all = read_family_assembly_annotations(&lines, false, &names, b"262");
    assert_eq!(all.len(), 2);
    let nrph = read_family_assembly_annotations(&lines, true, &names, b"262");
    assert_eq!(nrph.len(), 1);
    assert!(nrph[0].starts_with(b"chr1\tDF000000001\tMIR\t11.0"));
}

#[test]
fn column_filter_twice_equals_once() {
    let other = BED.replace("\t1\t14.7", "\t0\t14.7");
    let term = Some(b"1".to_vec());
    let mut written = Vec::new();
    for line in [BED.to_string(), other] {
        if let Some(rec) = select_line(line.as_bytes(), DataKind::Assembly, 13, &term) {
            written.push(join_fields(&rec.to_filter_fmt(), b'\t'));
        }
    }
    assert_eq!(written.len(), 1);
    // the written line has sixteen fields, and field 13 is still the term
    assert_eq!(ws_split(&written[0]).len(), 16);
    assert_eq!(ws_split(&written[0])[12], b"1".to_vec());
}
