//! The record layouts of the data files, and their reformatting for export and download.
use vstd::prelude::*;

use crate::codec::copy_bytes;
use crate::text::{
    is_field, is_ws, lemma_scan_append_field, lemma_ws_fields_are_fields, views, ws_fields, ws_scan,
    ws_split,
};

verus! {

/// A full-region annotation: one alignment of a family model to the assembly.
pub struct Annotation {
    pub seq_acc: Vec<u8>,
    pub fam_acc: Vec<u8>,
    pub family_name: Vec<u8>,
    pub bit_score: Vec<u8>,
    pub e_value: Vec<u8>,
    pub bias: Vec<u8>,
    pub model_start: Vec<u8>,
    pub model_end: Vec<u8>,
    pub strand: Vec<u8>,
    pub ali_start: Vec<u8>,
    pub ali_end: Vec<u8>,
    pub seq_start: Vec<u8>,
    pub seq_end: Vec<u8>,
    pub seq_len: Vec<u8>,
    pub cigar: Vec<u8>,
    pub kimura_div: Vec<u8>,
    pub nrph_hit: Vec<u8>,
    pub caf: Vec<u8>,
}

impl Annotation {
    /// The fields of `line`, an export line, in export order.
    pub open spec fn reads_export(&self, line: Seq<Seq<u8>>) -> bool {
        &&& self.seq_acc@ == line[0]
        &&& self.fam_acc@ == line[1]
        &&& self.family_name@ == line[2]
        &&& self.bit_score@ == line[3]
        &&& self.e_value@ == line[4]
        &&& self.bias@ == line[5]
        &&& self.model_start@ == line[6]
        &&& self.model_end@ == line[7]
        &&& self.strand@ == line[8]
        &&& self.ali_start@ == line[9]
        &&& self.ali_end@ == line[10]
        &&& self.seq_start@ == line[11]
        &&& self.seq_end@ == line[12]
        &&& self.seq_len@ == line[13]
        &&& self.cigar@ == line[14]
        &&& self.kimura_div@ == line[15]
        &&& self.nrph_hit@ == line[16]
        &&& self.caf@ == line[17]
    }

    /// The fields of `line`, a data-file line.
    pub open spec fn reads_bed(&self, line: Seq<Seq<u8>>) -> bool {
        &&& self.seq_acc@ == line[0]
        &&& self.fam_acc@ == line[3]
        &&& self.family_name@ == line[14]
        &&& self.bit_score@ == line[4]
        &&& self.e_value@ == line[11]
        &&& self.bias@ == line[6]
        &&& self.model_start@ == line[9]
        &&& self.model_end@ == line[10]
        &&& self.strand@ == line[5]
        &&& self.ali_start@ == line[7]
        &&& self.ali_end@ == line[8]
        &&& self.seq_start@ == line[1]
        &&& self.seq_end@ == line[2]
        &&& self.seq_len@ == line[15]
        &&& self.cigar@ == line[16]
        &&& self.kimura_div@ == line[13]
        &&& self.nrph_hit@ == line[12]
        &&& self.caf@ == line[17]
    }

    /// The fields of the data-file format.
    pub open spec fn bed_fields(&self) -> Seq<Seq<u8>> {
        seq![self.seq_acc@, self.seq_start@, self.seq_end@, self.fam_acc@, self.bit_score@, self.strand@, self.bias@, self.ali_start@, self.ali_end@, self.model_start@, self.model_end@, self.e_value@, self.nrph_hit@, self.kimura_div@, self.family_name@, self.seq_len@, self.cigar@, self.caf@]
    }

    /// The fields of the download format, with the sequence's display name and the model length.
    pub open spec fn dl_fields(&self, seq_name: Seq<u8>, hmm_len: Seq<u8>) -> Seq<Seq<u8>> {
        seq![seq_name, self.fam_acc@, self.family_name@, self.bit_score@, self.e_value@, self.model_start@, self.model_end@, hmm_len, self.strand@, self.ali_start@, self.ali_end@, self.seq_start@, self.seq_end@, self.seq_len@]
    }

    /// The fields that a column filter writes.
    pub open spec fn filter_fields(&self) -> Seq<Seq<u8>> {
        seq![self.seq_acc@, self.seq_start@, self.seq_end@, self.fam_acc@, self.bit_score@, self.strand@, self.bias@, self.ali_start@, self.ali_end@, self.model_start@, self.model_end@, self.e_value@, self.nrph_hit@, self.kimura_div@, self.family_name@, self.seq_len@]
    }

    pub fn from_export_tsv(tsv_line: &Vec<Vec<u8>>) -> (r: Self)
        requires
            tsv_line@.len() >= 18,
        ensures
            r.reads_export(views(tsv_line@)),
    {
        proof {
            assert forall|i: int| 0 <= i < tsv_line@.len() implies views(tsv_line@)[i] == (#[trigger] tsv_line@[i])@ by {}
        }
        Self {
            seq_acc: copy_bytes(tsv_line[0].as_slice()),
            fam_acc: copy_bytes(tsv_line[1].as_slice()),
            family_name: copy_bytes(tsv_line[2].as_slice()),
            bit_score: copy_bytes(tsv_line[3].as_slice()),
            e_value: copy_bytes(tsv_line[4].as_slice()),
            bias: copy_bytes(tsv_line[5].as_slice()),
            model_start: copy_bytes(tsv_line[6].as_slice()),
            model_end: copy_bytes(tsv_line[7].as_slice()),
            strand: copy_bytes(tsv_line[8].as_slice()),
            ali_start: copy_bytes(tsv_line[9].as_slice()),
            ali_end: copy_bytes(tsv_line[10].as_slice()),
            seq_start: copy_bytes(tsv_line[11].as_slice()),
            seq_end: copy_bytes(tsv_line[12].as_slice()),
            seq_len: copy_bytes(tsv_line[13].as_slice()),
            cigar: copy_bytes(tsv_line[14].as_slice()),
            kimura_div: copy_bytes(tsv_line[15].as_slice()),
            nrph_hit: copy_bytes(tsv_line[16].as_slice()),
            caf: copy_bytes(tsv_line[17].as_slice()),
        }
    }

    pub fn from_bed(bed_line: &Vec<Vec<u8>>) -> (r: Self)
        requires
            bed_line@.len() >= 18,
        ensures
            r.reads_bed(views(bed_line@)),
    {
        proof {
            assert forall|i: int| 0 <= i < bed_line@.len() implies views(bed_line@)[i] == (#[trigger] bed_line@[i])@ by {}
        }
        Self {
            seq_acc: copy_bytes(bed_line[0].as_slice()),
            fam_acc: copy_bytes(bed_line[3].as_slice()),
            family_name: copy_bytes(bed_line[14].as_slice()),
            bit_score: copy_bytes(bed_line[4].as_slice()),
            e_value: copy_bytes(bed_line[11].as_slice()),
            bias: copy_bytes(bed_line[6].as_slice()),
            model_start: copy_bytes(bed_line[9].as_slice()),
            model_end: copy_bytes(bed_line[10].as_slice()),
            strand: copy_bytes(bed_line[5].as_slice()),
            ali_start: copy_bytes(bed_line[7].as_slice()),
            ali_end: copy_bytes(bed_line[8].as_slice()),
            seq_start: copy_bytes(bed_line[1].as_slice()),
            seq_end: copy_bytes(bed_line[2].as_slice()),
            seq_len: copy_bytes(bed_line[15].as_slice()),
            cigar: copy_bytes(bed_line[16].as_slice()),
            kimura_div: copy_bytes(bed_line[13].as_slice()),
            nrph_hit: copy_bytes(bed_line[12].as_slice()),
            caf: copy_bytes(bed_line[17].as_slice()),
        }
    }

    pub fn to_bed_fmt(&self) -> (r: Vec<Vec<u8>>)
        ensures
            views(r@) == self.bed_fields(),
    {
        let mut r: Vec<Vec<u8>> = Vec::new();
        r.push(copy_bytes(self.seq_acc.as_slice()));
        r.push(copy_bytes(self.seq_start.as_slice()));
        r.push(copy_bytes(self.seq_end.as_slice()));
        r.push(copy_bytes(self.fam_acc.as_slice()));
        r.push(copy_bytes(self.bit_score.as_slice()));
        r.push(copy_bytes(self.strand.as_slice()));
        r.push(copy_bytes(self.bias.as_slice()));
        r.push(copy_bytes(self.ali_start.as_slice()));
        r.push(copy_bytes(self.ali_end.as_slice()));
        r.push(copy_bytes(self.model_start.as_slice()));
        r.push(copy_bytes(self.model_end.as_slice()));
        r.push(copy_bytes(self.e_value.as_slice()));
        r.push(copy_bytes(self.nrph_hit.as_slice()));
        r.push(copy_bytes(self.kimura_div.as_slice()));
        r.push(copy_bytes(self.family_name.as_slice()));
        r.push(copy_bytes(self.seq_len.as_slice()));
        r.push(copy_bytes(self.cigar.as_slice()));
        r.push(copy_bytes(self.caf.as_slice()));
        assert(views(r@) =~= self.bed_fields());
        r
    }

    pub fn to_dl_fmt(&self, seq_name: &[u8], hmm_len: &[u8]) -> (r: Vec<Vec<u8>>)
        ensures
            views(r@) == self.dl_fields(seq_name@, hmm_len@),
    {
        let mut r: Vec<Vec<u8>> = Vec::new();
        r.push(copy_bytes(seq_name));
        r.push(copy_bytes(self.fam_acc.as_slice()));
        r.push(copy_bytes(self.family_name.as_slice()));
        r.push(copy_bytes(self.bit_score.as_slice()));
        r.push(copy_bytes(self.e_value.as_slice()));
        r.push(copy_bytes(self.model_start.as_slice()));
        r.push(copy_bytes(self.model_end.as_slice()));
        r.push(copy_bytes(hmm_len));
        r.push(copy_bytes(self.strand.as_slice()));
        r.push(copy_bytes(self.ali_start.as_slice()));
        r.push(copy_bytes(self.ali_end.as_slice()));
        r.push(copy_bytes(self.seq_start.as_slice()));
        r.push(copy_bytes(self.seq_end.as_slice()));
        r.push(copy_bytes(self.seq_len.as_slice()));
        assert(views(r@) =~= self.dl_fields(seq_name@, hmm_len@));
        r
    }

    pub fn to_filter_fmt(&self) -> (r: Vec<Vec<u8>>)
        ensures
            views(r@) == self.filter_fields(),
    {
        let mut r: Vec<Vec<u8>> = Vec::new();
        r.push(copy_bytes(self.seq_acc.as_slice()));
        r.push(copy_bytes(self.seq_start.as_slice()));
        r.push(copy_bytes(self.seq_end.as_slice()));
        r.push(copy_bytes(self.fam_acc.as_slice()));
        r.push(copy_bytes(self.bit_score.as_slice()));
        r.push(copy_bytes(self.strand.as_slice()));
        r.push(copy_bytes(self.bias.as_slice()));
        r.push(copy_bytes(self.ali_start.as_slice()));
        r.push(copy_bytes(self.ali_end.as_slice()));
        r.push(copy_bytes(self.model_start.as_slice()));
        r.push(copy_bytes(self.model_end.as_slice()));
        r.push(copy_bytes(self.e_value.as_slice()));
        r.push(copy_bytes(self.nrph_hit.as_slice()));
        r.push(copy_bytes(self.kimura_div.as_slice()));
        r.push(copy_bytes(self.family_name.as_slice()));
        r.push(copy_bytes(self.seq_len.as_slice()));
        assert(views(r@) =~= self.filter_fields());
        r
    }

    /// The accession that groups records into files.
    pub fn get_acc(&self) -> (r: Vec<u8>)
        ensures
            r@ == self.fam_acc@,
    {
        copy_bytes(self.fam_acc.as_slice())
    }
}

/// A benchmark annotation: an `Annotation` without divergence, non-redundant flag and alignment.
pub struct BenchMarkAnnotation {
    pub seq_acc: Vec<u8>,
    pub fam_acc: Vec<u8>,
    pub family_name: Vec<u8>,
    pub bit_score: Vec<u8>,
    pub e_value: Vec<u8>,
    pub bias: Vec<u8>,
    pub model_start: Vec<u8>,
    pub model_end: Vec<u8>,
    pub strand: Vec<u8>,
    pub ali_start: Vec<u8>,
    pub ali_end: Vec<u8>,
    pub seq_start: Vec<u8>,
    pub seq_end: Vec<u8>,
    pub seq_len: Vec<u8>,
    pub cigar: Vec<u8>,
}

impl BenchMarkAnnotation {
    /// The fields of `line`, an export line, in export order.
    pub open spec fn reads_export(&self, line: Seq<Seq<u8>>) -> bool {
        &&& self.seq_acc@ == line[0]
        &&& self.fam_acc@ == line[1]
        &&& self.family_name@ == line[2]
        &&& self.bit_score@ == line[3]
        &&& self.e_value@ == line[4]
        &&& self.bias@ == line[5]
        &&& self.model_start@ == line[6]
        &&& self.model_end@ == line[7]
        &&& self.strand@ == line[8]
        &&& self.ali_start@ == line[9]
        &&& self.ali_end@ == line[10]
        &&& self.seq_start@ == line[11]
        &&& self.seq_end@ == line[12]
        &&& self.seq_len@ == line[13]
        &&& self.cigar@ == line[14]
    }

    /// The fields of `line`, a data-file line (its thirteenth field is skipped).
    pub open spec fn reads_bed(&self, line: Seq<Seq<u8>>) -> bool {
        &&& self.seq_acc@ == line[0]
        &&& self.fam_acc@ == line[3]
        &&& self.family_name@ == line[13]
        &&& self.bit_score@ == line[4]
        &&& self.e_value@ == line[11]
        &&& self.bias@ == line[6]
        &&& self.model_start@ == line[9]
        &&& self.model_end@ == line[10]
        &&& self.strand@ == line[5]
        &&& self.ali_start@ == line[7]
        &&& self.ali_end@ == line[8]
        &&& self.seq_start@ == line[1]
        &&& self.seq_end@ == line[2]
        &&& self.seq_len@ == line[14]
        &&& self.cigar@ == line[15]
    }

    /// The fields of the data-file format.
    pub open spec fn bed_fields(&self) -> Seq<Seq<u8>> {
        seq![self.seq_acc@, self.seq_start@, self.seq_end@, self.fam_acc@, self.bit_score@, self.strand@, self.bias@, self.ali_start@, self.ali_end@, self.model_start@, self.model_end@, self.e_value@, self.family_name@, self.seq_len@, self.cigar@]
    }

    /// The fields of the download format, with the sequence's display name and the model length.
    pub open spec fn dl_fields(&self, seq_name: Seq<u8>, hmm_len: Seq<u8>) -> Seq<Seq<u8>> {
        seq![seq_name, self.fam_acc@, self.family_name@, self.bit_score@, self.e_value@, self.model_start@, self.model_end@, hmm_len, self.strand@, self.ali_start@, self.ali_end@, self.seq_start@, self.seq_end@, self.seq_len@]
    }

    /// The fields that a column filter writes.
    pub open spec fn filter_fields(&self) -> Seq<Seq<u8>> {
        seq![self.seq_acc@, self.seq_start@, self.seq_end@, self.fam_acc@, self.bit_score@, self.strand@, self.bias@, self.ali_start@, self.ali_end@, self.model_start@, self.model_end@, self.e_value@, self.family_name@, self.seq_len@]
    }

    pub fn from_export_tsv(tsv_line: &Vec<Vec<u8>>) -> (r: Self)
        requires
            tsv_line@.len() >= 15,
        ensures
            r.reads_export(views(tsv_line@)),
    {
        proof {
            assert forall|i: int| 0 <= i < tsv_line@.len() implies views(tsv_line@)[i] == (#[trigger] tsv_line@[i])@ by {}
        }
        Self {
            seq_acc: copy_bytes(tsv_line[0].as_slice()),
            fam_acc: copy_bytes(tsv_line[1].as_slice()),
            family_name: copy_bytes(tsv_line[2].as_slice()),
            bit_score: copy_bytes(tsv_line[3].as_slice()),
            e_value: copy_bytes(tsv_line[4].as_slice()),
            bias: copy_bytes(tsv_line[5].as_slice()),
            model_start: copy_bytes(tsv_line[6].as_slice()),
            model_end: copy_bytes(tsv_line[7].as_slice()),
            strand: copy_bytes(tsv_line[8].as_slice()),
            ali_start: copy_bytes(tsv_line[9].as_slice()),
            ali_end: copy_bytes(tsv_line[10].as_slice()),
            seq_start: copy_bytes(tsv_line[11].as_slice()),
            seq_end: copy_bytes(tsv_line[12].as_slice()),
            seq_len: copy_bytes(tsv_line[13].as_slice()),
            cigar: copy_bytes(tsv_line[14].as_slice()),
        }
    }

    pub fn from_bed(bed_line: &Vec<Vec<u8>>) -> (r: Self)
        requires
            bed_line@.len() >= 16,
        ensures
            r.reads_bed(views(bed_line@)),
    {
        proof {
            assert forall|i: int| 0 <= i < bed_line@.len() implies views(bed_line@)[i] == (#[trigger] bed_line@[i])@ by {}
        }
        Self {
            seq_acc: copy_bytes(bed_line[0].as_slice()),
            fam_acc: copy_bytes(bed_line[3].as_slice()),
            family_name: copy_bytes(bed_line[13].as_slice()),
            bit_score: copy_bytes(bed_line[4].as_slice()),
            e_value: copy_bytes(bed_line[11].as_slice()),
            bias: copy_bytes(bed_line[6].as_slice()),
            model_start: copy_bytes(bed_line[9].as_slice()),
            model_end: copy_bytes(bed_line[10].as_slice()),
            strand: copy_bytes(bed_line[5].as_slice()),
            ali_start: copy_bytes(bed_line[7].as_slice()),
            ali_end: copy_bytes(bed_line[8].as_slice()),
            seq_start: copy_bytes(bed_line[1].as_slice()),
            seq_end: copy_bytes(bed_line[2].as_slice()),
            seq_len: copy_bytes(bed_line[14].as_slice()),
            cigar: copy_bytes(bed_line[15].as_slice()),
        }
    }

    pub fn to_bed_fmt(&self) -> (r: Vec<Vec<u8>>)
        ensures
            views(r@) == self.bed_fields(),
    {
        let mut r: Vec<Vec<u8>> = Vec::new();
        r.push(copy_bytes(self.seq_acc.as_slice()));
        r.push(copy_bytes(self.seq_start.as_slice()));
        r.push(copy_bytes(self.seq_end.as_slice()));
        r.push(copy_bytes(self.fam_acc.as_slice()));
        r.push(copy_bytes(self.bit_score.as_slice()));
        r.push(copy_bytes(self.strand.as_slice()));
        r.push(copy_bytes(self.bias.as_slice()));
        r.push(copy_bytes(self.ali_start.as_slice()));
        r.push(copy_bytes(self.ali_end.as_slice()));
        r.push(copy_bytes(self.model_start.as_slice()));
        r.push(copy_bytes(self.model_end.as_slice()));
        r.push(copy_bytes(self.e_value.as_slice()));
        r.push(copy_bytes(self.family_name.as_slice()));
        r.push(copy_bytes(self.seq_len.as_slice()));
        r.push(copy_bytes(self.cigar.as_slice()));
        assert(views(r@) =~= self.bed_fields());
        r
    }

    pub fn to_dl_fmt(&self, seq_name: &[u8], hmm_len: &[u8]) -> (r: Vec<Vec<u8>>)
        ensures
            views(r@) == self.dl_fields(seq_name@, hmm_len@),
    {
        let mut r: Vec<Vec<u8>> = Vec::new();
        r.push(copy_bytes(seq_name));
        r.push(copy_bytes(self.fam_acc.as_slice()));
        r.push(copy_bytes(self.family_name.as_slice()));
        r.push(copy_bytes(self.bit_score.as_slice()));
        r.push(copy_bytes(self.e_value.as_slice()));
        r.push(copy_bytes(self.model_start.as_slice()));
        r.push(copy_bytes(self.model_end.as_slice()));
        r.push(copy_bytes(hmm_len));
        r.push(copy_bytes(self.strand.as_slice()));
        r.push(copy_bytes(self.ali_start.as_slice()));
        r.push(copy_bytes(self.ali_end.as_slice()));
        r.push(copy_bytes(self.seq_start.as_slice()));
        r.push(copy_bytes(self.seq_end.as_slice()));
        r.push(copy_bytes(self.seq_len.as_slice()));
        assert(views(r@) =~= self.dl_fields(seq_name@, hmm_len@));
        r
    }

    pub fn to_filter_fmt(&self) -> (r: Vec<Vec<u8>>)
        ensures
            views(r@) == self.filter_fields(),
    {
        let mut r: Vec<Vec<u8>> = Vec::new();
        r.push(copy_bytes(self.seq_acc.as_slice()));
        r.push(copy_bytes(self.seq_start.as_slice()));
        r.push(copy_bytes(self.seq_end.as_slice()));
        r.push(copy_bytes(self.fam_acc.as_slice()));
        r.push(copy_bytes(self.bit_score.as_slice()));
        r.push(copy_bytes(self.strand.as_slice()));
        r.push(copy_bytes(self.bias.as_slice()));
        r.push(copy_bytes(self.ali_start.as_slice()));
        r.push(copy_bytes(self.ali_end.as_slice()));
        r.push(copy_bytes(self.model_start.as_slice()));
        r.push(copy_bytes(self.model_end.as_slice()));
        r.push(copy_bytes(self.e_value.as_slice()));
        r.push(copy_bytes(self.family_name.as_slice()));
        r.push(copy_bytes(self.seq_len.as_slice()));
        assert(views(r@) =~= self.filter_fields());
        r
    }

    /// The accession that groups records into files.
    pub fn get_acc(&self) -> (r: Vec<u8>)
        ensures
            r@ == self.fam_acc@,
    {
        copy_bytes(self.fam_acc.as_slice())
    }
}

/// A repeat-mask record.
pub struct MaskHit {
    pub seq_acc: Vec<u8>,
    pub seq_start: Vec<u8>,
    pub seq_end: Vec<u8>,
    pub repeat_str: Vec<u8>,
    pub repeat_length: Vec<u8>,
}

impl MaskHit {
    /// The fields of `line`, an export line, in export order.
    pub open spec fn reads_export(&self, line: Seq<Seq<u8>>) -> bool {
        &&& self.seq_acc@ == line[0]
        &&& self.seq_start@ == line[1]
        &&& self.seq_end@ == line[2]
        &&& self.repeat_str@ == line[3]
        &&& self.repeat_length@ == line[4]
    }

    /// The fields of `line`, a data-file line.
    pub open spec fn reads_bed(&self, line: Seq<Seq<u8>>) -> bool {
        &&& self.seq_acc@ == line[0]
        &&& self.seq_start@ == line[1]
        &&& self.seq_end@ == line[2]
        &&& self.repeat_str@ == line[3]
        &&& self.repeat_length@ == line[4]
    }

    /// The fields of the data-file format.
    pub open spec fn bed_fields(&self) -> Seq<Seq<u8>> {
        seq![self.seq_acc@, self.seq_start@, self.seq_end@, self.repeat_str@, self.repeat_length@]
    }

    /// The fields of the download format (that of the data file).
    pub open spec fn dl_fields(&self, seq_name: Seq<u8>, hmm_len: Seq<u8>) -> Seq<Seq<u8>> {
        seq![self.seq_acc@, self.seq_start@, self.seq_end@, self.repeat_str@, self.repeat_length@]
    }

    /// The fields that a column filter writes.
    pub open spec fn filter_fields(&self) -> Seq<Seq<u8>> {
        seq![self.seq_acc@, self.seq_start@, self.seq_end@, self.repeat_str@, self.repeat_length@]
    }

    pub fn from_export_tsv(tsv_line: &Vec<Vec<u8>>) -> (r: Self)
        requires
            tsv_line@.len() >= 5,
        ensures
            r.reads_export(views(tsv_line@)),
    {
        proof {
            assert forall|i: int| 0 <= i < tsv_line@.len() implies views(tsv_line@)[i] == (#[trigger] tsv_line@[i])@ by {}
        }
        Self {
            seq_acc: copy_bytes(tsv_line[0].as_slice()),
            seq_start: copy_bytes(tsv_line[1].as_slice()),
            seq_end: copy_bytes(tsv_line[2].as_slice()),
            repeat_str: copy_bytes(tsv_line[3].as_slice()),
            repeat_length: copy_bytes(tsv_line[4].as_slice()),
        }
    }

    pub fn from_bed(bed_line: &Vec<Vec<u8>>) -> (r: Self)
        requires
            bed_line@.len() >= 5,
        ensures
            r.reads_bed(views(bed_line@)),
    {
        proof {
            assert forall|i: int| 0 <= i < bed_line@.len() implies views(bed_line@)[i] == (#[trigger] bed_line@[i])@ by {}
        }
        Self {
            seq_acc: copy_bytes(bed_line[0].as_slice()),
            seq_start: copy_bytes(bed_line[1].as_slice()),
            seq_end: copy_bytes(bed_line[2].as_slice()),
            repeat_str: copy_bytes(bed_line[3].as_slice()),
            repeat_length: copy_bytes(bed_line[4].as_slice()),
        }
    }

    pub fn to_bed_fmt(&self) -> (r: Vec<Vec<u8>>)
        ensures
            views(r@) == self.bed_fields(),
    {
        let mut r: Vec<Vec<u8>> = Vec::new();
        r.push(copy_bytes(self.seq_acc.as_slice()));
        r.push(copy_bytes(self.seq_start.as_slice()));
        r.push(copy_bytes(self.seq_end.as_slice()));
        r.push(copy_bytes(self.repeat_str.as_slice()));
        r.push(copy_bytes(self.repeat_length.as_slice()));
        assert(views(r@) =~= self.bed_fields());
        r
    }

    pub fn to_dl_fmt(&self, _seq_name: &[u8], _hmm_len: &[u8]) -> (r: Vec<Vec<u8>>)
        ensures
            views(r@) == self.dl_fields(_seq_name@, _hmm_len@),
    {
        let mut r: Vec<Vec<u8>> = Vec::new();
        r.push(copy_bytes(self.seq_acc.as_slice()));
        r.push(copy_bytes(self.seq_start.as_slice()));
        r.push(copy_bytes(self.seq_end.as_slice()));
        r.push(copy_bytes(self.repeat_str.as_slice()));
        r.push(copy_bytes(self.repeat_length.as_slice()));
        assert(views(r@) =~= self.dl_fields(_seq_name@, _hmm_len@));
        r
    }

    pub fn to_filter_fmt(&self) -> (r: Vec<Vec<u8>>)
        ensures
            views(r@) == self.filter_fields(),
    {
        let mut r: Vec<Vec<u8>> = Vec::new();
        r.push(copy_bytes(self.seq_acc.as_slice()));
        r.push(copy_bytes(self.seq_start.as_slice()));
        r.push(copy_bytes(self.seq_end.as_slice()));
        r.push(copy_bytes(self.repeat_str.as_slice()));
        r.push(copy_bytes(self.repeat_length.as_slice()));
        assert(views(r@) =~= self.filter_fields());
        r
    }

    /// The accession that groups records into files.
    pub fn get_acc(&self) -> (r: Vec<u8>)
        ensures
            r@ == self.seq_acc@,
    {
        copy_bytes(self.seq_acc.as_slice())
    }
}

/// Which kind of data file a record comes from.
#[derive(Clone, Copy, Debug, PartialEq, Eq, Structural)]
pub enum DataKind {
    /// Full-region annotations.
    Assembly,
    /// Benchmark annotations.
    Benchmark,
    /// Repeat masks.
    Masks,
}

/// Fields that an export line of `kind` must have.
pub open spec fn export_width(kind: DataKind) -> nat {
    match kind {
        DataKind::Assembly => 18,
        DataKind::Benchmark => 15,
        DataKind::Masks => 5,
    }
}

/// Fields that a data-file line of `kind` must have.
pub open spec fn bed_width(kind: DataKind) -> nat {
    match kind {
        DataKind::Assembly => 18,
        DataKind::Benchmark => 16,
        DataKind::Masks => 5,
    }
}

pub fn export_width_of(kind: DataKind) -> (r: usize)
    ensures
        r == export_width(kind),
{
    match kind {
        DataKind::Assembly => 18,
        DataKind::Benchmark => 15,
        DataKind::Masks => 5,
    }
}

pub fn bed_width_of(kind: DataKind) -> (r: usize)
    ensures
        r == bed_width(kind),
{
    match kind {
        DataKind::Assembly => 18,
        DataKind::Benchmark => 16,
        DataKind::Masks => 5,
    }
}

/// A record of any kind.
pub enum FormattableLine {
    Annotation(Annotation),
    BenchMarkAnnotation(BenchMarkAnnotation),
    MaskHit(MaskHit),
}

impl FormattableLine {
    pub open spec fn kind(&self) -> DataKind {
        match self {
            FormattableLine::Annotation(_) => DataKind::Assembly,
            FormattableLine::BenchMarkAnnotation(_) => DataKind::Benchmark,
            FormattableLine::MaskHit(_) => DataKind::Masks,
        }
    }

    pub open spec fn reads_export(&self, line: Seq<Seq<u8>>) -> bool {
        match self {
            FormattableLine::Annotation(a) => a.reads_export(line),
            FormattableLine::BenchMarkAnnotation(b) => b.reads_export(line),
            FormattableLine::MaskHit(m) => m.reads_export(line),
        }
    }

    pub open spec fn reads_bed(&self, line: Seq<Seq<u8>>) -> bool {
        match self {
            FormattableLine::Annotation(a) => a.reads_bed(line),
            FormattableLine::BenchMarkAnnotation(b) => b.reads_bed(line),
            FormattableLine::MaskHit(m) => m.reads_bed(line),
        }
    }

    pub open spec fn bed_fields(&self) -> Seq<Seq<u8>> {
        match self {
            FormattableLine::Annotation(a) => a.bed_fields(),
            FormattableLine::BenchMarkAnnotation(b) => b.bed_fields(),
            FormattableLine::MaskHit(m) => m.bed_fields(),
        }
    }

    pub open spec fn dl_fields(&self, seq_name: Seq<u8>, hmm_len: Seq<u8>) -> Seq<Seq<u8>> {
        match self {
            FormattableLine::Annotation(a) => a.dl_fields(seq_name, hmm_len),
            FormattableLine::BenchMarkAnnotation(b) => b.dl_fields(seq_name, hmm_len),
            FormattableLine::MaskHit(m) => m.dl_fields(seq_name, hmm_len),
        }
    }

    pub open spec fn filter_fields(&self) -> Seq<Seq<u8>> {
        match self {
            FormattableLine::Annotation(a) => a.filter_fields(),
            FormattableLine::BenchMarkAnnotation(b) => b.filter_fields(),
            FormattableLine::MaskHit(m) => m.filter_fields(),
        }
    }

    pub open spec fn acc(&self) -> Seq<u8> {
        match self {
            FormattableLine::Annotation(a) => a.fam_acc@,
            FormattableLine::BenchMarkAnnotation(b) => b.fam_acc@,
            FormattableLine::MaskHit(m) => m.seq_acc@,
        }
    }

    /// Reads an export line as a record of `data_type`.
    pub fn from_export_tsv(tsv_line: &Vec<Vec<u8>>, data_type: DataKind) -> (r: Self)
        requires
            tsv_line@.len() >= export_width(data_type),
        ensures
            r.kind() == data_type,
            r.reads_export(views(tsv_line@)),
    {
        match data_type {
            DataKind::Assembly => FormattableLine::Annotation(Annotation::from_export_tsv(tsv_line)),
            DataKind::Benchmark => FormattableLine::BenchMarkAnnotation(
                BenchMarkAnnotation::from_export_tsv(tsv_line),
            ),
            DataKind::Masks => FormattableLine::MaskHit(MaskHit::from_export_tsv(tsv_line)),
        }
    }

    /// Reads a data-file line as a record of `data_type`.
    pub fn from_bed(bed_line: &Vec<Vec<u8>>, data_type: DataKind) -> (r: Self)
        requires
            bed_line@.len() >= bed_width(data_type),
        ensures
            r.kind() == data_type,
            r.reads_bed(views(bed_line@)),
    {
        match data_type {
            DataKind::Assembly => FormattableLine::Annotation(Annotation::from_bed(bed_line)),
            DataKind::Benchmark => FormattableLine::BenchMarkAnnotation(
                BenchMarkAnnotation::from_bed(bed_line),
            ),
            DataKind::Masks => FormattableLine::MaskHit(MaskHit::from_bed(bed_line)),
        }
    }

    pub fn to_dl_fmt(&self, seq_name: &[u8], hmm_len: &[u8]) -> (r: Vec<Vec<u8>>)
        ensures
            views(r@) == self.dl_fields(seq_name@, hmm_len@),
    {
        match self {
            FormattableLine::Annotation(a) => a.to_dl_fmt(seq_name, hmm_len),
            FormattableLine::BenchMarkAnnotation(b) => b.to_dl_fmt(seq_name, hmm_len),
            FormattableLine::MaskHit(m) => m.to_dl_fmt(seq_name, hmm_len),
        }
    }

    pub fn to_bed_fmt(&self) -> (r: Vec<Vec<u8>>)
        ensures
            views(r@) == self.bed_fields(),
    {
        match self {
            FormattableLine::Annotation(a) => a.to_bed_fmt(),
            FormattableLine::BenchMarkAnnotation(b) => b.to_bed_fmt(),
            FormattableLine::MaskHit(m) => m.to_bed_fmt(),
        }
    }

    pub fn to_filter_fmt(&self) -> (r: Vec<Vec<u8>>)
        ensures
            views(r@) == self.filter_fields(),
    {
        match self {
            FormattableLine::Annotation(a) => a.to_filter_fmt(),
            FormattableLine::BenchMarkAnnotation(b) => b.to_filter_fmt(),
            FormattableLine::MaskHit(m) => m.to_filter_fmt(),
        }
    }

    pub fn get_acc(&self) -> (r: Vec<u8>)
        ensures
            r@ == self.acc(),
    {
        match self {
            FormattableLine::Annotation(a) => a.get_acc(),
            FormattableLine::BenchMarkAnnotation(b) => b.get_acc(),
            FormattableLine::MaskHit(m) => m.get_acc(),
        }
    }
}

/// The fields joined into one line, `sep` between neighbours.
pub open spec fn join(fields: Seq<Seq<u8>>, sep: u8) -> Seq<u8>
    decreases fields.len(),
{
    if fields.len() == 0 {
        seq![]
    } else if fields.len() == 1 {
        fields[0]
    } else {
        join(fields.drop_last(), sep).push(sep) + fields.last()
    }
}

/// Joins fields into one line, `sep` between neighbours.
pub fn join_fields(fields: &Vec<Vec<u8>>, sep: u8) -> (r: Vec<u8>)
    ensures
        r@ == join(views(fields@), sep),
{
    let mut out: Vec<u8> = Vec::new();
    let mut i: usize = 0;
    while i < fields.len()
        invariant
            i <= fields@.len(),
            out@ == join(views(fields@).take(i as int), sep),
        decreases fields@.len() - i,
    {
        let ghost prev = out@;
        assert(views(fields@).take(i + 1).drop_last() =~= views(fields@).take(i as int));
        assert(views(fields@).take(i + 1).last() == fields@[i as int]@);
        if i > 0 {
            out.push(sep);
        }
        let f = fields[i].as_slice();
        let mut j: usize = 0;
        let ghost mid = out@;
        while j < f.len()
            invariant
                j <= f@.len(),
                out@ == mid + f@.take(j as int),
            decreases f@.len() - j,
        {
            out.push(f[j]);
            assert(f@.take(j + 1) =~= f@.take(j as int).push(f@[j as int]));
            j = j + 1;
        }
        assert(f@.take(f@.len() as int) =~= f@);
        if i == 0 {
            assert(views(fields@).take(1) =~= seq![fields@[0]@]);
            assert(out@ =~= fields@[0]@);
        } else {
            assert(out@ =~= prev.push(sep) + fields@[i as int]@);
        }
        i = i + 1;
    }
    assert(views(fields@).take(fields@.len() as int) =~= views(fields@));
    out
}

/// The column filter: with a term, the `position`-th field (counted from one) must equal it.
pub open spec fn term_selects(fields: Seq<Seq<u8>>, position: int, term: Option<Seq<u8>>) -> bool {
    match term {
        None => true,
        Some(t) => 1 <= position <= fields.len() && fields[position - 1] == t,
    }
}

pub open spec fn term_view(term: &Option<Vec<u8>>) -> Option<Seq<u8>> {
    match term {
        Some(t) => Some(t@),
        None => None,
    }
}

/// Reads a data-file line of `data_type` if it passes the column filter; a line with fewer
/// fields than the layout has is passed over.
pub fn select_line(line: &[u8], data_type: DataKind, position: usize, term: &Option<Vec<u8>>) -> (r:
    Option<FormattableLine>)
    ensures
        ({
            let f = ws_fields(line@);
            match r {
                Some(rec) => f.len() >= bed_width(data_type) && term_selects(
                    f,
                    position as int,
                    term_view(term),
                ) && rec.kind() == data_type && rec.reads_bed(f),
                None => !(f.len() >= bed_width(data_type) && term_selects(
                    f,
                    position as int,
                    term_view(term),
                )),
            }
        }),
{
    let fields = ws_split(line);
    proof {
        assert forall|i: int| 0 <= i < fields@.len() implies views(fields@)[i] == (
        #[trigger] fields@[i])@ by {}
    }
    if fields.len() < bed_width_of(data_type) {
        return None;
    }
    if let Some(t) = term {
        if position < 1 || position > fields.len() {
            return None;
        }
        if !crate::codec::bytes_eq(fields[position - 1].as_slice(), t.as_slice()) {
            return None;
        }
    }
    Some(FormattableLine::from_bed(&fields, data_type))
}

/// The download-format fields of the full-region record whose data-file fields are `f`.
pub open spec fn family_dl_fields(f: Seq<Seq<u8>>, seq_name: Seq<u8>, hmm_len: Seq<u8>) -> Seq<
    Seq<u8>,
> {
    seq![
        seq_name,
        f[3],
        f[14],
        f[4],
        f[11],
        f[9],
        f[10],
        hmm_len,
        f[5],
        f[7],
        f[8],
        f[1],
        f[2],
        f[15],
    ]
}

/// What the family query writes for the first `n` lines of a family's full-region data file.
pub open spec fn family_output(
    lines: Seq<Seq<u8>>,
    nrph: bool,
    seq_names: Seq<Seq<u8>>,
    hmm_len: Seq<u8>,
    n: nat,
) -> Seq<Seq<u8>>
    decreases n,
{
    if n == 0 {
        seq![]
    } else {
        let prev = family_output(lines, nrph, seq_names, hmm_len, (n - 1) as nat);
        let f = ws_fields(lines[n - 1]);
        let term = if nrph {
            Some(seq![49u8])
        } else {
            None
        };
        if f.len() >= 18 && term_selects(f, 13, term) {
            prev.push(join(family_dl_fields(f, seq_names[n - 1], hmm_len), 9))
        } else {
            prev
        }
    }
}

/// The family query over the lines of a family's full-region data file: each record, or only
/// those whose non-redundant flag (the thirteenth field) is `1` when `nrph` is set, in download
/// format with tabs between fields. `seq_names[i]` is the display name of the sequence of
/// `lines[i]`, and `hmm_len` the length of the family's model.
pub fn read_family_assembly_annotations(
    lines: &Vec<Vec<u8>>,
    nrph: bool,
    seq_names: &Vec<Vec<u8>>,
    hmm_len: &[u8],
) -> (r: Vec<Vec<u8>>)
    requires
        seq_names@.len() == lines@.len(),
    ensures
        views(r@) == family_output(
            views(lines@),
            nrph,
            views(seq_names@),
            hmm_len@,
            lines@.len(),
        ),
{
    let term: Option<Vec<u8>> = if nrph {
        let mut t: Vec<u8> = Vec::new();
        t.push(49u8);
        Some(t)
    } else {
        None
    };
    assert(term_view(&term) == if nrph {
        Some(seq![49u8])
    } else {
        None::<Seq<u8>>
    }) by {
        if nrph {
            assert(term->0@ =~= seq![49u8]);
        }
    }
    let mut out: Vec<Vec<u8>> = Vec::new();
    let mut i: usize = 0;
    while i < lines.len()
        invariant
            i <= lines@.len(),
            seq_names@.len() == lines@.len(),
            term_view(&term) == if nrph {
                Some(seq![49u8])
            } else {
                None::<Seq<u8>>
            },
            views(out@) == family_output(
                views(lines@),
                nrph,
                views(seq_names@),
                hmm_len@,
                i as nat,
            ),
        decreases lines@.len() - i,
    {
        assert(views(lines@)[i as int] == lines@[i as int]@);
        assert(views(seq_names@)[i as int] == seq_names@[i as int]@);
        if let Some(rec) = select_line(lines[i].as_slice(), DataKind::Assembly, 13, &term) {
            let fields = rec.to_dl_fmt(seq_names[i].as_slice(), hmm_len);
            let line = join_fields(&fields, 9u8);
            let ghost before = out@;
            out.push(line);
            proof {
                let f = ws_fields(lines@[i as int]@);
                assert(views(fields@) =~= family_dl_fields(f, seq_names@[i as int]@, hmm_len@));
                assert(views(out@) =~= views(before).push(line@));
            }
        }
        i = i + 1;
    }
    out
}


proof fn lemma_scan_join(fs: Seq<Seq<u8>>)
    requires
        fs.len() >= 1,
        forall|k: int| 0 <= k < fs.len() ==> is_field(#[trigger] fs[k]),
    ensures
        ws_scan(join(fs, 9)) == (fs.drop_last(), fs.last()),
    decreases fs.len(),
{
    if fs.len() == 1 {
        lemma_scan_append_field(Seq::empty(), fs[0]);
        assert(Seq::<u8>::empty() + fs[0] =~= fs[0]);
        assert(ws_scan(Seq::<u8>::empty()).1 + fs[0] =~= fs[0]);
        assert(fs.drop_last() =~= Seq::<Seq<u8>>::empty());
    } else {
        let p = fs.drop_last();
        assert forall|k: int| 0 <= k < p.len() implies is_field(#[trigger] p[k]) by {
            assert(p[k] == fs[k]);
        }
        lemma_scan_join(p);
        let jp = join(p, 9).push(9);
        assert(jp.drop_last() =~= join(p, 9));
        assert(is_ws(jp.last()));
        assert(p.last().len() > 0);
        assert(p.drop_last().push(p.last()) =~= p);
        assert(ws_scan(jp) == (p, Seq::<u8>::empty()));
        lemma_scan_append_field(jp, fs.last());
        assert(Seq::<u8>::empty() + fs.last() =~= fs.last());
    }
}

/// Splitting a line of fields joined by tabs gives back the fields.
pub proof fn lemma_ws_fields_of_join(fs: Seq<Seq<u8>>)
    requires
        forall|k: int| 0 <= k < fs.len() ==> is_field(#[trigger] fs[k]),
    ensures
        ws_fields(join(fs, 9)) == fs,
{
    if fs.len() == 0 {
        assert(ws_fields(Seq::<u8>::empty()) =~= Seq::<Seq<u8>>::empty());
    } else {
        lemma_scan_join(fs);
        assert(fs.drop_last().push(fs.last()) =~= fs);
    }
}

/// The column filter is idempotent: a full-region line that passes it, written in the filter
/// format (its first sixteen fields joined by tabs), passes the same filter again, for a term
/// on any of those sixteen columns; so filtering the written lines again keeps them all.
pub proof fn lemma_column_filter_idempotent(
    line: Seq<u8>,
    position: int,
    term: Option<Seq<u8>>,
    rec: FormattableLine,
)
    requires
        ws_fields(line).len() >= 18,
        term_selects(ws_fields(line), position, term),
        rec.kind() == DataKind::Assembly,
        rec.reads_bed(ws_fields(line)),
        term is Some ==> position <= 16,
    ensures
        term_selects(ws_fields(join(rec.filter_fields(), 9)), position, term),
{
    let f = ws_fields(line);
    lemma_ws_fields_are_fields(line);
    let out = rec.filter_fields();
    assert(out.len() == 16);
    assert forall|k: int| 0 <= k < 16 implies #[trigger] out[k] == f[k] by {}
    assert forall|k: int| 0 <= k < out.len() implies is_field(#[trigger] out[k]) by {
        assert(out[k] == f[k]);
    }
    lemma_ws_fields_of_join(out);
}

} // verus!
