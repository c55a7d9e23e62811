//! The family-accession and non-redundant-hit predicates on record lines.
use vstd::prelude::*;

use crate::codec::bytes_eq;
use crate::text::{before, split_bytes, split_on, views, ws_fields, ws_split};

verus! {

/// The fourth white-space field of `line`, up to its first period, is `family`.
pub open spec fn family_matches(line: Seq<u8>, family: Seq<u8>) -> bool {
    let f = ws_fields(line);
    f.len() >= 4 && before(f[3], 46) == family
}

/// The last white-space field of `line` is `1`.
pub open spec fn nrph_matches(line: Seq<u8>) -> bool {
    let f = ws_fields(line);
    f.len() > 0 && f.last() == seq![49u8]
}

/// Whether `line` passes the active filters.
pub open spec fn keep_line(line: Seq<u8>, family: Option<Seq<u8>>, nrph: bool) -> bool {
    &&& (family matches Some(fam) ==> family_matches(line, fam))
    &&& (nrph ==> nrph_matches(line))
}

/// The lines of `lines` that pass the active filters, in order.
pub open spec fn kept(lines: Seq<Seq<u8>>, family: Option<Seq<u8>>, nrph: bool) -> Seq<Seq<u8>>
    decreases lines.len(),
{
    if lines.len() == 0 {
        seq![]
    } else {
        let p = kept(lines.drop_last(), family, nrph);
        if keep_line(lines.last(), family, nrph) {
            p.push(lines.last())
        } else {
            p
        }
    }
}

pub open spec fn family_view(family: &Option<Vec<u8>>) -> Option<Seq<u8>> {
    match family {
        Some(f) => Some(f@),
        None => None,
    }
}

/// Whether `line` passes the active filters: its family accession, if `family` is given,
/// and its non-redundant-hit flag, if `nrph` is set.
pub fn filter_line(line: &[u8], family: &Option<Vec<u8>>, nrph: bool) -> (r: bool)
    ensures
        r == keep_line(line@, family_view(family), nrph),
{
    let fields = ws_split(line);
    proof {
        assert forall|i: int| 0 <= i < fields@.len() implies views(fields@)[i] == (
        #[trigger] fields@[i])@ by {}
    }
    if let Some(fam) = family {
        if fields.len() < 4 {
            return false;
        }
        let pieces = split_bytes(fields[3].as_slice(), 46u8);
        assert(split_on(fields@[3]@, 46).len() >= 1);
        assert(views(pieces@).len() == pieces@.len());
        assert(views(pieces@)[0] == pieces@[0]@);
        if !bytes_eq(pieces[0].as_slice(), fam.as_slice()) {
            return false;
        }
    }
    if nrph {
        let n = fields.len();
        if n == 0 {
            return false;
        }
        let last = fields[n - 1].as_slice();
        if !(last.len() == 1 && last[0] == 49u8) {
            assert(views(fields@).last() == fields@[n - 1]@);
            assert(!(last@ =~= seq![49u8]));
            return false;
        }
        assert(last@ =~= seq![49u8]);
    }
    true
}

/// The lines that pass the active filters, in order.
pub fn filter_lines(lines: &Vec<Vec<u8>>, family: &Option<Vec<u8>>, nrph: bool) -> (r: Vec<
    Vec<u8>,
>)
    ensures
        views(r@) == kept(views(lines@), family_view(family), nrph),
{
    let mut out: Vec<Vec<u8>> = Vec::new();
    let mut i: usize = 0;
    while i < lines.len()
        invariant
            i <= lines@.len(),
            views(out@) == kept(views(lines@).take(i as int), family_view(family), nrph),
        decreases lines@.len() - i,
    {
        assert(views(lines@).take(i + 1).drop_last() =~= views(lines@).take(i as int));
        assert(views(lines@).take(i + 1).last() == lines@[i as int]@);
        if filter_line(lines[i].as_slice(), family, nrph) {
            let ghost before_out = out@;
            out.push(lines[i].clone());
            assert(out@[out@.len() - 1]@ =~= lines@[i as int]@);
            assert(views(out@) =~= views(before_out).push(lines@[i as int]@));
        }
        i = i + 1;
    }
    assert(views(lines@).take(lines@.len() as int) =~= views(lines@));
    out
}

proof fn lemma_kept_all_pass(lines: Seq<Seq<u8>>, family: Option<Seq<u8>>, nrph: bool)
    ensures
        forall|i: int|
            0 <= i < kept(lines, family, nrph).len() ==> keep_line(
                #[trigger] kept(lines, family, nrph)[i],
                family,
                nrph,
            ),
    decreases lines.len(),
{
    if lines.len() > 0 {
        lemma_kept_all_pass(lines.drop_last(), family, nrph);
        let k = kept(lines, family, nrph);
        let p = kept(lines.drop_last(), family, nrph);
        assert forall|i: int| 0 <= i < k.len() implies keep_line(#[trigger] k[i], family, nrph) by {
            if i < p.len() {
                assert(k[i] == p[i]);
            }
        }
    }
}

proof fn lemma_kept_of_passing(lines: Seq<Seq<u8>>, family: Option<Seq<u8>>, nrph: bool)
    requires
        forall|i: int| 0 <= i < lines.len() ==> keep_line(#[trigger] lines[i], family, nrph),
    ensures
        kept(lines, family, nrph) == lines,
    decreases lines.len(),
{
    if lines.len() > 0 {
        lemma_kept_of_passing(lines.drop_last(), family, nrph);
        assert(lines.drop_last().push(lines.last()) =~= lines);
    }
}

/// Filtering is idempotent: applying the same filters twice (family, non-redundant hit, or
/// both) gives what applying them once gives.
pub proof fn lemma_filter_idempotent(lines: Seq<Seq<u8>>, family: Option<Seq<u8>>, nrph: bool)
    ensures
        kept(kept(lines, family, nrph), family, nrph) == kept(lines, family, nrph),
{
    lemma_kept_all_pass(lines, family, nrph);
    lemma_kept_of_passing(kept(lines, family, nrph), family, nrph);
}

} // verus!
