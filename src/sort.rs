//! The order in which a tile's ranges are persisted: by start, ties in insertion order.
use vstd::prelude::*;

use crate::index::ContigRange;

verus! {

/// `s` with `r` placed after every range that starts no later than `r` and before the
/// trailing ranges that start after it.
pub open spec fn insert_by_start(s: Seq<ContigRange>, r: ContigRange) -> Seq<ContigRange>
    decreases s.len(),
{
    if s.len() == 0 || s.last().start_bp <= r.start_bp {
        s.push(r)
    } else {
        insert_by_start(s.drop_last(), r).push(s.last())
    }
}

/// `s` sorted by `start_bp`, ranges with equal starts kept in their order in `s`.
pub open spec fn sort_by_start(s: Seq<ContigRange>) -> Seq<ContigRange>
    decreases s.len(),
{
    if s.len() == 0 {
        s
    } else {
        insert_by_start(sort_by_start(s.drop_last()), s.last())
    }
}

/// Starts never decrease along `s`.
pub open spec fn sorted_by_start(s: Seq<ContigRange>) -> bool {
    forall|i: int, j: int| 0 <= i <= j < s.len() ==> s[i].start_bp <= s[j].start_bp
}

proof fn lemma_insert_at(s: Seq<ContigRange>, r: ContigRange, j: int)
    requires
        0 <= j <= s.len(),
        forall|k: int| j <= k < s.len() ==> s[k].start_bp > r.start_bp,
        j == 0 || s[j - 1].start_bp <= r.start_bp,
    ensures
        insert_by_start(s, r) == s.take(j).push(r) + s.skip(j),
    decreases s.len() - j,
{
    if j == s.len() {
        assert(s.take(j) =~= s);
        assert(s.skip(j) =~= Seq::<ContigRange>::empty());
        assert(s.take(j).push(r) + s.skip(j) =~= s.push(r));
    } else {
        let p = s.drop_last();
        lemma_insert_at(p, r, j);
        assert(insert_by_start(s, r) == insert_by_start(p, r).push(s.last()));
        assert(p.take(j) =~= s.take(j));
        assert(p.skip(j).push(s.last()) =~= s.skip(j));
        assert((p.take(j).push(r) + p.skip(j)).push(s.last()) =~= s.take(j).push(r) + s.skip(j));
    }
}

proof fn lemma_insert_sorted(s: Seq<ContigRange>, r: ContigRange)
    requires
        sorted_by_start(s),
    ensures
        sorted_by_start(insert_by_start(s, r)),
        insert_by_start(s, r).len() == s.len() + 1,
        forall|i: int|
            0 <= i < insert_by_start(s, r).len() ==> (#[trigger] insert_by_start(s, r)[i]
                == r || s.contains(insert_by_start(s, r)[i])),
    decreases s.len(),
{
    if s.len() == 0 || s.last().start_bp <= r.start_bp {
        let t = s.push(r);
        assert forall|i: int| 0 <= i < t.len() implies (t[i] == r || s.contains(t[i])) by {
            if i < s.len() {
                assert(t[i] == s[i]);
            }
        }
    } else {
        let p = s.drop_last();
        assert(sorted_by_start(p));
        lemma_insert_sorted(p, r);
        let q = insert_by_start(p, r);
        let t = q.push(s.last());
        assert forall|i: int| 0 <= i < t.len() implies (t[i] == r || s.contains(t[i])) by {
            if i < q.len() && q[i] != r {
                let k = choose|k: int| 0 <= k < p.len() && p[k] == q[i];
                assert(s[k] == q[i]);
            } else if i == q.len() {
                assert(s[s.len() - 1] == t[i]);
            }
        }
        assert forall|i: int, j: int| 0 <= i <= j < t.len() implies t[i].start_bp <= t[j].start_bp by {
            if j == q.len() && i < j {
                if q[i] != r {
                    let k = choose|k: int| 0 <= k < p.len() && p[k] == q[i];
                    assert(s[k] == p[k]);
                }
            }
        }
    }
}

/// Sorting keeps the members: every range of the sorted sequence is one of `s`.
pub proof fn lemma_sort_members(s: Seq<ContigRange>)
    ensures
        forall|i: int| 0 <= i < sort_by_start(s).len() ==> s.contains(#[trigger] sort_by_start(s)[i]),
    decreases s.len(),
{
    if s.len() > 0 {
        let p = s.drop_last();
        lemma_sort_members(p);
        lemma_sort_sorted(p);
        lemma_insert_sorted(sort_by_start(p), s.last());
        let q = sort_by_start(p);
        let t = sort_by_start(s);
        assert forall|i: int| 0 <= i < t.len() implies s.contains(#[trigger] t[i]) by {
            if t[i] == s.last() {
                assert(s[s.len() - 1] == t[i]);
            } else {
                let k = choose|k: int| 0 <= k < q.len() && q[k] == t[i];
                let j = choose|j: int| 0 <= j < p.len() && p[j] == q[k];
                assert(s[j] == t[i]);
            }
        }
    }
}

/// Persisted tiles are in order: sorting leaves starts non-decreasing.
pub proof fn lemma_sort_sorted(s: Seq<ContigRange>)
    ensures
        sorted_by_start(sort_by_start(s)),
        sort_by_start(s).len() == s.len(),
    decreases s.len(),
{
    if s.len() > 0 {
        lemma_sort_sorted(s.drop_last());
        lemma_insert_sorted(sort_by_start(s.drop_last()), s.last());
    }
}

/// The ranges of `s` that start at `v`, in their order in `s`.
pub open spec fn with_start(s: Seq<ContigRange>, v: u64) -> Seq<ContigRange>
    decreases s.len(),
{
    if s.len() == 0 {
        seq![]
    } else if s.last().start_bp == v {
        with_start(s.drop_last(), v).push(s.last())
    } else {
        with_start(s.drop_last(), v)
    }
}

proof fn lemma_insert_ties(s: Seq<ContigRange>, r: ContigRange, v: u64)
    ensures
        with_start(insert_by_start(s, r), v) == if r.start_bp == v {
            with_start(s, v).push(r)
        } else {
            with_start(s, v)
        },
    decreases s.len(),
{
    if s.len() == 0 || s.last().start_bp <= r.start_bp {
        assert(s.push(r).drop_last() =~= s);
    } else {
        let p = s.drop_last();
        lemma_insert_ties(p, r, v);
        let q = insert_by_start(p, r);
        assert(q.push(s.last()).drop_last() =~= q);
    }
}

/// Ties keep their order: among ranges with one start, sorting keeps the order of `s`, which
/// for a tile is the order in which its records were ingested.
pub proof fn lemma_sort_stable(s: Seq<ContigRange>, v: u64)
    ensures
        with_start(sort_by_start(s), v) == with_start(s, v),
    decreases s.len(),
{
    if s.len() > 0 {
        lemma_sort_stable(s.drop_last(), v);
        lemma_insert_ties(sort_by_start(s.drop_last()), s.last(), v);
    }
}

/// Whether the starts of `s` never decrease.
pub fn is_sorted_by_start(s: &[ContigRange]) -> (r: bool)
    ensures
        r == sorted_by_start(s@),
{
    let mut i: usize = 1;
    if s.len() == 0 {
        return true;
    }
    while i < s.len()
        invariant
            1 <= i <= s@.len(),
            forall|a: int, b: int| 0 <= a <= b < i ==> s@[a].start_bp <= s@[b].start_bp,
        decreases s@.len() - i,
    {
        if s[i - 1].start_bp > s[i].start_bp {
            return false;
        }
        i = i + 1;
    }
    true
}

/// The ranges of `v` sorted by start; equal starts keep their order in `v`.
pub fn sort_ranges(v: &[ContigRange]) -> (r: Vec<ContigRange>)
    ensures
        r@ == sort_by_start(v@),
{
    let mut out: Vec<ContigRange> = Vec::new();
    let mut i: usize = 0;
    while i < v.len()
        invariant
            i <= v@.len(),
            out@ == sort_by_start(v@.take(i as int)),
        decreases v@.len() - i,
    {
        let x = v[i];
        let mut j: usize = out.len();
        while j > 0 && out[j - 1].start_bp > x.start_bp
            invariant
                j <= out@.len(),
                forall|k: int| j <= k < out@.len() ==> out@[k].start_bp > x.start_bp,
            decreases j,
        {
            j = j - 1;
        }
        proof {
            lemma_insert_at(out@, x, j as int);
            assert(v@.take(i + 1).drop_last() =~= v@.take(i as int));
            assert(v@.take(i + 1).last() == x);
        }
        let ghost before = out@;
        out.insert(j, x);
        assert(out@ =~= before.take(j as int).push(x) + before.skip(j as int));
        i = i + 1;
    }
    assert(v@.take(v@.len() as int) =~= v@);
    out
}

} // verus!
