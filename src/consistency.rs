//! Whether the data files still look as they did when the index was built.
use vstd::prelude::*;

use crate::codec::bytes_eq;
use crate::index::BGZFile;

verus! {

/// A difference between the index's file table and the data directory.
#[derive(Clone, Copy, Debug, PartialEq, Eq, Structural)]
pub enum ConsistencyWarning {
    /// Indexed file `i` is no longer in the directory.
    Missing(usize),
    /// Indexed file `i` has another byte length now.
    Resized(usize),
    /// Indexed file `i` has another modification time now.
    Retimed(usize),
    /// Directory entry `j` was not indexed.
    Added(usize),
}

/// Position of the first entry of `disk` called `name`, or -1.
pub open spec fn find_name(disk: Seq<BGZFile>, name: Seq<u8>) -> int
    decreases disk.len(),
{
    if disk.len() == 0 {
        -1
    } else {
        let p = find_name(disk.drop_last(), name);
        if p >= 0 {
            p
        } else if disk.last().name@ == name {
            disk.len() - 1
        } else {
            -1
        }
    }
}

/// The warning, if any, for indexed file `i` described by `f`.
pub open spec fn indexed_warning(f: BGZFile, i: int, disk: Seq<BGZFile>) -> Option<
    ConsistencyWarning,
> {
    let j = find_name(disk, f.name@);
    if j < 0 {
        Some(ConsistencyWarning::Missing(i as usize))
    } else if disk[j].bytes != f.bytes {
        Some(ConsistencyWarning::Resized(i as usize))
    } else if disk[j].mod_time_bits != f.mod_time_bits {
        Some(ConsistencyWarning::Retimed(i as usize))
    } else {
        None
    }
}

pub open spec fn opt_seq(o: Option<ConsistencyWarning>) -> Seq<ConsistencyWarning> {
    match o {
        Some(w) => seq![w],
        None => seq![],
    }
}

/// Warnings for the first `n` indexed files, in order.
pub open spec fn indexed_warnings(files: Seq<BGZFile>, disk: Seq<BGZFile>, n: nat) -> Seq<
    ConsistencyWarning,
>
    decreases n,
{
    if n == 0 {
        seq![]
    } else {
        indexed_warnings(files, disk, (n - 1) as nat) + opt_seq(
            indexed_warning(files[n - 1], n - 1, disk),
        )
    }
}

/// Warnings for the first `n` directory entries that no indexed file names, in order.
pub open spec fn added_warnings(files: Seq<BGZFile>, disk: Seq<BGZFile>, n: nat) -> Seq<
    ConsistencyWarning,
>
    decreases n,
{
    if n == 0 {
        seq![]
    } else {
        added_warnings(files, disk, (n - 1) as nat) + if find_name(files, disk[n - 1].name@) < 0 {
            seq![ConsistencyWarning::Added((n - 1) as usize)]
        } else {
            seq![]
        }
    }
}

proof fn lemma_find_prefix(disk: Seq<BGZFile>, name: Seq<u8>, k: int)
    requires
        0 <= k <= disk.len(),
        find_name(disk.take(k), name) >= 0,
    ensures
        find_name(disk, name) == find_name(disk.take(k), name),
    decreases disk.len() - k,
{
    if k == disk.len() {
        assert(disk.take(k) =~= disk);
    } else {
        assert(disk.drop_last().take(k) =~= disk.take(k));
        lemma_find_prefix(disk.drop_last(), name, k);
    }
}

/// Position of the first entry of `disk` called `name`.
fn find(disk: &Vec<BGZFile>, name: &[u8]) -> (r: Option<usize>)
    ensures
        r matches Some(j) ==> j as int == find_name(disk@, name@) && j < disk@.len(),
        r is None ==> find_name(disk@, name@) == -1,
{
    let mut j: usize = 0;
    while j < disk.len()
        invariant
            j <= disk@.len(),
            find_name(disk@.take(j as int), name@) == -1,
        decreases disk@.len() - j,
    {
        assert(disk@.take(j + 1).drop_last() =~= disk@.take(j as int));
        if bytes_eq(disk[j].name.as_slice(), name) {
            proof {
                lemma_find_prefix(disk@, name@, j + 1);
            }
            return Some(j);
        }
        j = j + 1;
    }
    assert(disk@.take(disk@.len() as int) =~= disk@);
    None
}

/// Compares the index's file table with the data directory's entries: a warning for each
/// indexed file that is missing, resized or re-timed (checked in that order), then one for
/// each entry that was never indexed.
pub fn check_consistency(files: &Vec<BGZFile>, disk: &Vec<BGZFile>) -> (r: Vec<ConsistencyWarning>)
    ensures
        r@ == indexed_warnings(files@, disk@, files@.len()) + added_warnings(
            files@,
            disk@,
            disk@.len(),
        ),
{
    let mut out: Vec<ConsistencyWarning> = Vec::new();
    let mut i: usize = 0;
    while i < files.len()
        invariant
            i <= files@.len(),
            out@ == indexed_warnings(files@, disk@, i as nat),
        decreases files@.len() - i,
    {
        let f = &files[i];
        match find(disk, f.name.as_slice()) {
            None => out.push(ConsistencyWarning::Missing(i)),
            Some(j) => {
                if disk[j].bytes != f.bytes {
                    out.push(ConsistencyWarning::Resized(i));
                } else if disk[j].mod_time_bits != f.mod_time_bits {
                    out.push(ConsistencyWarning::Retimed(i));
                }
            },
        }
        assert(out@ =~= indexed_warnings(files@, disk@, (i + 1) as nat));
        i = i + 1;
    }
    let ghost head = out@;
    let mut j: usize = 0;
    while j < disk.len()
        invariant
            j <= disk@.len(),
            out@ == head + added_warnings(files@, disk@, j as nat),
        decreases disk@.len() - j,
    {
        if find(files, disk[j].name.as_slice()).is_none() {
            out.push(ConsistencyWarning::Added(j));
        }
        assert(out@ =~= head + added_warnings(files@, disk@, (j + 1) as nat));
        j = j + 1;
    }
    out
}

} // verus!
