//! Little-endian fixed-width integers and zero-padded fixed-length names.
use vstd::prelude::*;

verus! {

/// Width on disk of a zero-padded name.
pub const NAME_WIDTH: usize = 40;

/// The two bytes of `v`, least significant first.
pub open spec fn le16(v: u16) -> Seq<u8> {
    seq![v as u8, (v >> 8u16) as u8]
}

/// The four bytes of `v`, least significant first.
pub open spec fn le32(v: u32) -> Seq<u8> {
    seq![v as u8, (v >> 8u32) as u8, (v >> 16u32) as u8, (v >> 24u32) as u8]
}

/// The eight bytes of `v`, least significant first.
pub open spec fn le64(v: u64) -> Seq<u8> {
    seq![
        v as u8,
        (v >> 8u64) as u8,
        (v >> 16u64) as u8,
        (v >> 24u64) as u8,
        (v >> 32u64) as u8,
        (v >> 40u64) as u8,
        (v >> 48u64) as u8,
        (v >> 56u64) as u8,
    ]
}

/// The `u16` whose little-endian bytes start at `b[i]`.
pub open spec fn u16_at(b: Seq<u8>, i: int) -> u16 {
    (b[i] as u16) | ((b[i + 1] as u16) << 8u16)
}

/// The `u32` whose little-endian bytes start at `b[i]`.
pub open spec fn u32_at(b: Seq<u8>, i: int) -> u32 {
    (b[i] as u32) | ((b[i + 1] as u32) << 8u32) | ((b[i + 2] as u32) << 16u32) | ((b[i + 3] as u32)
        << 24u32)
}

/// The `u64` whose little-endian bytes start at `b[i]`.
pub open spec fn u64_at(b: Seq<u8>, i: int) -> u64 {
    (b[i] as u64) | ((b[i + 1] as u64) << 8u64) | ((b[i + 2] as u64) << 16u64) | ((b[i + 3] as u64)
        << 24u64) | ((b[i + 4] as u64) << 32u64) | ((b[i + 5] as u64) << 40u64) | ((b[i + 6] as u64)
        << 48u64) | ((b[i + 7] as u64) << 56u64)
}

/// A name cut to `NAME_WIDTH` bytes and right-padded with zero bytes to that width.
pub open spec fn padded_name(name: Seq<u8>) -> Seq<u8> {
    Seq::new(NAME_WIDTH as nat, |i: int| if i < name.len() { name[i] } else { 0u8 })
}

/// The bytes of `s` before its first zero byte (all of `s` if it holds none).
pub open spec fn until_zero(s: Seq<u8>) -> Seq<u8>
    decreases s.len(),
{
    if s.len() == 0 {
        s
    } else if s[0] == 0 {
        seq![]
    } else {
        seq![s[0]] + until_zero(s.drop_first())
    }
}

pub proof fn lemma_u16_round_trip(v: u16, b: Seq<u8>, i: int)
    requires
        0 <= i,
        i + 2 <= b.len(),
        b.subrange(i, i + 2) == le16(v),
    ensures
        u16_at(b, i) == v,
{
    assert(b[i] == b.subrange(i, i + 2)[0]);
    assert(b[i + 1] == b.subrange(i, i + 2)[1]);
    assert(((v as u8) as u16) | ((((v >> 8u16) as u8) as u16) << 8u16) == v) by (bit_vector);
}

pub proof fn lemma_u32_round_trip(v: u32, b: Seq<u8>, i: int)
    requires
        0 <= i,
        i + 4 <= b.len(),
        b.subrange(i, i + 4) == le32(v),
    ensures
        u32_at(b, i) == v,
{
    let s = b.subrange(i, i + 4);
    assert(b[i] == s[0] && b[i + 1] == s[1] && b[i + 2] == s[2] && b[i + 3] == s[3]);
    assert(((v as u8) as u32) | ((((v >> 8u32) as u8) as u32) << 8u32) | ((((v >> 16u32) as u8)
        as u32) << 16u32) | ((((v >> 24u32) as u8) as u32) << 24u32) == v) by (bit_vector);
}

pub proof fn lemma_u64_round_trip(v: u64, b: Seq<u8>, i: int)
    requires
        0 <= i,
        i + 8 <= b.len(),
        b.subrange(i, i + 8) == le64(v),
    ensures
        u64_at(b, i) == v,
{
    let s = b.subrange(i, i + 8);
    assert(b[i] == s[0] && b[i + 1] == s[1] && b[i + 2] == s[2] && b[i + 3] == s[3]);
    assert(b[i + 4] == s[4] && b[i + 5] == s[5] && b[i + 6] == s[6] && b[i + 7] == s[7]);
    assert(((v as u8) as u64) | ((((v >> 8u64) as u8) as u64) << 8u64) | ((((v >> 16u64) as u8)
        as u64) << 16u64) | ((((v >> 24u64) as u8) as u64) << 24u64) | ((((v >> 32u64) as u8)
        as u64) << 32u64) | ((((v >> 40u64) as u8) as u64) << 40u64) | ((((v >> 48u64) as u8)
        as u64) << 48u64) | ((((v >> 56u64) as u8) as u64) << 56u64) == v) by (bit_vector);
}

/// If no byte of `s` before `k` is zero and `s[k]` is (or `k` is its end),
/// the name held by `s` is its first `k` bytes.
pub proof fn lemma_until_zero_at(s: Seq<u8>, k: int)
    requires
        0 <= k <= s.len(),
        forall|j: int| 0 <= j < k ==> s[j] != 0,
        k == s.len() || s[k] == 0,
    ensures
        until_zero(s) == s.subrange(0, k),
    decreases k,
{
    if k == 0 {
        assert(until_zero(s) =~= s.subrange(0, 0));
    } else {
        let t = s.drop_first();
        lemma_until_zero_at(t, k - 1);
        assert(until_zero(s) =~= s.subrange(0, k));
    }
}

/// Appends the little-endian bytes of `v`.
pub fn push_u16(out: &mut Vec<u8>, v: u16)
    ensures
        final(out)@ == old(out)@ + le16(v),
{
    out.push(v as u8);
    out.push((v >> 8u16) as u8);
    assert(final(out)@ =~= old(out)@ + le16(v));
}

/// Appends the little-endian bytes of `v`.
pub fn push_u32(out: &mut Vec<u8>, v: u32)
    ensures
        final(out)@ == old(out)@ + le32(v),
{
    out.push(v as u8);
    out.push((v >> 8u32) as u8);
    out.push((v >> 16u32) as u8);
    out.push((v >> 24u32) as u8);
    assert(final(out)@ =~= old(out)@ + le32(v));
}

/// Appends the little-endian bytes of `v`.
pub fn push_u64(out: &mut Vec<u8>, v: u64)
    ensures
        final(out)@ == old(out)@ + le64(v),
{
    out.push(v as u8);
    out.push((v >> 8u64) as u8);
    out.push((v >> 16u64) as u8);
    out.push((v >> 24u64) as u8);
    out.push((v >> 32u64) as u8);
    out.push((v >> 40u64) as u8);
    out.push((v >> 48u64) as u8);
    out.push((v >> 56u64) as u8);
    assert(final(out)@ =~= old(out)@ + le64(v));
}

/// Appends `name` as a fixed-width field: cut to `NAME_WIDTH` bytes, zero-padded.
pub fn push_name(out: &mut Vec<u8>, name: &[u8])
    ensures
        final(out)@ == old(out)@ + padded_name(name@),
{
    let ghost start = out@;
    let mut i: usize = 0;
    while i < NAME_WIDTH
        invariant
            i <= NAME_WIDTH,
            out@ == start + padded_name(name@).take(i as int),
        decreases NAME_WIDTH - i,
    {
        if i < name.len() {
            out.push(name[i]);
        } else {
            out.push(0u8);
        }
        assert(padded_name(name@).take(i + 1) =~= padded_name(name@).take(i as int).push(
            padded_name(name@)[i as int],
        ));
        i = i + 1;
    }
    assert(padded_name(name@).take(NAME_WIDTH as int) =~= padded_name(name@));
}

/// The `u16` stored little-endian at `b[i..i + 2]`.
pub fn read_u16(b: &[u8], i: usize) -> (r: u16)
    requires
        i + 2 <= b@.len(),
    ensures
        r == u16_at(b@, i as int),
{
    (b[i] as u16) | ((b[i + 1] as u16) << 8u16)
}

/// The `u32` stored little-endian at `b[i..i + 4]`.
pub fn read_u32(b: &[u8], i: usize) -> (r: u32)
    requires
        i + 4 <= b@.len(),
    ensures
        r == u32_at(b@, i as int),
{
    (b[i] as u32) | ((b[i + 1] as u32) << 8u32) | ((b[i + 2] as u32) << 16u32) | ((b[i + 3] as u32)
        << 24u32)
}

/// The `u64` stored little-endian at `b[i..i + 8]`.
pub fn read_u64(b: &[u8], i: usize) -> (r: u64)
    requires
        i + 8 <= b@.len(),
    ensures
        r == u64_at(b@, i as int),
{
    (b[i] as u64) | ((b[i + 1] as u64) << 8u64) | ((b[i + 2] as u64) << 16u64) | ((b[i + 3] as u64)
        << 24u64) | ((b[i + 4] as u64) << 32u64) | ((b[i + 5] as u64) << 40u64) | ((b[i + 6] as u64)
        << 48u64) | ((b[i + 7] as u64) << 56u64)
}

/// The name held by the fixed-width field `b[i..i + NAME_WIDTH]`: its bytes before the first zero.
pub fn read_name(b: &[u8], i: usize) -> (r: Vec<u8>)
    requires
        i + NAME_WIDTH <= b@.len(),
    ensures
        r@ == until_zero(b@.subrange(i as int, i + NAME_WIDTH)),
{
    let ghost field = b@.subrange(i as int, i + NAME_WIDTH);
    let n = b.len();
    let mut r: Vec<u8> = Vec::new();
    let mut k: usize = 0;
    while k < NAME_WIDTH
        invariant
            k <= NAME_WIDTH,
            i + NAME_WIDTH <= b@.len(),
            n == b@.len(),
            field == b@.subrange(i as int, i + NAME_WIDTH),
            r@ == field.take(k as int),
            forall|j: int| 0 <= j < k ==> field[j] != 0,
        ensures
            k == NAME_WIDTH || field[k as int] == 0,
            r@ == field.take(k as int),
            forall|j: int| 0 <= j < k ==> field[j] != 0,
        decreases NAME_WIDTH - k,
    {
        if b[i + k] == 0 {
            break;
        }
        r.push(b[i + k]);
        assert(field.take(k + 1) =~= field.take(k as int).push(field[k as int]));
        k = k + 1;
    }
    proof {
        lemma_until_zero_at(field, k as int);
        assert(field.subrange(0, k as int) =~= field.take(k as int));
    }
    r
}

/// Whether two byte strings are equal.
pub fn bytes_eq(a: &[u8], b: &[u8]) -> (r: bool)
    ensures
        r == (a@ == b@),
{
    if a.len() != b.len() {
        return false;
    }
    let mut i: usize = 0;
    while i < a.len()
        invariant
            a@.len() == b@.len(),
            i <= a@.len(),
            forall|j: int| 0 <= j < i ==> a@[j] == b@[j],
        decreases a@.len() - i,
    {
        if a[i] != b[i] {
            return false;
        }
        i = i + 1;
    }
    assert(a@ =~= b@);
    true
}

/// A copy of `b` as an owned vector.
pub fn copy_bytes(b: &[u8]) -> (r: Vec<u8>)
    ensures
        r@ == b@,
{
    let mut r: Vec<u8> = Vec::new();
    let mut i: usize = 0;
    while i < b.len()
        invariant
            i <= b@.len(),
            r@ == b@.take(i as int),
        decreases b@.len() - i,
    {
        r.push(b[i]);
        assert(b@.take(i + 1) =~= b@.take(i as int).push(b@[i as int]));
        i = i + 1;
    }
    assert(b@.take(b@.len() as int) =~= b@);
    r
}

} // verus!
