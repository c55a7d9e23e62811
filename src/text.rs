//! Byte-level text: field splitting, trimming and decimal numbers.
use vstd::prelude::*;

verus! {

/// Whether `b` is ASCII white space (tab, line feed, vertical tab, form feed, carriage return,
/// space). Records are split on these bytes only; their fields are ASCII.
pub open spec fn is_ws(b: u8) -> bool {
    b == 32 || (9 <= b && b <= 13)
}

pub open spec fn is_digit(b: u8) -> bool {
    48 <= b && b <= 57
}

/// Reading `s` from the left: the fields closed by a separator so far, and the open one.
pub open spec fn split_scan(s: Seq<u8>, sep: u8) -> (Seq<Seq<u8>>, Seq<u8>)
    decreases s.len(),
{
    if s.len() == 0 {
        (seq![], seq![])
    } else {
        let (done, cur) = split_scan(s.drop_last(), sep);
        if s.last() == sep {
            (done.push(cur), seq![])
        } else {
            (done, cur.push(s.last()))
        }
    }
}

/// The pieces of `s` between occurrences of `sep` (empty pieces kept; always at least one).
pub open spec fn split_on(s: Seq<u8>, sep: u8) -> Seq<Seq<u8>> {
    split_scan(s, sep).0.push(split_scan(s, sep).1)
}

/// Reading `s` from the left: the white-space separated fields closed so far, and the open one.
pub open spec fn ws_scan(s: Seq<u8>) -> (Seq<Seq<u8>>, Seq<u8>)
    decreases s.len(),
{
    if s.len() == 0 {
        (seq![], seq![])
    } else {
        let (done, cur) = ws_scan(s.drop_last());
        if is_ws(s.last()) {
            if cur.len() > 0 {
                (done.push(cur), seq![])
            } else {
                (done, cur)
            }
        } else {
            (done, cur.push(s.last()))
        }
    }
}

/// The maximal runs of non-white-space bytes of `s`, in order.
pub open spec fn ws_fields(s: Seq<u8>) -> Seq<Seq<u8>> {
    let (done, cur) = ws_scan(s);
    if cur.len() > 0 {
        done.push(cur)
    } else {
        done
    }
}

/// `s` without its trailing white space.
pub open spec fn trim_end(s: Seq<u8>) -> Seq<u8>
    decreases s.len(),
{
    if s.len() > 0 && is_ws(s.last()) {
        trim_end(s.drop_last())
    } else {
        s
    }
}

/// The bytes of `s` before its first `sep` (all of `s` if it holds none).
pub open spec fn before(s: Seq<u8>, sep: u8) -> Seq<u8> {
    split_on(s, sep)[0]
}

/// The number written in decimal by the digits `s`.
pub open spec fn decimal_value(s: Seq<u8>) -> nat
    decreases s.len(),
{
    if s.len() == 0 {
        0
    } else {
        decimal_value(s.drop_last()) * 10 + (s.last() - 48) as nat
    }
}

/// `s` without one leading `+`.
pub open spec fn without_plus(s: Seq<u8>) -> Seq<u8> {
    if s.len() > 0 && s[0] == 43 {
        s.drop_first()
    } else {
        s
    }
}

/// A base-ten unsigned integer: an optional `+`, then one or more digits, of a value that fits `u64`.
pub open spec fn parse_u64_spec(s: Seq<u8>) -> Option<u64> {
    let d = without_plus(s);
    if d.len() > 0 && (forall|i: int| 0 <= i < d.len() ==> is_digit(#[trigger] d[i]))
        && decimal_value(d) <= u64::MAX {
        Some(decimal_value(d) as u64)
    } else {
        None
    }
}

/// A field: non-empty, with no white space in it.
pub open spec fn is_field(s: Seq<u8>) -> bool {
    s.len() > 0 && forall|i: int| 0 <= i < s.len() ==> !is_ws(#[trigger] s[i])
}

proof fn lemma_scan_fields(s: Seq<u8>)
    ensures
        forall|k: int| 0 <= k < ws_scan(s).0.len() ==> is_field(#[trigger] ws_scan(s).0[k]),
        forall|i: int| 0 <= i < ws_scan(s).1.len() ==> !is_ws(#[trigger] ws_scan(s).1[i]),
    decreases s.len(),
{
    if s.len() > 0 {
        lemma_scan_fields(s.drop_last());
        let (d, c) = ws_scan(s.drop_last());
        let (d2, c2) = ws_scan(s);
        assert forall|k: int| 0 <= k < d2.len() implies is_field(#[trigger] d2[k]) by {
            if k < d.len() {
                assert(d2[k] == d[k]);
            }
        }
        assert forall|i: int| 0 <= i < c2.len() implies !is_ws(#[trigger] c2[i]) by {
            if i < c.len() {
                assert(c2[i] == c[i]);
            }
        }
    }
}

/// White-space fields are fields.
pub proof fn lemma_ws_fields_are_fields(s: Seq<u8>)
    ensures
        forall|k: int| 0 <= k < ws_fields(s).len() ==> is_field(#[trigger] ws_fields(s)[k]),
{
    lemma_scan_fields(s);
    let (d, c) = ws_scan(s);
    assert forall|k: int| 0 <= k < ws_fields(s).len() implies is_field(#[trigger] ws_fields(s)[k]) by {
        if k < d.len() {
            assert(ws_fields(s)[k] == d[k]);
        }
    }
}

pub proof fn lemma_scan_append_field(x: Seq<u8>, y: Seq<u8>)
    requires
        forall|i: int| 0 <= i < y.len() ==> !is_ws(#[trigger] y[i]),
    ensures
        ws_scan(x + y) == (ws_scan(x).0, ws_scan(x).1 + y),
    decreases y.len(),
{
    if y.len() == 0 {
        assert(x + y =~= x);
        assert(ws_scan(x).1 + y =~= ws_scan(x).1);
    } else {
        let y2 = y.drop_last();
        lemma_scan_append_field(x, y2);
        assert((x + y).drop_last() =~= x + y2);
        assert((x + y).last() == y.last());
        assert(ws_scan(x).1 + y =~= (ws_scan(x).1 + y2).push(y.last()));
    }
}

pub open spec fn views(v: Seq<Vec<u8>>) -> Seq<Seq<u8>> {
    v.map_values(|x: Vec<u8>| x@)
}

/// Splits `s` at every `sep`.
pub fn split_bytes(s: &[u8], sep: u8) -> (r: Vec<Vec<u8>>)
    ensures
        views(r@) == split_on(s@, sep),
{
    let mut done: Vec<Vec<u8>> = Vec::new();
    let mut cur: Vec<u8> = Vec::new();
    let mut i: usize = 0;
    while i < s.len()
        invariant
            i <= s@.len(),
            (views(done@), cur@) == split_scan(s@.take(i as int), sep),
        decreases s@.len() - i,
    {
        assert(s@.take(i + 1).drop_last() =~= s@.take(i as int));
        if s[i] == sep {
            let piece = cur;
            cur = Vec::new();
            let ghost before_done = done@;
            done.push(piece);
            assert(views(done@) =~= views(before_done).push(piece@));
        } else {
            cur.push(s[i]);
        }
        i = i + 1;
    }
    assert(s@.take(s@.len() as int) =~= s@);
    let ghost before_done = done@;
    done.push(cur);
    assert(views(done@) =~= views(before_done).push(cur@));
    done
}

/// The white-space separated fields of `s`.
pub fn ws_split(s: &[u8]) -> (r: Vec<Vec<u8>>)
    ensures
        views(r@) == ws_fields(s@),
{
    let mut done: Vec<Vec<u8>> = Vec::new();
    let mut cur: Vec<u8> = Vec::new();
    let mut i: usize = 0;
    while i < s.len()
        invariant
            i <= s@.len(),
            (views(done@), cur@) == ws_scan(s@.take(i as int)),
        decreases s@.len() - i,
    {
        assert(s@.take(i + 1).drop_last() =~= s@.take(i as int));
        let b = s[i];
        if b == 32 || (9 <= b && b <= 13) {
            if cur.len() > 0 {
                let piece = cur;
                cur = Vec::new();
                let ghost before_done = done@;
                done.push(piece);
                assert(views(done@) =~= views(before_done).push(piece@));
            }
        } else {
            cur.push(b);
        }
        i = i + 1;
    }
    assert(s@.take(s@.len() as int) =~= s@);
    if cur.len() > 0 {
        let ghost before_done = done@;
        done.push(cur);
        assert(views(done@) =~= views(before_done).push(cur@));
    }
    done
}

/// The length of `s` without its trailing white space.
pub fn trimmed_len(s: &[u8]) -> (r: usize)
    ensures
        r <= s@.len(),
        s@.take(r as int) == trim_end(s@),
{
    let mut n: usize = s.len();
    assert(s@.take(s@.len() as int) =~= s@);
    while n > 0 && (s[n - 1] == 32 || (9 <= s[n - 1] && s[n - 1] <= 13))
        invariant
            n <= s@.len(),
            trim_end(s@.take(n as int)) == trim_end(s@),
        decreases n,
    {
        assert(s@.take(n - 1) =~= s@.take(n as int).drop_last());
        n = n - 1;
    }
    n
}

/// Reads a base-ten unsigned integer as `str::parse::<u64>` accepts it.
pub fn parse_u64(s: &[u8]) -> (r: Option<u64>)
    ensures
        r == parse_u64_spec(s@),
{
    let skip: usize = if s.len() > 0 && s[0] == 43 {
        1
    } else {
        0
    };
    let ghost d = without_plus(s@);
    assert(d =~= s@.skip(skip as int));
    if s.len() <= skip {
        return None;
    }
    let mut v: u64 = 0;
    let mut i: usize = skip;
    while i < s.len()
        invariant
            skip <= i <= s@.len(),
            d == s@.skip(skip as int),
            d == without_plus(s@),
            forall|j: int| 0 <= j < i - skip ==> is_digit(#[trigger] d[j]),
            v as nat == decimal_value(d.take(i - skip)),
        decreases s@.len() - i,
    {
        let b = s[i];
        assert(d[i - skip] == b);
        if b < 48 || b > 57 {
            assert(!is_digit(d[i - skip]));
            assert(!(forall|j: int| 0 <= j < d.len() ==> is_digit(#[trigger] d[j])));
            return None;
        }
        let digit = (b - 48) as u64;
        assert(d.take(i + 1 - skip).drop_last() =~= d.take(i - skip));
        assert(d.take(i + 1 - skip).last() == b);
        if v > (u64::MAX - digit) / 10 {
            proof {
                assert(v * 10 + digit > u64::MAX) by (nonlinear_arith)
                    requires
                        v > (u64::MAX - digit) / 10,
                        digit <= 9,
                ;
                if forall|j: int| 0 <= j < d.len() ==> is_digit(#[trigger] d[j]) {
                    lemma_decimal_monotone(d, (i + 1 - skip) as int);
                    assert(decimal_value(d) > u64::MAX);
                }
            }
            return None;
        }
        v = v * 10 + digit;
        i = i + 1;
    }
    assert(d.take(d.len() as int) =~= d);
    Some(v)
}

/// The value of a digit string is at least that of any of its prefixes.
proof fn lemma_decimal_monotone(d: Seq<u8>, k: int)
    requires
        0 <= k <= d.len(),
        forall|j: int| 0 <= j < d.len() ==> is_digit(#[trigger] d[j]),
    ensures
        decimal_value(d.take(k)) <= decimal_value(d),
    decreases d.len() - k,
{
    if k < d.len() {
        lemma_decimal_monotone(d, k + 1);
        assert(d.take(k + 1).drop_last() =~= d.take(k));
    } else {
        assert(d.take(k) =~= d);
    }
}

} // verus!
