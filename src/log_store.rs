//! Decisions of the persistent log store: which segment an entry belongs
//! to, how segment files are named and ordered, and which segments a
//! snapshot makes obsolete.
use vstd::prelude::*;
use vstd::string::StrSliceExecFns;
use crate::codec::{enc_u64, get_u64, holds_at, lemma_holds_part, lemma_holds_split, push_char, put_u64};
use crate::segment::Segment;

verus! {

/// Entries per segment.
pub const STRIDE: u64 = 10000;

/// Start index of the segment that holds entry `index`.
pub open spec fn segment_start_of(index: u64) -> u64 {
    (index / STRIDE * STRIDE) as u64
}

/// Start index of the segment that holds entry `index`.
pub fn segment_start(index: u64) -> (r: u64)
    ensures
        r == segment_start_of(index),
        r <= index,
        index - r < STRIDE,
{
    let r = index / STRIDE * STRIDE;
    proof {
        vstd::arithmetic::div_mod::lemma_fundamental_div_mod(index as int, STRIDE as int);
    }
    r
}

/// The entries of one segment, in log order.
#[derive(Debug)]
pub struct SegmentBatch {
    pub start: u64,
    pub entries: Vec<Vec<u8>>,
}

/// The payloads of the batches, one batch after another.
pub open spec fn batch_payloads(bs: Seq<SegmentBatch>) -> Seq<Seq<u8>>
    decreases bs.len(),
{
    if bs.len() == 0 {
        Seq::empty()
    } else {
        batch_payloads(bs.drop_last()) + bs.last().entries@.map_values(|e: Vec<u8>| e@)
    }
}

/// The segment start of every payload, one batch after another.
pub open spec fn batch_starts(bs: Seq<SegmentBatch>) -> Seq<u64>
    decreases bs.len(),
{
    if bs.len() == 0 {
        Seq::empty()
    } else {
        batch_starts(bs.drop_last()) + Seq::new(bs.last().entries@.len(), |i: int| bs.last().start)
    }
}

/// Splits entries `(index, payload)`, in log order, into runs that belong
/// to one segment each.
pub fn group_by_segment(entries: Vec<(u64, Vec<u8>)>) -> (r: Vec<SegmentBatch>)
    ensures
        batch_payloads(r@) == entries@.map_values(|e: (u64, Vec<u8>)| e.1@),
        batch_starts(r@) == entries@.map_values(|e: (u64, Vec<u8>)| segment_start_of(e.0)),
        forall|g: int| 0 <= g < r@.len() ==> (#[trigger] r@[g]).entries@.len() > 0,
        forall|g: int| 0 <= g < r@.len() - 1 ==> (#[trigger] r@[g]).start != r@[g + 1].start,
{
    let ghost all = entries@;
    let mut entries = entries;
    let mut r: Vec<SegmentBatch> = Vec::new();
    let n = entries.len();
    let mut i: usize = 0;
    while i < n
        invariant
            0 <= i <= n,
            n == all.len(),
            entries@ == all.skip(i as int),
            batch_payloads(r@) == all.subrange(0, i as int).map_values(|e: (u64, Vec<u8>)| e.1@),
            batch_starts(r@) == all.subrange(0, i as int).map_values(|e: (u64, Vec<u8>)| segment_start_of(e.0)),
            forall|g: int| 0 <= g < r@.len() ==> (#[trigger] r@[g]).entries@.len() > 0,
            forall|g: int| 0 <= g < r@.len() - 1 ==> (#[trigger] r@[g]).start != r@[g + 1].start,
            i > 0 <==> r@.len() > 0,
        decreases n - i,
    {
        let (index, payload) = entries.remove(0);
        proof {
            assert(entries@ =~= all.skip(i + 1));
            assert(all[i as int] == (index, payload));
        }
        let ghost pv = payload@;
        let start = segment_start(index);
        let ghost r0 = r@;
        let k = r.len();
        if k > 0 && r[k - 1].start == start {
            let mut last = r.pop().unwrap();
            let ghost lv = last;
            last.entries.push(payload);
            r.push(last);
            proof {
                assert(r@.drop_last() =~= r0.drop_last());
                assert(last.entries@.map_values(|e: Vec<u8>| e@) =~= lv.entries@.map_values(|e: Vec<u8>| e@).push(pv));
                assert(r0.drop_last().push(lv) =~= r0);
                vstd::seq_lib::lemma_concat_associative(batch_payloads(r0.drop_last()),
                    lv.entries@.map_values(|e: Vec<u8>| e@), seq![pv]);
                assert(Seq::new(last.entries@.len(), |j: int| last.start) =~= Seq::new(lv.entries@.len(), |j: int| lv.start).push(start));
                vstd::seq_lib::lemma_concat_associative(batch_starts(r0.drop_last()),
                    Seq::new(lv.entries@.len(), |j: int| lv.start), seq![start]);
                assert forall|g: int| 0 <= g < r@.len() - 1 implies (#[trigger] r@[g]).start != r@[g + 1].start by {
                    if g + 1 < r@.len() - 1 {
                        assert(r@[g + 1] == r0[g + 1]);
                    } else {
                        assert(r0[g + 1].start == lv.start);
                    }
                }
            }
        } else {
            let mut es: Vec<Vec<u8>> = Vec::new();
            es.push(payload);
            r.push(SegmentBatch { start, entries: es });
            proof {
                assert(r@.drop_last() =~= r0);
                assert(es@.map_values(|e: Vec<u8>| e@) =~= seq![pv]);
                assert(Seq::new(es@.len(), |j: int| start) =~= seq![start]);
            }
        }
        proof {
            let p = all.subrange(0, i + 1);
            assert(p.map_values(|e: (u64, Vec<u8>)| e.1@) =~= all.subrange(0, i as int).map_values(|e: (u64, Vec<u8>)| e.1@).push(pv));
            assert(p.map_values(|e: (u64, Vec<u8>)| segment_start_of(e.0)) =~= all.subrange(0, i as int).map_values(|e: (u64, Vec<u8>)| segment_start_of(e.0)).push(start));
        }
        i += 1;
    }
    proof {
        assert(all.subrange(0, n as int) =~= all);
    }
    r
}

/// The character of a decimal digit.
pub open spec fn digit_char(d: nat) -> char {
    if d == 0 { '0' } else if d == 1 { '1' } else if d == 2 { '2' } else if d == 3 { '3' } else if d == 4 { '4' }
    else if d == 5 { '5' } else if d == 6 { '6' } else if d == 7 { '7' } else if d == 8 { '8' } else { '9' }
}

/// Whether `c` is a decimal digit.
pub open spec fn is_digit(c: char) -> bool {
    '0' <= c && c <= '9'
}

/// The value of a decimal digit.
pub open spec fn digit_value(c: char) -> nat {
    (c as u32 - '0' as u32) as nat
}

/// `n` in decimal, without leading zeros.
pub open spec fn decimal(n: nat) -> Seq<char>
    decreases n,
{
    if n < 10 {
        seq![digit_char(n)]
    } else {
        decimal(n / 10).push(digit_char(n % 10))
    }
}

/// The value of a string of decimal digits.
pub open spec fn decimal_value(d: Seq<char>) -> nat
    decreases d.len(),
{
    if d.len() == 0 {
        0
    } else {
        decimal_value(d.drop_last()) * 10 + digit_value(d.last())
    }
}

/// Name of the file of the segment starting at `start`.
pub open spec fn segment_name(start: u64) -> Seq<char> {
    "segment_"@ + decimal(start as nat) + ".log"@
}

fn digit_of(d: u64) -> (c: char)
    requires
        d < 10,
    ensures
        c == digit_char(d as nat),
        is_digit(c),
        digit_value(c) == d,
{
    if d == 0 { '0' } else if d == 1 { '1' } else if d == 2 { '2' } else if d == 3 { '3' } else if d == 4 { '4' }
    else if d == 5 { '5' } else if d == 6 { '6' } else if d == 7 { '7' } else if d == 8 { '8' } else { '9' }
}

/// `n` in decimal.
pub fn decimal_string(n: u64) -> (r: String)
    ensures
        r@ == decimal(n as nat),
    decreases n,
{
    if n < 10 {
        let mut s = String::new();
        push_char(&mut s, digit_of(n));
        proof {
            assert(s@ =~= decimal(n as nat));
        }
        s
    } else {
        let mut s = decimal_string(n / 10);
        push_char(&mut s, digit_of(n % 10));
        s
    }
}

/// Name of the file of the segment starting at `start`.
pub fn segment_file_name(start: u64) -> (r: String)
    ensures
        r@ == segment_name(start),
{
    let mut s = String::new();
    let prefix = "segment_";
    let suffix = ".log";
    proof {
        reveal_strlit("segment_");
        reveal_strlit(".log");
    }
    let mut i: usize = 0;
    let np = prefix.unicode_len();
    while i < np
        invariant
            np == prefix@.len(),
            0 <= i <= np,
            s@ == prefix@.subrange(0, i as int),
        decreases np - i,
    {
        push_char(&mut s, prefix.get_char(i));
        proof {
            assert(s@ =~= prefix@.subrange(0, i + 1));
        }
        i += 1;
    }
    let d = decimal_string(start);
    let nd = d.as_str().unicode_len();
    let ghost s0 = s@;
    let mut j: usize = 0;
    while j < nd
        invariant
            nd == d@.len(),
            0 <= j <= nd,
            s@ == s0 + d@.subrange(0, j as int),
        decreases nd - j,
    {
        push_char(&mut s, d.as_str().get_char(j));
        proof {
            assert(s@ =~= s0 + d@.subrange(0, j + 1));
        }
        j += 1;
    }
    let ghost s1 = s@;
    let ns = suffix.unicode_len();
    let mut k: usize = 0;
    while k < ns
        invariant
            ns == suffix@.len(),
            0 <= k <= ns,
            s@ == s1 + suffix@.subrange(0, k as int),
        decreases ns - k,
    {
        push_char(&mut s, suffix.get_char(k));
        proof {
            assert(s@ =~= s1 + suffix@.subrange(0, k + 1));
        }
        k += 1;
    }
    proof {
        assert(prefix@.subrange(0, np as int) =~= prefix@);
        assert(d@.subrange(0, nd as int) =~= d@);
        assert(suffix@.subrange(0, ns as int) =~= suffix@);
    }
    s
}

/// The start index that a segment file name gives: `segment_`, decimal
/// digits whose value fits in a `u64`, `.log`.
pub open spec fn parsed_segment_name(name: Seq<char>) -> Option<u64> {
    let d = name.subrange(8, name.len() - 4);
    if name.len() >= 13 && name.subrange(0, 8) == "segment_"@ && name.subrange(name.len() - 4, name.len() as int) == ".log"@
        && (forall|i: int| 0 <= i < d.len() ==> is_digit(#[trigger] d[i])) && decimal_value(d) <= u64::MAX {
        Some(decimal_value(d) as u64)
    } else {
        None
    }
}

proof fn lemma_decimal_value_grows(d: Seq<char>, j: int, k: int)
    requires
        0 <= j <= k <= d.len(),
    ensures
        decimal_value(d.subrange(0, j)) <= decimal_value(d.subrange(0, k)),
    decreases k - j,
{
    if j < k {
        lemma_decimal_value_grows(d, j, k - 1);
        assert(d.subrange(0, k).drop_last() =~= d.subrange(0, k - 1));
    }
}

/// Whether the text `lit` stands at position `from` of `s`.
fn matches_at(s: &str, from: usize, lit: &str) -> (r: bool)
    requires
        from + lit@.len() <= s@.len() <= usize::MAX,
    ensures
        r == (s@.subrange(from as int, from + lit@.len()) == lit@),
{
    let n = lit.unicode_len();
    let mut i: usize = 0;
    while i < n
        invariant
            n == lit@.len(),
            from + n <= s@.len() <= usize::MAX,
            0 <= i <= n,
            forall|k: int| 0 <= k < i ==> s@[from + k] == lit@[k],
        decreases n - i,
    {
        if s.get_char(from + i) != lit.get_char(i) {
            proof {
                assert(s@.subrange(from as int, from + n)[i as int] != lit@[i as int]);
            }
            return false;
        }
        i += 1;
    }
    proof {
        assert(s@.subrange(from as int, from + n) =~= lit@);
    }
    true
}

/// Reads the start index out of a segment file name (see
/// `parsed_segment_name`).
pub fn parse_segment_file_name(name: &str) -> (r: Option<u64>)
    ensures
        r == parsed_segment_name(name@),
{
    let prefix = "segment_";
    let suffix = ".log";
    proof {
        reveal_strlit("segment_");
        reveal_strlit(".log");
    }
    let len = name.unicode_len();
    if len < 13 {
        return None;
    }
    if !matches_at(name, 0, prefix) || !matches_at(name, len - 4, suffix) {
        return None;
    }
    let ghost d = name@.subrange(8, len - 4);
    let mut v: u64 = 0;
    let mut j: usize = 8;
    while j < len - 4
        invariant
            len == name@.len(),
            len >= 13,
            d == name@.subrange(8, len - 4),
            8 <= j <= len - 4,
            forall|i: int| 0 <= i < j - 8 ==> is_digit(#[trigger] d[i]),
            v == decimal_value(d.subrange(0, j - 8)),
        decreases len - 4 - j,
    {
        let c = name.get_char(j);
        proof {
            assert(c == d[j - 8]);
        }
        if !('0' <= c && c <= '9') {
            return None;
        }
        let dv = (c as u32 - '0' as u32) as u64;
        proof {
            assert(d.subrange(0, j - 7).drop_last() =~= d.subrange(0, j - 8));
            assert(d.subrange(0, j - 7).last() == c);
        }
        if v > (u64::MAX - dv) / 10 {
            proof {
                lemma_decimal_value_grows(d, j - 7, d.len() as int);
                assert(d.subrange(0, d.len() as int) =~= d);
                assert(v * 10 + dv > u64::MAX) by (nonlinear_arith)
                    requires v > (u64::MAX - dv) / 10, dv <= 9;
            }
            return None;
        }
        proof {
            assert(v * 10 + dv <= u64::MAX) by (nonlinear_arith)
                requires v <= (u64::MAX - dv) / 10, dv <= 9;
        }
        v = v * 10 + dv;
        j += 1;
    }
    proof {
        assert(d.subrange(0, d.len() as int) =~= d);
    }
    Some(v)
}

/// Sorts segment start indices in increasing order.
pub fn sort_starts(v: Vec<u64>) -> (r: Vec<u64>)
    ensures
        r@.len() == v@.len(),
        forall|i: int, j: int| 0 <= i < j < r@.len() ==> r@[i] <= r@[j],
        forall|x: u64| v@.contains(x) <==> r@.contains(x),
        r@.to_multiset() == v@.to_multiset(),
{
    let mut r: Vec<u64> = Vec::new();
    let n = v.len();
    let mut i: usize = 0;
    proof {
        assert(v@.subrange(0, 0) =~= r@);
    }
    while i < n
        invariant
            n == v@.len(),
            0 <= i <= n,
            r@.len() == i,
            forall|a: int, b: int| 0 <= a < b < r@.len() ==> r@[a] <= r@[b],
            forall|x: u64| v@.subrange(0, i as int).contains(x) <==> r@.contains(x),
            r@.to_multiset() == v@.subrange(0, i as int).to_multiset(),
        decreases n - i,
    {
        let x = v[i];
        let mut k: usize = 0;
        while k < r.len()
            invariant
                0 <= k <= r@.len(),
                forall|a: int| 0 <= a < k ==> r@[a] <= x,
                i < n,
                n == v@.len(),
                x == v@[i as int],
            ensures
                i < n,
                n == v@.len(),
                x == v@[i as int],
                0 <= k <= r@.len(),
                forall|a: int| 0 <= a < k ==> r@[a] <= x,
                k == r@.len() || r@[k as int] > x,
            decreases r@.len() - k,
        {
            if r[k] > x {
                break;
            }
            k += 1;
        }
        let ghost r0 = r@;
        r.insert(k, x);
        proof {
            assert forall|a: int, b: int| 0 <= a < b < r@.len() implies r@[a] <= r@[b] by {
                if b < k {
                    assert(r@[a] == r0[a] && r@[b] == r0[b]);
                } else if b == k {
                    assert(r@[a] == r0[a]);
                } else if a == k {
                    assert(r@[b] == r0[b - 1]);
                    assert(r0[k as int] <= r0[b - 1]);
                } else if a < k {
                    assert(r@[a] == r0[a] && r@[b] == r0[b - 1]);
                } else {
                    assert(r@[a] == r0[a - 1] && r@[b] == r0[b - 1]);
                }
            }
            assert(v@.subrange(0, i + 1) =~= v@.subrange(0, i as int).push(x));
            vstd::seq_lib::to_multiset_insert(r0, k as int, x);
            vstd::seq_lib::to_multiset_build(v@.subrange(0, i as int), x);
            assert forall|y: u64| v@.subrange(0, i + 1).contains(y) <==> r@.contains(y) by {
                let w = v@.subrange(0, i + 1);
                assert(w[i as int] == x);
                assert(r@[k as int] == x);
                if w.contains(y) {
                    let q = choose|q: int| 0 <= q < w.len() && w[q] == y;
                    if q < i {
                        assert(v@.subrange(0, i as int)[q] == y);
                        assert(v@.subrange(0, i as int).contains(y));
                        assert(r0.contains(y));
                        let q2 = choose|q2: int| 0 <= q2 < r0.len() && r0[q2] == y;
                        if q2 < k {
                            assert(r@[q2] == y);
                        } else {
                            assert(r@[q2 + 1] == y);
                        }
                    }
                }
                if r@.contains(y) {
                    let q = choose|q: int| 0 <= q < r@.len() && r@[q] == y;
                    if q != k {
                        let q2 = if q < k { q } else { q - 1 };
                        assert(r0[q2] == y);
                        assert(r0.contains(y));
                        assert(v@.subrange(0, i as int).contains(y));
                        let q3 = choose|q3: int| 0 <= q3 < i && v@.subrange(0, i as int)[q3] == y;
                        assert(w[q3] == y);
                    }
                }
                assert(r@[k as int] == x);
            }
        }
        i += 1;
    }
    proof {
        assert(v@.subrange(0, n as int) =~= v@);
        assert(v@.subrange(0, 0) =~= Seq::<u64>::empty());
    }
    r
}

/// Whether a snapshot at `applied` makes the segment obsolete: it holds
/// entries, and its last one (`end_index - 1`, as `end_index` is one past
/// it) is at or before `applied`. An empty segment holds nothing to
/// reclaim and stays.
pub open spec fn obsolete(s: Segment, applied: u64) -> bool {
    s.start_index < s.end_index && s.end_index - 1 <= applied
}

/// Start indices of the segments a snapshot at `applied` makes obsolete
/// (see `obsolete`), in the given order.
pub fn segments_to_remove(segments: &Vec<Segment>, applied: u64) -> (r: Vec<u64>)
    ensures
        r@ == segments@.filter(|s: Segment| obsolete(s, applied)).map_values(|s: Segment| s.start_index),
{
    let mut r: Vec<u64> = Vec::new();
    let n = segments.len();
    let mut k: usize = 0;
    while k < n
        invariant
            n == segments@.len(),
            0 <= k <= n,
            r@ == segments@.subrange(0, k as int).filter(|s: Segment| obsolete(s, applied)).map_values(|s: Segment| s.start_index),
        decreases n - k,
    {
        proof {
            let p = segments@.subrange(0, k + 1);
            assert(p.drop_last() =~= segments@.subrange(0, k as int));
            reveal(Seq::filter);
        }
        if segments[k].start_index < segments[k].end_index && segments[k].end_index - 1 <= applied {
            let ghost r0 = r@;
            r.push(segments[k].start_index);
            proof {
                let f = segments@.subrange(0, k as int).filter(|s: Segment| obsolete(s, applied));
                assert(segments@.subrange(0, k + 1).filter(|s: Segment| obsolete(s, applied)) == f.push(segments@[k as int]));
                assert(f.push(segments@[k as int]).map_values(|s: Segment| s.start_index) =~= r0.push(segments@[k as int].start_index));
            }
        }
        k += 1;
    }
    proof {
        assert(segments@.subrange(0, n as int) =~= segments@);
    }
    r
}

/// The entries of a segment that start-up must add to the in-memory log:
/// those past `last_index`, the last index the snapshot and the log already
/// hold, as the range `[first, end)` of indices.
pub fn entries_to_replay(segment: &Segment, last_index: u64) -> (r: (u64, u64))
    ensures
        r.1 == segment.end_index,
        r.0 == if last_index < segment.start_index { segment.start_index as int } else {
            if last_index as int + 1 < segment.end_index as int { last_index as int + 1 } else { segment.end_index as int }
        },
{
    let first = if last_index < segment.start_index {
        segment.start_index
    } else if last_index < segment.end_index && last_index + 1 < segment.end_index {
        last_index + 1
    } else {
        segment.end_index
    };
    (first, segment.end_index)
}

/// Integers one after another.
pub open spec fn enc_u64s(vs: Seq<u64>) -> Seq<u8>
    decreases vs.len(),
{
    if vs.len() == 0 {
        Seq::empty()
    } else {
        enc_u64s(vs.drop_last()) + enc_u64(vs.last())
    }
}

/// The snapshot file: the Raft metadata (last included index and term,
/// the voters of the configuration, their count first), then the state
/// machine's bytes to the end of the file.
pub open spec fn enc_snapshot_file(index: u64, term: u64, voters: Seq<u64>, data: Seq<u8>) -> Seq<u8> {
    enc_u64(index) + enc_u64(term) + enc_u64(voters.len() as u64) + enc_u64s(voters) + data
}

proof fn lemma_enc_u64s_chunk(v: Seq<u64>, k: int)
    requires
        0 <= k < v.len(),
    ensures
        enc_u64s(v).len() == 8 * v.len(),
        enc_u64s(v).subrange(8 * k, 8 * k + 8) == enc_u64(v[k]),
    decreases v.len(),
{
    lemma_enc_u64s_len(v.drop_last());
    if k == v.len() - 1 {
        assert(enc_u64s(v).subrange(8 * k, 8 * k + 8) =~= enc_u64(v[k]));
    } else {
        lemma_enc_u64s_chunk(v.drop_last(), k);
        assert(enc_u64s(v).subrange(8 * k, 8 * k + 8) =~= enc_u64s(v.drop_last()).subrange(8 * k, 8 * k + 8));
    }
}

proof fn lemma_enc_u64s_len(v: Seq<u64>)
    ensures
        enc_u64s(v).len() == 8 * v.len(),
    decreases v.len(),
{
    if v.len() > 0 {
        lemma_enc_u64s_len(v.drop_last());
    }
}

/// Where the parts of a snapshot file stand in its bytes.
proof fn lemma_snapshot_parts(b: Seq<u8>, i: u64, t: u64, v: Seq<u64>, d: Seq<u8>)
    requires
        enc_snapshot_file(i, t, v, d) == b,
    ensures
        holds_at(b, 0, enc_u64(i)),
        holds_at(b, 8, enc_u64(t)),
        holds_at(b, 16, enc_u64(v.len() as u64)),
        holds_at(b, 24, enc_u64s(v)),
        enc_u64s(v).len() == 8 * v.len(),
        24 + 8 * v.len() <= b.len(),
        b.subrange((24 + 8 * v.len()) as int, b.len() as int) == d,
{
    lemma_enc_u64s_len(v);
    let e3 = enc_u64(i) + enc_u64(t) + enc_u64(v.len() as u64);
    assert(b.subrange(0, b.len() as int) =~= b);
    lemma_holds_split(b, 0, e3 + enc_u64s(v), d);
    lemma_holds_split(b, 0, e3, enc_u64s(v));
    lemma_holds_split(b, 0, enc_u64(i) + enc_u64(t), enc_u64(v.len() as u64));
    lemma_holds_split(b, 0, enc_u64(i), enc_u64(t));
}

/// A snapshot with its Raft metadata.
#[derive(Debug)]
pub struct SnapshotFile {
    pub index: u64,
    pub term: u64,
    pub voters: Vec<u64>,
    pub data: Vec<u8>,
}

impl SnapshotFile {
    /// The bytes of the snapshot file.
    pub fn encode(&self) -> (r: Vec<u8>)
        ensures
            r@ == enc_snapshot_file(self.index, self.term, self.voters@, self.data@),
    {
        let mut out: Vec<u8> = Vec::new();
        put_u64(&mut out, self.index);
        put_u64(&mut out, self.term);
        put_u64(&mut out, self.voters.len() as u64);
        let ghost start = out@;
        let n = self.voters.len();
        let mut i: usize = 0;
        while i < n
            invariant
                n == self.voters@.len(),
                0 <= i <= n,
                out@ == start + enc_u64s(self.voters@.subrange(0, i as int)),
            decreases n - i,
        {
            put_u64(&mut out, self.voters[i]);
            proof {
                assert(self.voters@.subrange(0, i + 1).drop_last() =~= self.voters@.subrange(0, i as int));
                vstd::seq_lib::lemma_concat_associative(start, enc_u64s(self.voters@.subrange(0, i as int)),
                    enc_u64(self.voters@[i as int]));
            }
            i += 1;
        }
        let ghost mid = out@;
        let m = self.data.len();
        let mut j: usize = 0;
        while j < m
            invariant
                m == self.data@.len(),
                0 <= j <= m,
                out@ == mid + self.data@.subrange(0, j as int),
            decreases m - j,
        {
            out.push(self.data[j]);
            proof {
                assert(out@ =~= mid + self.data@.subrange(0, j + 1));
            }
            j += 1;
        }
        proof {
            assert(self.voters@.subrange(0, n as int) =~= self.voters@);
            assert(self.data@.subrange(0, m as int) =~= self.data@);
            assert(out@ =~= enc_snapshot_file(self.index, self.term, self.voters@, self.data@));
        }
        out
    }

    /// The snapshot that a file's bytes hold, if they are one; the bytes
    /// of a snapshot file always read back as that snapshot.
    pub fn decode(b: &[u8]) -> (r: Option<SnapshotFile>)
        ensures
            r matches Some(s) ==> enc_snapshot_file(s.index, s.term, s.voters@, s.data@) == b@,
            forall|i: u64, t: u64, v: Seq<u64>, d: Seq<u8>| #[trigger] enc_snapshot_file(i, t, v, d) == b@
                ==> (r matches Some(s) && s.index == i && s.term == t && s.voters@ == v && s.data@ == d),
    {
        let blen = b.len();
        proof {
            assert forall|i: u64, t: u64, v: Seq<u64>, d: Seq<u8>| #[trigger] enc_snapshot_file(i, t, v, d) == b@
                implies holds_at(b@, 0, enc_u64(i)) && holds_at(b@, 8, enc_u64(t))
                    && holds_at(b@, 16, enc_u64(v.len() as u64)) && holds_at(b@, 24, enc_u64s(v))
                    && enc_u64s(v).len() == 8 * v.len() && 24 + 8 * v.len() <= b@.len()
                    && b@.subrange((24 + 8 * v.len()) as int, b@.len() as int) == d && v.len() == v.len() as u64 by {
                lemma_snapshot_parts(b@, i, t, v, d);
            }
        }
        let (index, p0) = match get_u64(b, 0) {
            Some(x) => x,
            None => {
                return None;
            },
        };
        let (term, p1) = match get_u64(b, p0) {
            Some(x) => x,
            None => {
                return None;
            },
        };
        let (n, p2) = match get_u64(b, p1) {
            Some(x) => x,
            None => {
                return None;
            },
        };
        let mut voters: Vec<u64> = Vec::new();
        let mut p = p2;
        let mut i: u64 = 0;
        while i < n
            invariant
                p2 == 24,
                24 <= p <= b@.len(),
                b@.subrange(0, 24) == enc_u64(index) + enc_u64(term) + enc_u64(n),
                voters@.len() == i,
                0 <= i <= n,
                b@.subrange(24, p as int) == enc_u64s(voters@),
                forall|i: u64, t: u64, v: Seq<u64>, d: Seq<u8>| #[trigger] enc_snapshot_file(i, t, v, d) == b@
                    ==> holds_at(b@, 24, enc_u64s(v)) && enc_u64s(v).len() == 8 * v.len(),
                forall|ix: u64, t: u64, v: Seq<u64>, d: Seq<u8>| #[trigger] enc_snapshot_file(ix, t, v, d) == b@
                    ==> n == v.len() && voters@ == v.subrange(0, i as int) && p == 24 + 8 * i,
            decreases n - i,
        {
            proof {
                assert forall|ix: u64, t: u64, v: Seq<u64>, d: Seq<u8>| #[trigger] enc_snapshot_file(ix, t, v, d) == b@
                    implies holds_at(b@, p as int, enc_u64(v[i as int])) by {
                    lemma_enc_u64s_chunk(v, i as int);
                    lemma_holds_part(b@, 24, enc_u64s(v), 8 * i, 8 * i + 8);
                }
            }
            let (v, q) = match get_u64(b, p) {
                Some(x) => x,
                None => {
                    return None;
                },
            };
            let ghost v0 = voters@;
            voters.push(v);
            proof {
                assert(voters@.drop_last() =~= v0);
                assert(b@.subrange(24, q as int) =~= b@.subrange(24, p as int) + b@.subrange(p as int, q as int));
                assert forall|ix: u64, t: u64, w: Seq<u64>, d: Seq<u8>| #[trigger] enc_snapshot_file(ix, t, w, d) == b@
                    implies voters@ == w.subrange(0, i + 1) by {
                    assert(holds_at(b@, p as int, enc_u64(w[i as int])));
                    assert(voters@ =~= w.subrange(0, i + 1));
                }
            }
            p = q;
            i += 1;
        }
        proof {
            assert forall|ix: u64, t: u64, w: Seq<u64>, d: Seq<u8>| #[trigger] enc_snapshot_file(ix, t, w, d) == b@
                implies voters@ == w by {
                assert(w.subrange(0, w.len() as int) =~= w);
            }
        }
        let mut data: Vec<u8> = Vec::new();
        let len = b.len();
        let mut j: usize = p;
        while j < len
            invariant
                p <= j <= len,
                len == b@.len(),
                data@ == b@.subrange(p as int, j as int),
            decreases len - j,
        {
            data.push(b[j]);
            proof {
                assert(data@ =~= b@.subrange(p as int, j + 1));
            }
            j += 1;
        }
        proof {
            assert(b@.subrange(0, 24) =~= b@.subrange(0, 8) + b@.subrange(8, 16) + b@.subrange(16, 24));
            assert(b@ =~= b@.subrange(0, 24) + b@.subrange(24, p as int) + b@.subrange(p as int, len as int));
        }
        Some(SnapshotFile { index, term, voters, data })
    }
}

} // verus!
