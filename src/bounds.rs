//! Where the regions of a scan can start and end.
//!
//! After an ambiguous symbol the scan keeps the triplets of the previous
//! run in its window, so regions found after one may reach past the next
//! ambiguous symbol, or past the end of the sequence (the scan caps their
//! ends). On a sequence made of the four recognised letters alone this never
//! happens: every region found lies within the sequence. And one ambiguous
//! byte between two such runs keeps the regions of the two runs apart. The
//! lemmas here prove both.
use vstd::prelude::*;

use crate::sdust::{
    advance, clamp_ends, code_at, drain, drop_before, dust_intervals, encode, flush, insertion_point, lemma_drop_before,
    perfect_scan, scan_prefix, shift, trim, DustState, PerfectInterval, AMBIGUOUS,
    MAX_SEQUENCE_LENGTH, POSITION_LIMIT,
};

verus! {

/// Every byte of `seq` is one of the four recognised letters.
pub open spec fn unambiguous(seq: Seq<u8>) -> bool {
    forall|k: int| 0 <= k < seq.len() ==> encode(#[trigger] seq[k]) < AMBIGUOUS
}

/// Every candidate ends at or before `b`.
pub open spec fn finishes_le(p: Seq<PerfectInterval>, b: int) -> bool {
    forall|k: int| 0 <= k < p.len() ==> (#[trigger] p[k]).finish <= b
}

/// Every result ends at or before `b`.
pub open spec fn ends_le(r: Seq<(usize, usize)>, b: int) -> bool {
    forall|k: int| 0 <= k < r.len() ==> (#[trigger] r[k]).1 <= b
}

proof fn lemma_insertion_point_range(p: Seq<PerfectInterval>, j: int, cut: int, ms: int, ml: int)
    requires
        0 <= j <= p.len(),
    ensures
        j <= insertion_point(p, j, cut, ms, ml).0 <= p.len(),
    decreases p.len() - j,
{
    if j < p.len() && (p[j].start as int) >= cut {
        let e = p[j];
        if ms == 0 || e.score * ml > ms * e.l {
            lemma_insertion_point_range(p, j + 1, cut, e.score as int, e.l as int);
        } else {
            lemma_insertion_point_range(p, j + 1, cut, ms, ml);
        }
    }
}

proof fn lemma_perfect_scan_finishes(
    w: Seq<usize>,
    p: Seq<PerfectInterval>,
    c: Seq<u64>,
    r: int,
    ms: int,
    ml: int,
    i: int,
    ws: int,
    thr: int,
    b: int,
)
    requires
        finishes_le(p, b),
        0 <= ws,
        w.len() + 2 + ws <= b <= POSITION_LIMIT,
    ensures
        finishes_le(perfect_scan(w, p, c, r, ms, ml, i, ws, thr), b),
    decreases i + 1,
{
    if i >= 0 {
        let t = w[i] as int;
        let r2 = r + c[t];
        let c2 = c.update(t, (c[t] + 1) as u64);
        let nl = w.len() - i - 1;
        if r2 * 10 > thr * nl {
            let found = insertion_point(p, 0, i + ws, ms, ml);
            if found.1 == 0 || r2 * found.2 >= found.1 * nl {
                let np = PerfectInterval {
                    start: (i + ws) as usize,
                    finish: (w.len() + 2 + ws) as usize,
                    score: r2 as u64,
                    l: nl as usize,
                };
                lemma_insertion_point_range(p, 0, i + ws, ms, ml);
                let q = p.insert(found.0, np);
                assert forall|k: int| 0 <= k < q.len() implies (#[trigger] q[k]).finish <= b by {
                    if k < found.0 {
                        assert(q[k] == p[k]);
                    } else if k > found.0 {
                        assert(q[k] == p[k - 1]);
                    }
                }
                lemma_perfect_scan_finishes(w, q, c2, r2, r2, nl, i - 1, ws, thr, b);
            } else {
                lemma_perfect_scan_finishes(w, p, c2, r2, found.1, found.2, i - 1, ws, thr, b);
            }
        } else {
            lemma_perfect_scan_finishes(w, p, c2, r2, ms, ml, i - 1, ws, thr, b);
        }
    }
}

proof fn lemma_flush_bound(m: DustState, ws: int, b: int)
    requires
        finishes_le(m.perfect, b),
        ends_le(m.results, b),
    ensures
        finishes_le(flush(m, ws).perfect, b),
        ends_le(flush(m, ws).results, b),
        flush(m, ws).window == m.window,
{
    lemma_drop_before(m.perfect, ws);
    let d = drop_before(m.perfect, ws);
    assert forall|k: int| 0 <= k < d.len() implies (#[trigger] d[k]).finish <= b by {
        assert(d[k] == m.perfect[k]);
    }
    if m.perfect.len() > 0 {
        assert(m.perfect[m.perfect.len() - 1].finish <= b);
    }
    if m.results.len() > 0 {
        assert(m.results[m.results.len() - 1].1 <= b);
    }
}

proof fn lemma_drain_bound(m: DustState, ws: int, b: int)
    requires
        finishes_le(m.perfect, b),
        ends_le(m.results, b),
    ensures
        ends_le(drain(m, ws).results, b),
    decreases POSITION_LIMIT - ws,
{
    if !(m.perfect.len() == 0 || ws >= POSITION_LIMIT) {
        lemma_flush_bound(m, ws + 1, b);
        lemma_drain_bound(flush(m, ws + 1), ws + 1, b);
    }
}

proof fn lemma_trim_keeps(m: DustState, t: usize)
    ensures
        trim(m, t).window == m.window,
        trim(m, t).perfect == m.perfect,
        trim(m, t).results == m.results,
    decreases m.big,
{
    if m.big != 0 {
        let s = m.window[m.window.len() - m.big] as int;
        let cv = m.cv.update(s, (m.cv[s] - 1) as u64);
        let next = DustState { big: (m.big - 1) as usize, cv, rv: (m.rv - cv[s]) as u64, ..m };
        if s != t as int {
            lemma_trim_keeps(next, t);
        }
    }
}

/// After the first `i` positions of an unambiguous sequence, the run length
/// is `i`, the window holds at most `i - 2` triplets, and every candidate
/// and result ends at or before `i`.
proof fn lemma_scan_prefix_fresh(seq: Seq<u8>, w: usize, thr: usize, i: nat)
    requires
        w >= 3,
        forall|k: int| 0 <= k < i ==> encode(#[trigger] seq[k]) < AMBIGUOUS,
        i <= seq.len(),
        seq.len() <= MAX_SEQUENCE_LENGTH,
    ensures
        scan_prefix(seq, w, thr, i).1 == i,
        scan_prefix(seq, w, thr, i).0.window.len() + 2 <= if i >= 2 { i as int } else { 2 },
        scan_prefix(seq, w, thr, i).0.window.len() <= w - 2,
        finishes_le(scan_prefix(seq, w, thr, i).0.perfect, i as int),
        starts_in(scan_prefix(seq, w, thr, i).0.perfect, 0, i as int),
        ends_le(scan_prefix(seq, w, thr, i).0.results, i as int),
    decreases i,
{
    if i > 0 {
        let j = (i - 1) as nat;
        lemma_scan_prefix_fresh(seq, w, thr, j);
        let prev = scan_prefix(seq, w, thr, j);
        let m = prev.0;
        assert(code_at(seq, j as int) == encode(seq[j as int]));
        let b = code_at(seq, j as int);
        let l2 = prev.1 + 1;
        let t2 = (prev.2 * 4 + b) % 64;
        if l2 >= 3 {
            let ws = (if l2 > w { l2 - w } else { 0 }) + j + 1 - l2;
            let m0 = flush(m, ws);
            lemma_flush_bound(m, ws, i as int);
            lemma_flush_starts(m, ws, 0, i as int);
            let m1 = shift(m0, t2 as usize, w, thr);
            let a = crate::sdust::append(crate::sdust::evict(m0, w), t2 as usize);
            lemma_trim_keeps(a, t2 as usize);
            assert(m1.window == a.window);
            assert(m1.perfect == m0.perfect);
            assert(m1.results == m0.results);
            assert(m1.window.len() + 2 + ws <= i);
            if m1.rw * 10 > m1.big * thr {
                if m1.window.len() > m1.big {
                    lemma_perfect_scan_finishes(
                        m1.window,
                        m1.perfect,
                        m1.cv,
                        m1.rv as int,
                        0,
                        0,
                        m1.window.len() - m1.big - 1,
                        ws,
                        thr as int,
                        i as int,
                    );
                    lemma_perfect_scan_starts(
                        m1.window,
                        m1.perfect,
                        m1.cv,
                        m1.rv as int,
                        0,
                        0,
                        m1.window.len() - m1.big - 1,
                        ws,
                        thr as int,
                        0,
                        i as int,
                    );
                }
            }
            assert(advance(m, l2, t2, j as int, w, thr).window == m1.window);
        }
    }
}

/// On a sequence of recognised letters only, every region the scan finds
/// ends within the sequence, so capping the ends changes nothing.
pub proof fn lemma_unambiguous_regions_within(seq: Seq<u8>, w: usize, thr: usize)
    requires
        w >= 3,
        unambiguous(seq),
        seq.len() <= MAX_SEQUENCE_LENGTH,
    ensures
        ends_le(scan_prefix(seq, w, thr, seq.len() + 1).0.results, seq.len() as int),
        dust_intervals(seq, w, thr) == scan_prefix(seq, w, thr, seq.len() + 1).0.results,
{
    let n = seq.len();
    lemma_scan_prefix_fresh(seq, w, thr, n);
    let prev = scan_prefix(seq, w, thr, n);
    assert(code_at(seq, n as int) == AMBIGUOUS);
    let ws = (if prev.1 > w - 1 { prev.1 - w + 1 } else { 0 }) + n + 1 - prev.1;
    lemma_drain_bound(prev.0, ws, n as int);
    let r = scan_prefix(seq, w, thr, n + 1).0.results;
    assert(clamp_ends(r, n as int) =~= r);
}

/// Every candidate starts within `[lo, hi]`.
pub open spec fn starts_in(p: Seq<PerfectInterval>, lo: int, hi: int) -> bool {
    forall|k: int| 0 <= k < p.len() ==> lo <= (#[trigger] p[k]).start <= hi
}

/// No result reaches across position `cut`: each ends at or before it or
/// starts after it.
pub open spec fn avoids(r: Seq<(usize, usize)>, cut: int) -> bool {
    forall|k: int| 0 <= k < r.len() ==> (#[trigger] r[k]).1 <= cut || r[k].0 > cut
}

proof fn lemma_perfect_scan_starts(
    w: Seq<usize>,
    p: Seq<PerfectInterval>,
    c: Seq<u64>,
    r: int,
    ms: int,
    ml: int,
    i: int,
    ws: int,
    thr: int,
    lo: int,
    hi: int,
)
    requires
        starts_in(p, lo, hi),
        0 <= lo <= ws,
        i < w.len(),
        ws + w.len() <= hi + 1,
        hi <= POSITION_LIMIT,
    ensures
        starts_in(perfect_scan(w, p, c, r, ms, ml, i, ws, thr), lo, hi),
    decreases i + 1,
{
    if i >= 0 {
        let t = w[i] as int;
        let r2 = r + c[t];
        let c2 = c.update(t, (c[t] + 1) as u64);
        let nl = w.len() - i - 1;
        if r2 * 10 > thr * nl {
            let found = insertion_point(p, 0, i + ws, ms, ml);
            if found.1 == 0 || r2 * found.2 >= found.1 * nl {
                let np = PerfectInterval {
                    start: (i + ws) as usize,
                    finish: (w.len() + 2 + ws) as usize,
                    score: r2 as u64,
                    l: nl as usize,
                };
                lemma_insertion_point_range(p, 0, i + ws, ms, ml);
                let q = p.insert(found.0, np);
                assert forall|k: int| 0 <= k < q.len() implies lo <= (#[trigger] q[k]).start
                    <= hi by {
                    if k < found.0 {
                        assert(q[k] == p[k]);
                    } else if k > found.0 {
                        assert(q[k] == p[k - 1]);
                    }
                }
                lemma_perfect_scan_starts(w, q, c2, r2, r2, nl, i - 1, ws, thr, lo, hi);
            } else {
                lemma_perfect_scan_starts(w, p, c2, r2, found.1, found.2, i - 1, ws, thr, lo, hi);
            }
        } else {
            lemma_perfect_scan_starts(w, p, c2, r2, ms, ml, i - 1, ws, thr, lo, hi);
        }
    }
}

proof fn lemma_flush_starts(m: DustState, ws: int, lo: int, hi: int)
    requires
        starts_in(m.perfect, lo, hi),
    ensures
        starts_in(flush(m, ws).perfect, lo, hi),
        flush(m, ws).window == m.window,
{
    lemma_drop_before(m.perfect, ws);
    let d = drop_before(m.perfect, ws);
    assert forall|k: int| 0 <= k < d.len() implies lo <= (#[trigger] d[k]).start <= hi by {
        assert(d[k] == m.perfect[k]);
    }
}

proof fn lemma_flush_avoids(m: DustState, ws: int, cut: int, hi: int)
    requires
        starts_in(m.perfect, cut + 1, hi),
        avoids(m.results, cut),
    ensures
        starts_in(flush(m, ws).perfect, cut + 1, hi),
        avoids(flush(m, ws).results, cut),
        flush(m, ws).window == m.window,
{
    lemma_flush_starts(m, ws, cut + 1, hi);
    if m.perfect.len() > 0 {
        assert(m.perfect[m.perfect.len() - 1].start > cut);
    }
    if m.results.len() > 0 {
        let n = m.results.len() - 1;
        assert(m.results[n].1 <= cut || m.results[n].0 > cut);
    }
}

proof fn lemma_drain_avoids(m: DustState, ws: int, cut: int, hi: int)
    requires
        starts_in(m.perfect, cut + 1, hi),
        avoids(m.results, cut),
    ensures
        starts_in(drain(m, ws).perfect, cut + 1, hi),
        avoids(drain(m, ws).results, cut),
        drain(m, ws).window == m.window,
    decreases POSITION_LIMIT - ws,
{
    if !(m.perfect.len() == 0 || ws >= POSITION_LIMIT) {
        lemma_flush_avoids(m, ws + 1, cut, hi);
        lemma_drain_avoids(flush(m, ws + 1), ws + 1, cut, hi);
    }
}

proof fn lemma_drop_before_all(p: Seq<PerfectInterval>, ws: int)
    requires
        forall|k: int| 0 <= k < p.len() ==> (#[trigger] p[k]).start < ws,
    ensures
        drop_before(p, ws).len() == 0,
    decreases p.len(),
{
    if p.len() > 0 {
        assert(p[p.len() - 1].start < ws);
        lemma_drop_before_all(p.drop_last(), ws);
    }
}

/// Draining candidates that all start at or before `hi` leaves none.
proof fn lemma_drain_empties(m: DustState, ws: int, hi: int)
    requires
        starts_in(m.perfect, 0, hi),
        ws < POSITION_LIMIT,
        hi + 1 < POSITION_LIMIT,
    ensures
        drain(m, ws).perfect.len() == 0,
        drain(m, ws).window == m.window,
    decreases POSITION_LIMIT - ws,
{
    if m.perfect.len() > 0 {
        let m1 = flush(m, ws + 1);
        lemma_flush_starts(m, ws + 1, 0, hi);
        if ws + 1 > hi {
            lemma_drop_before_all(m.perfect, ws + 1);
            assert(m.perfect[m.perfect.len() - 1].start < ws + 1);
            assert(m1.perfect.len() == 0);
            assert(drain(m1, ws + 1) == m1);
        } else {
            lemma_drain_empties(m1, ws + 1, hi);
        }
    }
}

/// The scan after position `cut`, where `seq` holds an ambiguous byte with
/// recognised letters on both sides, up to `i`: the run length counts from
/// `cut + 1`, candidates start after `cut`, and no result reaches across
/// `cut`.
proof fn lemma_scan_after_cut(seq: Seq<u8>, w: usize, thr: usize, cut: nat, i: nat)
    requires
        w >= 3,
        cut < i <= seq.len(),
        seq.len() <= MAX_SEQUENCE_LENGTH,
        encode(seq[cut as int]) == AMBIGUOUS,
        forall|k: int| 0 <= k < seq.len() && k != cut ==> encode(#[trigger] seq[k]) < AMBIGUOUS,
    ensures
        scan_prefix(seq, w, thr, i).1 == i - cut - 1,
        scan_prefix(seq, w, thr, i).0.window.len() <= i,
        starts_in(scan_prefix(seq, w, thr, i).0.perfect, cut + 1int, 2 * i as int),
        avoids(scan_prefix(seq, w, thr, i).0.results, cut as int),
    decreases i,
{
    let j = (i - 1) as nat;
    let prev = scan_prefix(seq, w, thr, j);
    let m = prev.0;
    if i == cut + 1 {
        assert forall|k: int| 0 <= k < cut implies encode(#[trigger] seq[k]) < AMBIGUOUS by {}
        lemma_scan_prefix_fresh(seq, w, thr, cut);
        assert(code_at(seq, cut as int) == AMBIGUOUS);
        let ws = (if prev.1 > w - 1 { prev.1 - w + 1 } else { 0 }) + cut + 1 - prev.1;
        lemma_drain_bound(m, ws, cut as int);
        lemma_drain_empties(m, ws, cut as int);
    } else {
        lemma_scan_after_cut(seq, w, thr, cut, j);
        assert(code_at(seq, j as int) == encode(seq[j as int]));
        let b = code_at(seq, j as int);
        let l2 = prev.1 + 1;
        let t2 = (prev.2 * 4 + b) % 64;
        if l2 >= 3 {
            let ws = (if l2 > w { l2 - w } else { 0 }) + j + 1 - l2;
            let m0 = flush(m, ws);
            lemma_flush_avoids(m, ws, cut as int, 2 * j as int);
            let m1 = shift(m0, t2 as usize, w, thr);
            let a = crate::sdust::append(crate::sdust::evict(m0, w), t2 as usize);
            lemma_trim_keeps(a, t2 as usize);
            assert(m1.window == a.window);
            assert(m1.perfect == m0.perfect);
            assert(m1.results == m0.results);
            if m1.rw * 10 > m1.big * thr {
                if m1.window.len() > m1.big {
                    lemma_perfect_scan_starts(
                        m1.window,
                        m1.perfect,
                        m1.cv,
                        m1.rv as int,
                        0,
                        0,
                        m1.window.len() - m1.big - 1,
                        ws,
                        thr as int,
                        cut + 1int,
                        2 * i as int,
                    );
                }
            }
            assert(advance(m, l2, t2, j as int, w, thr).window == m1.window);
        }
    }
}

/// An ambiguous byte `x` between two runs `a` and `b` of recognised letters
/// separates them: no region of `a + [x] + b` reaches across it.
pub proof fn lemma_ambiguous_base_separates(
    a: Seq<u8>,
    b: Seq<u8>,
    x: u8,
    w: usize,
    thr: usize,
)
    requires
        w >= 3,
        unambiguous(a),
        unambiguous(b),
        encode(x) == AMBIGUOUS,
        a.len() + 1 + b.len() <= MAX_SEQUENCE_LENGTH,
    ensures
        avoids(dust_intervals(a + seq![x] + b, w, thr), a.len() as int),
{
    let seq = a + seq![x] + b;
    let cut = a.len();
    let n = seq.len();
    assert(seq[cut as int] == x);
    assert forall|k: int| 0 <= k < seq.len() && k != cut implies encode(#[trigger] seq[k])
        < AMBIGUOUS by {
        if k < cut {
            assert(seq[k] == a[k]);
        } else {
            assert(seq[k] == b[k - cut - 1]);
        }
    }
    lemma_scan_after_cut(seq, w, thr, cut, n);
    let prev = scan_prefix(seq, w, thr, n);
    assert(code_at(seq, n as int) == AMBIGUOUS);
    let ws = (if prev.1 > w - 1 { prev.1 - w + 1 } else { 0 }) + n + 1 - prev.1;
    lemma_drain_avoids(prev.0, ws, cut as int, 2 * n as int);
    let r = scan_prefix(seq, w, thr, n + 1).0.results;
    let c = clamp_ends(r, n as int);
    assert forall|k: int| 0 <= k < c.len() implies (#[trigger] c[k]).1 <= cut || c[k].0 > cut by {
        assert(r[k].1 <= cut || r[k].0 > cut);
    }
}

} // verus!
