//! The symmetric DUST scan: one left-to-right pass over a sequence that
//! reports its low-complexity regions as half-open intervals.
//!
//! The spec functions below describe the scan as a state machine over
//! [`DustState`]; the executable code is proved to follow it step by step.
use std::collections::VecDeque;
use vstd::prelude::*;

use crate::bounds::{lemma_unambiguous_regions_within, unambiguous};
use crate::counting::{
    count, lemma_count_bound, lemma_count_drop_first, lemma_count_push, lemma_pairs_bound,
    lemma_pairs_drop_first, lemma_pairs_push, pairs,
};

verus! {

/// Number of distinct triplets: three 2-bit symbol codes.
pub const NUM_TRIPLETS: usize = 64;

/// Code of a byte that is none of the four recognised letters.
pub const AMBIGUOUS: usize = 4;

/// The longest sequence the scan accepts: every position it computes
/// (at most twice the length) fits in a 32-bit `usize`, and the pair counts
/// of a window fit in a `u64`.
pub const MAX_SEQUENCE_LENGTH: usize = 0x3FFF_FFFF;

/// Bound on every position the scan computes (starts and ends of regions).
pub const POSITION_LIMIT: usize = 0x8000_0000;

/// A candidate low-complexity region: `[start, finish)`, with its pair
/// count `score` over `l` triplets.
#[derive(Clone, Copy, Debug, PartialEq, Eq)]
pub struct PerfectInterval {
    pub start: usize,
    pub finish: usize,
    pub score: u64,
    pub l: usize,
}

/// What the scan knows between two steps.
pub struct DustState {
    /// Candidate regions, by start descending.
    pub perfect: Seq<PerfectInterval>,
    /// Regions found so far, by start ascending.
    pub results: Seq<(usize, usize)>,
    /// The triplets of the current window, oldest first.
    pub window: Seq<usize>,
    /// Occurrences of each triplet in the tracked suffix of the window.
    pub cv: Seq<u64>,
    /// Occurrences of each triplet in the window.
    pub cw: Seq<u64>,
    /// Pairs of equal triplets in the tracked suffix.
    pub rv: u64,
    /// Pairs of equal triplets in the window.
    pub rw: u64,
    /// Length of the tracked suffix.
    pub big: usize,
}

/// The symbol code of a byte: 0 to 3 for A, C, G, T in either case, else
/// [`AMBIGUOUS`].
pub open spec fn encode(b: u8) -> usize {
    if b == 65 || b == 97 {
        0
    } else if b == 67 || b == 99 {
        1
    } else if b == 71 || b == 103 {
        2
    } else if b == 84 || b == 116 {
        3
    } else {
        4
    }
}

/// The last `big` triplets of `w`.
pub open spec fn suffix(w: Seq<usize>, big: usize) -> Seq<usize> {
    w.subrange(w.len() - big, w.len() as int)
}

pub open spec fn initial_state() -> DustState {
    DustState {
        perfect: Seq::empty(),
        results: Seq::empty(),
        window: Seq::empty(),
        cv: Seq::new(64, |k: int| 0u64),
        cw: Seq::new(64, |k: int| 0u64),
        rv: 0,
        rw: 0,
        big: 0,
    }
}

/// Removes from the back of `p` every candidate that starts before `ws`.
pub open spec fn drop_before(p: Seq<PerfectInterval>, ws: int) -> Seq<PerfectInterval>
    decreases p.len(),
{
    if p.len() > 0 && (p.last().start as int) < ws {
        drop_before(p.drop_last(), ws)
    } else {
        p
    }
}

/// One step of the region finalizer: if the oldest candidate starts before
/// `ws`, it is merged into the last result (when they touch or overlap) or
/// appended, and all candidates before `ws` are dropped.
pub open spec fn flush(m: DustState, ws: int) -> DustState {
    if m.perfect.len() == 0 || m.perfect.last().start >= ws {
        m
    } else {
        let back = m.perfect.last();
        let n = m.results.len();
        let results = if n > 0 && back.start <= m.results[n - 1].1 {
            let last = m.results[n - 1];
            m.results.update(
                n - 1,
                (last.0, if last.1 >= back.finish { last.1 } else { back.finish }),
            )
        } else {
            m.results.push((back.start, back.finish))
        };
        DustState { results, perfect: drop_before(m.perfect, ws), ..m }
    }
}

/// Drops the oldest triplet once the window holds `w - 2` of them.
pub open spec fn evict(m: DustState, w: usize) -> DustState {
    if m.window.len() >= w - 2 {
        let s = m.window[0] as int;
        let window = m.window.drop_first();
        let cw = m.cw.update(s, (m.cw[s] - 1) as u64);
        let rw = (m.rw - cw[s]) as u64;
        if m.big > window.len() {
            let cv = m.cv.update(s, (m.cv[s] - 1) as u64);
            DustState { window, cw, rw, cv, rv: (m.rv - cv[s]) as u64, big: (m.big - 1) as usize, ..m }
        } else {
            DustState { window, cw, rw, ..m }
        }
    } else {
        m
    }
}

/// Appends triplet `t` to the window and to the tracked suffix.
pub open spec fn append(m: DustState, t: usize) -> DustState {
    DustState {
        window: m.window.push(t),
        big: (m.big + 1) as usize,
        rw: (m.rw + m.cw[t as int]) as u64,
        cw: m.cw.update(t as int, (m.cw[t as int] + 1) as u64),
        rv: (m.rv + m.cv[t as int]) as u64,
        cv: m.cv.update(t as int, (m.cv[t as int] + 1) as u64),
        ..m
    }
}

/// Shrinks the tracked suffix from its front up to and including the first
/// occurrence of `t`.
pub open spec fn trim(m: DustState, t: usize) -> DustState
    decreases m.big,
{
    if m.big == 0 {
        m
    } else {
        let s = m.window[m.window.len() - m.big] as int;
        let cv = m.cv.update(s, (m.cv[s] - 1) as u64);
        let next = DustState { big: (m.big - 1) as usize, cv, rv: (m.rv - cv[s]) as u64, ..m };
        if s == t as int {
            next
        } else {
            trim(next, t)
        }
    }
}

/// Adds triplet `t` to the window of a scan with window size `w` and
/// threshold `thr`.
pub open spec fn shift(m: DustState, t: usize, w: usize, thr: usize) -> DustState {
    let m1 = append(evict(m, w), t);
    if m1.cv[t as int] * 10 > 2 * thr {
        trim(m1, t)
    } else {
        m1
    }
}

/// Walks the candidates from index `j` while they start at or after `cut`,
/// keeping the densest one seen as `(ms, ml)` (score, length). Returns the
/// index where the walk stopped and the densest pair.
pub open spec fn insertion_point(
    p: Seq<PerfectInterval>,
    j: int,
    cut: int,
    ms: int,
    ml: int,
) -> (int, int, int)
    decreases p.len() - j,
{
    if j < 0 || j >= p.len() || (p[j].start as int) < cut {
        (j, ms, ml)
    } else {
        let e = p[j];
        if ms == 0 || e.score * ml > ms * e.l {
            insertion_point(p, j + 1, cut, e.score as int, e.l as int)
        } else {
            insertion_point(p, j + 1, cut, ms, ml)
        }
    }
}

/// The backward scan of the perfect-interval tracker over the window `w`,
/// from index `i` down to 0, with counts `c` and pair count `r` of
/// `w[i + 1..]`, densest inserted pair `(ms, ml)`, window start `ws` and
/// threshold `thr`. Returns the candidate list after the scan.
pub open spec fn perfect_scan(
    w: Seq<usize>,
    p: Seq<PerfectInterval>,
    c: Seq<u64>,
    r: int,
    ms: int,
    ml: int,
    i: int,
    ws: int,
    thr: int,
) -> Seq<PerfectInterval>
    decreases i + 1,
{
    if i < 0 {
        p
    } else {
        let t = w[i] as int;
        let r2 = r + c[t];
        let c2 = c.update(t, (c[t] + 1) as u64);
        let nl = w.len() - i - 1;
        if r2 * 10 > thr * nl {
            let found = insertion_point(p, 0, i + ws, ms, ml);
            if found.1 == 0 || r2 * found.2 >= found.1 * nl {
                let np = PerfectInterval {
                    start: (i + ws) as usize,
                    finish: (w.len() + 2 + ws) as usize,
                    score: r2 as u64,
                    l: nl as usize,
                };
                perfect_scan(w, p.insert(found.0, np), c2, r2, r2, nl, i - 1, ws, thr)
            } else {
                perfect_scan(w, p, c2, r2, found.1, found.2, i - 1, ws, thr)
            }
        } else {
            perfect_scan(w, p, c2, r2, ms, ml, i - 1, ws, thr)
        }
    }
}

/// Records the dense regions that end at the end of the window, scanning
/// the part of the window before its tracked suffix.
pub open spec fn find_perfect(m: DustState, ws: int, thr: usize) -> DustState {
    if m.window.len() > m.big {
        DustState {
            perfect: perfect_scan(
                m.window,
                m.perfect,
                m.cv,
                m.rv as int,
                0,
                0,
                m.window.len() - m.big - 1,
                ws,
                thr as int,
            ),
            ..m
        }
    } else {
        m
    }
}

/// The product of two 64-bit numbers, exactly.
fn mul_wide(a: u64, b: u64) -> (r: u128)
    ensures
        r == a * b,
{
    proof {
        assert(a * b <= 0xFFFF_FFFF_FFFF_FFFF * 0xFFFF_FFFF_FFFF_FFFF) by (nonlinear_arith)
            requires
                0 <= a <= 0xFFFF_FFFF_FFFF_FFFF,
                0 <= b <= 0xFFFF_FFFF_FFFF_FFFF,
        ;
    }
    (a as u128) * (b as u128)
}

/// The code of position `k` of `seq`; past the end the scan sees an
/// ambiguous symbol, which flushes what is pending.
pub open spec fn code_at(seq: Seq<u8>, k: int) -> usize {
    if 0 <= k < seq.len() {
        encode(seq[k])
    } else {
        AMBIGUOUS
    }
}

/// Flushes with window starts `ws + 1`, `ws + 2`, ... until no candidate
/// is left.
pub open spec fn drain(m: DustState, ws: int) -> DustState
    decreases POSITION_LIMIT - ws,
{
    if m.perfect.len() == 0 || ws >= POSITION_LIMIT {
        m
    } else {
        drain(flush(m, ws + 1), ws + 1)
    }
}

/// The scan at position `i`, with the `l`-th symbol of a run of
/// unambiguous ones (`l >= 3`) completing triplet `t`: flush what the
/// window has left behind, shift `t` in, and look for dense regions when
/// the window scores above the threshold.
pub open spec fn advance(m: DustState, l: int, t: int, i: int, w: usize, thr: usize) -> DustState {
    let ws = (if l > w { l - w } else { 0 }) + i + 1 - l;
    let m1 = shift(flush(m, ws), t as usize, w, thr);
    if m1.rw * 10 > m1.big * thr {
        find_perfect(m1, ws, thr)
    } else {
        m1
    }
}

/// One position of the scan: state `m`, `l` symbols since the last
/// ambiguous one, rolling triplet `t`, code `b` at position `i`.
pub open spec fn step(
    m: DustState,
    l: int,
    t: int,
    b: usize,
    i: int,
    w: usize,
    thr: usize,
) -> (DustState, int, int) {
    if b < AMBIGUOUS {
        let l2 = l + 1;
        let t2 = (t * 4 + b) % 64;
        if l2 >= 3 {
            (advance(m, l2, t2, i, w, thr), l2, t2)
        } else {
            (m, l2, t2)
        }
    } else {
        let ws = (if l > w - 1 { l - w + 1 } else { 0 }) + i + 1 - l;
        (drain(m, ws), 0, 0)
    }
}

/// The scan after its first `n` positions.
pub open spec fn scan_prefix(seq: Seq<u8>, w: usize, thr: usize, n: nat) -> (DustState, int, int)
    decreases n,
{
    if n == 0 {
        (initial_state(), 0, 0)
    } else {
        let prev = scan_prefix(seq, w, thr, (n - 1) as nat);
        step(prev.0, prev.1, prev.2, code_at(seq, n - 1), n - 1, w, thr)
    }
}

/// Caps every end at `n`.
pub open spec fn clamp_ends(r: Seq<(usize, usize)>, n: int) -> Seq<(usize, usize)> {
    Seq::new(r.len(), |k: int| (r[k].0, if r[k].1 <= n { r[k].1 } else { n as usize }))
}

/// The low-complexity regions of `seq` for window size `w` and threshold
/// `thr`: the results of the whole scan (one position past the end
/// included), with ends capped at the sequence length.
pub open spec fn dust_intervals(seq: Seq<u8>, w: usize, thr: usize) -> Seq<(usize, usize)> {
    clamp_ends(scan_prefix(seq, w, thr, seq.len() + 1).0.results, seq.len() as int)
}

/// Sorted by start, each interval followed by a gap before the next.
pub open spec fn ordered_disjoint(r: Seq<(usize, usize)>) -> bool {
    forall|k: int| 0 <= k < r.len() - 1 ==> #[trigger] r[k].0 < r[k + 1].0 && r[k].1 < r[k + 1].0
}

/// Every end is at most `n`, and every interval that starts before `n` is
/// non-empty.
pub open spec fn within_bounds(r: Seq<(usize, usize)>, n: int) -> bool {
    forall|k: int| 0 <= k < r.len() ==> #[trigger] r[k].1 <= n && (r[k].0 < n ==> r[k].0 < r[k].1)
}

/// Every interval is non-empty and lies within `[0, n)`.
pub open spec fn fully_within(r: Seq<(usize, usize)>, n: int) -> bool {
    forall|k: int| 0 <= k < r.len() ==> (#[trigger] r[k]).0 < r[k].1 && r[k].1 <= n
}

/// Capping the ends of well-formed results keeps them sorted and separated,
/// and bounds them by `n`.
pub proof fn lemma_clamp_ends(r: Seq<(usize, usize)>, n: int)
    requires
        results_wf(r),
        0 <= n,
    ensures
        ordered_disjoint(clamp_ends(r, n)),
        within_bounds(clamp_ends(r, n), n),
{
    let c = clamp_ends(r, n);
    assert forall|k: int| 0 <= k < c.len() - 1 implies #[trigger] c[k].0 < c[k + 1].0 && c[k].1
        < c[k + 1].0 by {
        assert(r[k].0 < r[k].1);
        assert(r[k].1 < r[k + 1].0);
    }
    assert forall|k: int| 0 <= k < c.len() implies #[trigger] c[k].1 <= n && (c[k].0 < n ==> c[k].0
        < c[k].1) by {
        assert(r[k].0 < r[k].1);
    }
}

/// Scanning the same bytes with the same parameters gives the same regions.
pub proof fn lemma_scan_deterministic(
    s1: Seq<u8>,
    s2: Seq<u8>,
    w1: usize,
    w2: usize,
    thr1: usize,
    thr2: usize,
)
    requires
        s1 == s2,
        w1 == w2,
        thr1 == thr2,
    ensures
        dust_intervals(s1, w1, thr1) == dust_intervals(s2, w2, thr2),
{
}

/// A count of zero for each triplet.
fn zero_counts() -> (r: Vec<u64>)
    ensures
        r@ == Seq::new(NUM_TRIPLETS as nat, |k: int| 0u64),
{
    let mut r: Vec<u64> = Vec::new();
    let mut t: usize = 0;
    while t < NUM_TRIPLETS
        invariant
            t <= NUM_TRIPLETS,
            r@ == Seq::new(t as nat, |k: int| 0u64),
        decreases NUM_TRIPLETS - t,
    {
        r.push(0);
        t = t + 1;
        proof {
            assert(r@ =~= Seq::new(t as nat, |k: int| 0u64));
        }
    }
    r
}

/// The intervals with every end capped at `n`.
fn cap_ends(results: &Vec<(usize, usize)>, n: usize) -> (r: Vec<(usize, usize)>)
    ensures
        r@ == clamp_ends(results@, n as int),
{
    let mut res: Vec<(usize, usize)> = Vec::new();
    let mut k: usize = 0;
    while k < results.len()
        invariant
            k <= results@.len(),
            res@ == clamp_ends(results@, n as int).take(k as int),
        decreases results@.len() - k,
    {
        let range = results[k];
        let end = if range.1 <= n {
            range.1
        } else {
            n
        };
        res.push((range.0, end));
        k = k + 1;
        proof {
            assert(res@ =~= clamp_ends(results@, n as int).take(k as int));
        }
    }
    proof {
        assert(res@ =~= clamp_ends(results@, n as int));
    }
    res
}

/// The symbol code of a byte (65, 67, 71, 84 are `A`, `C`, `G`, `T`; 97,
/// 99, 103, 116 their lower-case forms).
pub fn encode_base(b: u8) -> (r: usize)
    ensures
        r == encode(b),
{
    if b == 65 || b == 97 {
        0
    } else if b == 67 || b == 99 {
        1
    } else if b == 71 || b == 103 {
        2
    } else if b == 84 || b == 116 {
        3
    } else {
        AMBIGUOUS
    }
}

/// The symmetric DUST scanner: the scan state between two positions.
pub struct SymmetricDust {
    /// The length of the window, in symbols.
    window_size: usize,
    /// The score threshold in tenths: `r` pairs over `l` triplets pass it
    /// when `10 * r > score_threshold * l`.
    score_threshold: usize,
    perfect_intervals: VecDeque<PerfectInterval>,
    results: Vec<(usize, usize)>,
    window: VecDeque<usize>,
    cv: Vec<u64>,
    cw: Vec<u64>,
    rv: u64,
    rw: u64,
    biggest_num_triplets: usize,
}

impl SymmetricDust {
    /// The scan state as a value.
    pub closed spec fn state(&self) -> DustState {
        DustState {
            perfect: self.perfect_intervals@,
            results: self.results@,
            window: self.window@,
            cv: self.cv@,
            cw: self.cw@,
            rv: self.rv,
            rw: self.rw,
            big: self.biggest_num_triplets,
        }
    }

    /// The window size and the threshold.
    pub closed spec fn params(&self) -> (usize, usize) {
        (self.window_size, self.score_threshold)
    }

    /// The running counts describe the window and its tracked suffix, and
    /// regions are well ordered and bounded.
    pub closed spec fn wf(&self) -> bool {
        let m = self.state();
        &&& self.window_size >= 3
        &&& state_wf(m, self.window_size)
    }

    /// Emits the oldest candidate if it starts before `window_start`.
    fn save_masked_regions(&mut self, window_start: usize)
        requires
            old(self).wf(),
        ensures
            final(self).wf(),
            final(self).params() == old(self).params(),
            final(self).state() == flush(old(self).state(), window_start as int),
            final(self).state().window == old(self).state().window,
            final(self).state().perfect.len() == 0 || final(self).state().perfect.last().start
                >= window_start,
    {
        let np = self.perfect_intervals.len();
        if np == 0 {
            return;
        }
        let back = self.perfect_intervals[np - 1];
        if back.start >= window_start {
            return;
        }
        let ghost m = self.state();
        let num_results = self.results.len();
        if num_results > 0 && back.start <= self.results[num_results - 1].1 {
            let last = self.results[num_results - 1];
            let end = if last.1 >= back.finish { last.1 } else { back.finish };
            self.results.set(num_results - 1, (last.0, end));
        } else {
            self.results.push((back.start, back.finish));
        }
        let ghost m2 = self.state();
        proof {
            let r = self.results@;
            assert forall|k: int| 0 <= k < r.len() - 1 implies #[trigger] r[k].1 < r[k + 1].0 by {
                if k + 1 < m.results.len() {
                    assert(r[k] == m.results[k]);
                    assert(r[k + 1].0 == m.results[k + 1].0);
                }
            }
            assert(m.perfect[m.perfect.len() - 1].start < m.perfect[m.perfect.len() - 1].finish);
            assert(results_wf(r));
        }
        let mut done = false;
        while !done
            invariant
                drop_before(self.perfect_intervals@, window_start as int) == drop_before(m.perfect, window_start as int),
                self.state() == (DustState { perfect: self.perfect_intervals@, ..m2 }),
                self.params() == old(self).params(),
                self.window_size == old(self).window_size,
                done ==> drop_before(self.perfect_intervals@, window_start as int) == self.perfect_intervals@,
            decreases self.perfect_intervals@.len() + if done { 0int } else { 1int },
        {
            let n = self.perfect_intervals.len();
            if n > 0 && self.perfect_intervals[n - 1].start < window_start {
                let ghost before = self.perfect_intervals@;
                self.perfect_intervals.pop_back();
                proof {
                    assert(self.perfect_intervals@ =~= before.drop_last());
                }
            } else {
                done = true;
            }
        }
        proof {
            lemma_drop_before(m.perfect, window_start as int);
            lemma_perfect_wf_prefix(m.perfect, self.perfect_intervals@);
        }
    }

    /// Adds a triplet to the window, updating the running counts of the
    /// window and of its tracked suffix.
    fn shift_window(&mut self, triplet: usize)
        requires
            old(self).wf(),
            triplet < NUM_TRIPLETS,
            old(self).state().window.len() < MAX_SEQUENCE_LENGTH,
        ensures
            final(self).wf(),
            final(self).params() == old(self).params(),
            final(self).state() == shift(
                old(self).state(),
                triplet,
                old(self).params().0,
                old(self).params().1,
            ),
            final(self).state().window.len() <= old(self).state().window.len() + 1,
    {
        self.evict_oldest();
        self.append_triplet(triplet);
        if (self.cv[triplet] as u128) * 10 > 2 * (self.score_threshold as u128) {
            self.trim_suffix(triplet);
        }
    }

    /// Drops the oldest triplet when the window is full.
    fn evict_oldest(&mut self)
        requires
            old(self).wf(),
        ensures
            final(self).wf(),
            final(self).params() == old(self).params(),
            final(self).state() == evict(old(self).state(), old(self).params().0),
            final(self).state().window.len() <= old(self).state().window.len(),
            final(self).state().window.len() < old(self).params().0 - 2,
    {
        let ghost m0 = self.state();
        if self.window.len() >= self.window_size - 2 {
            let s = self.window.pop_front().unwrap();
            proof {
                let w = m0.window;
                assert(self.window@ =~= w.drop_first());
                lemma_count_drop_first(w, s);
                lemma_count_bound(w.drop_first(), s);
                lemma_pairs_drop_first(w);
                lemma_pairs_bound(w.drop_first());
                assert forall|t: usize| t < NUM_TRIPLETS implies count(w, t) == count(
                    w.drop_first(),
                    t,
                ) + if w[0] == t { 1int } else { 0int } by {
                    lemma_count_drop_first(w, t);
                }
            }
            self.cw.set(s, self.cw[s] - 1);
            self.rw = self.rw - self.cw[s];
            if self.biggest_num_triplets > self.window.len() {
                proof {
                    assert(suffix(m0.window, m0.big) =~= m0.window);
                    assert(suffix(self.window@, (m0.big - 1) as usize) =~= self.window@);
                }
                self.biggest_num_triplets = self.biggest_num_triplets - 1;
                self.cv.set(s, self.cv[s] - 1);
                self.rv = self.rv - self.cv[s];
            } else {
                proof {
                    assert(suffix(m0.window, m0.big) =~= suffix(self.window@, m0.big));
                }
            }
        }
    }

    /// Appends a triplet to the window and to its tracked suffix.
    fn append_triplet(&mut self, triplet: usize)
        requires
            old(self).wf(),
            triplet < NUM_TRIPLETS,
            old(self).state().window.len() < old(self).params().0 - 2,
            old(self).state().window.len() < MAX_SEQUENCE_LENGTH,
        ensures
            final(self).wf(),
            final(self).params() == old(self).params(),
            final(self).state() == append(old(self).state(), triplet),
    {
        let ghost m1 = self.state();
        proof {
            let w = m1.window;
            let v = suffix(w, m1.big);
            lemma_count_bound(w, triplet);
            lemma_count_bound(v, triplet);
            lemma_pairs_bound(w.push(triplet));
            lemma_pairs_bound(v.push(triplet));
            lemma_pairs_push(w, triplet);
            lemma_pairs_push(v, triplet);
            assert(suffix(w.push(triplet), (m1.big + 1) as usize) =~= v.push(triplet));
            let n = w.len() + 1;
            assert(n * n <= 0x4000_0000 * 0x4000_0000) by (nonlinear_arith)
                requires
                    0 <= n <= 0x4000_0000,
            ;
            let nv = v.len() + 1;
            assert(nv * nv <= n * n) by (nonlinear_arith)
                requires
                    0 <= nv <= n,
            ;
            assert forall|t: usize| t < NUM_TRIPLETS implies count(w.push(triplet), t) == count(
                w,
                t,
            ) + if triplet == t { 1int } else { 0int } && count(v.push(triplet), t) == count(v, t)
                + if triplet == t { 1int } else { 0int } by {
                lemma_count_push(w, triplet, t);
                lemma_count_push(v, triplet, t);
            }
        }
        self.window.push_back(triplet);
        self.biggest_num_triplets = self.biggest_num_triplets + 1;
        self.rw = self.rw + self.cw[triplet];
        self.cw.set(triplet, self.cw[triplet] + 1);
        self.rv = self.rv + self.cv[triplet];
        self.cv.set(triplet, self.cv[triplet] + 1);
    }

    /// Shrinks the tracked suffix from its front up to and including the
    /// first occurrence of `triplet`, which the suffix holds.
    fn trim_suffix(&mut self, triplet: usize)
        requires
            old(self).wf(),
            triplet < NUM_TRIPLETS,
            count(suffix(old(self).state().window, old(self).state().big), triplet) >= 1,
        ensures
            final(self).wf(),
            final(self).params() == old(self).params(),
            final(self).state() == trim(old(self).state(), triplet),
            final(self).state().window == old(self).state().window,
    {
        let ghost m2 = self.state();
        let ghost target = trim(m2, triplet);
        let mut done = false;
        while !done
            invariant
                self.wf(),
                self.params() == old(self).params(),
                self.state().window == m2.window,
                self.state().perfect == m2.perfect,
                self.state().results == m2.results,
                self.state().cw == m2.cw,
                self.state().rw == m2.rw,
                triplet < NUM_TRIPLETS,
                !done ==> trim(self.state(), triplet) == target,
                !done ==> count(suffix(self.state().window, self.state().big), triplet) >= 1,
                done ==> self.state() == target,
            decreases self.state().big,
        {
            let len = self.window.len();
            let ghost suf = suffix(self.window@, self.biggest_num_triplets);
            proof {
                if suf.len() == 0 {
                    assert(count(suf, triplet) == 0);
                }
            }
            let s = self.window[len - self.biggest_num_triplets];
            proof {
                assert(suf[0] == s);
                assert(suf.drop_first() =~= suffix(
                    self.window@,
                    (self.biggest_num_triplets - 1) as usize,
                ));
                lemma_pairs_drop_first(suf);
                lemma_pairs_bound(suf.drop_first());
                lemma_count_bound(suf.drop_first(), s);
                assert forall|t: usize| t < NUM_TRIPLETS implies count(suf, t) == count(
                    suf.drop_first(),
                    t,
                ) + if suf[0] == t { 1int } else { 0int } by {
                    lemma_count_drop_first(suf, t);
                }
            }
            self.biggest_num_triplets = self.biggest_num_triplets - 1;
            self.cv.set(s, self.cv[s] - 1);
            self.rv = self.rv - self.cv[s];
            if s == triplet {
                done = true;
            }
        }
    }

    /// Where a candidate starting at `cut` goes among the candidates, and
    /// the densest of those it passes, starting from `(ms, ml)`.
    fn insertion_point(&self, cut: usize, ms: u64, ml: usize) -> (r: (usize, u64, usize))
        ensures
            r.0 <= self.state().perfect.len(),
            (r.0 as int, r.1 as int, r.2 as int) == insertion_point(
                self.state().perfect,
                0,
                cut as int,
                ms as int,
                ml as int,
            ),
    {
        let n = self.perfect_intervals.len();
        let mut j: usize = 0;
        let mut best_score = ms;
        let mut best_l = ml;
        while j < n && self.perfect_intervals[j].start >= cut
            invariant
                j <= n,
                n == self.state().perfect.len(),
                insertion_point(
                    self.state().perfect,
                    j as int,
                    cut as int,
                    best_score as int,
                    best_l as int,
                ) == insertion_point(self.state().perfect, 0, cut as int, ms as int, ml as int),
            decreases n - j,
        {
            let e = self.perfect_intervals[j];
            if best_score == 0 || mul_wide(e.score, best_l as u64) > mul_wide(best_score, e.l as u64) {
                best_score = e.score;
                best_l = e.l;
            }
            j = j + 1;
        }
        (j, best_score, best_l)
    }

    /// Scans the window backward from just before its tracked suffix and
    /// records the densest region found that ends at the window's end.
    fn find_perfect(&mut self, window_start: usize)
        requires
            old(self).wf(),
            window_start + old(self).state().window.len() + 2 <= POSITION_LIMIT,
        ensures
            final(self).wf(),
            final(self).params() == old(self).params(),
            final(self).state() == find_perfect(
                old(self).state(),
                window_start as int,
                old(self).params().1,
            ),
            final(self).state().window == old(self).state().window,
    {
        let len = self.window.len();
        if len > self.biggest_num_triplets {
            let ghost m = self.state();
            let ghost w = m.window;
            let ghost thr = self.score_threshold as int;
            let ghost ws = window_start as int;
            let ghost target = find_perfect(m, ws, self.score_threshold).perfect;
            let mut c = self.cv.clone();
            proof {
                assert(c@ =~= m.cv);
                assert(w.subrange(len - m.big, len as int) =~= suffix(w, m.big));
            }
            let mut r: u64 = self.rv;
            let mut max_score: u64 = 0;
            let mut max_l: usize = 0;
            let mut k: usize = len - self.biggest_num_triplets;
            while k > 0
                invariant
                    self.wf(),
                    self.params() == old(self).params(),
                    self.state() == (DustState { perfect: self.state().perfect, ..m }),
                    len == w.len(),
                    self.window@ == w,
                    k <= len,
                    thr == self.score_threshold,
                    ws == window_start as int,
                    ws + len + 2 <= POSITION_LIMIT,
                    c@.len() == NUM_TRIPLETS,
                    forall|t: usize| t < NUM_TRIPLETS ==> c@[t as int] == count(w.subrange(k as int, len as int), t),
                    r == pairs(w.subrange(k as int, len as int)),
                    perfect_scan(
                        w,
                        self.state().perfect,
                        c@,
                        r as int,
                        max_score as int,
                        max_l as int,
                        k - 1,
                        ws,
                        thr,
                    ) == target,
                decreases k,
            {
                let i = k - 1;
                let triplet = self.window[i];
                proof {
                    let sub = w.subrange(i as int, len as int);
                    assert(sub.drop_first() =~= w.subrange(k as int, len as int));
                    assert(sub[0] == triplet);
                    lemma_pairs_drop_first(sub);
                    lemma_pairs_bound(sub);
                    lemma_count_bound(sub.drop_first(), triplet);
                    let n = sub.len();
                    assert(n * n <= 0x4000_0000 * 0x4000_0000) by (nonlinear_arith)
                        requires
                            0 <= n <= 0x4000_0000,
                    ;
                    assert forall|t: usize| t < NUM_TRIPLETS implies count(sub, t) == count(
                        sub.drop_first(),
                        t,
                    ) + if sub[0] == t { 1int } else { 0int } by {
                        lemma_count_drop_first(sub, t);
                    }
                }
                r = r + c[triplet];
                c.set(triplet, c[triplet] + 1);
                let new_l = len - i - 1;
                if mul_wide(r, 10) > mul_wide(self.score_threshold as u64, new_l as u64) {
                    let found = self.insertion_point(i + window_start, max_score, max_l);
                    max_score = found.1;
                    max_l = found.2;
                    if max_score == 0 || mul_wide(r, max_l as u64) >= mul_wide(
                        max_score,
                        new_l as u64,
                    ) {
                        max_score = r;
                        max_l = new_l;
                        let np = PerfectInterval {
                            start: i + window_start,
                            finish: len + 2 + window_start,
                            score: r,
                            l: new_l,
                        };
                        let ghost before = self.perfect_intervals@;
                        self.perfect_intervals.insert(found.0, np);
                        proof {
                            lemma_perfect_wf_insert(before, found.0 as int, np);
                        }
                    }
                }
                k = i;
            }
        }
    }

    /// The low-complexity regions of `sequence`, as half-open intervals
    /// sorted by start and separated by gaps, with ends capped at the
    /// sequence length.
    pub fn process(sequence: &[u8], window_size: usize, score_threshold: usize) -> (r: Vec<
        (usize, usize),
    >)
        requires
            window_size >= 3,
            sequence@.len() <= MAX_SEQUENCE_LENGTH,
        ensures
            r@ == dust_intervals(sequence@, window_size, score_threshold),
            ordered_disjoint(r@),
            within_bounds(r@, sequence@.len() as int),
            unambiguous(sequence@) ==> fully_within(r@, sequence@.len() as int),
    {
        let cv = zero_counts();
        let cw = zero_counts();
        let mut obj = SymmetricDust {
            window_size,
            score_threshold,
            perfect_intervals: VecDeque::new(),
            results: Vec::new(),
            window: VecDeque::new(),
            cv,
            cw,
            rv: 0,
            rw: 0,
            biggest_num_triplets: 0,
        };
        proof {
            assert(obj.state().cv =~= initial_state().cv);
            assert(obj.state().cw =~= initial_state().cw);
            assert(obj.state() == initial_state());
            assert(suffix(obj.window@, 0) =~= Seq::<usize>::empty());
        }
        obj.inner_process(sequence);
        let n = sequence.len();
        let ghost found = obj.state().results;
        let res = cap_ends(&obj.results, n);
        proof {
            lemma_clamp_ends(found, n as int);
            if unambiguous(sequence@) {
                lemma_unambiguous_regions_within(sequence@, window_size, score_threshold);
                assert forall|q: int| 0 <= q < res@.len() implies (#[trigger] res@[q]).0 < res@[q].1
                    && res@[q].1 <= n by {
                    assert(found[q].0 < found[q].1);
                }
            }
        }
        res
    }

    /// Runs the scan over every position of `sequence` and one past its end.
    fn inner_process(&mut self, sequence: &[u8])
        requires
            old(self).wf(),
            old(self).state() == initial_state(),
            sequence@.len() <= MAX_SEQUENCE_LENGTH,
        ensures
            final(self).wf(),
            final(self).params() == old(self).params(),
            final(self).state() == scan_prefix(
                sequence@,
                old(self).params().0,
                old(self).params().1,
                (sequence@.len() + 1) as nat,
            ).0,
    {
        let n = sequence.len();
        let mut triplet: usize = 0;
        let mut l: usize = 0;
        let mut i: usize = 0;
        while i <= n
            invariant
                self.wf(),
                self.params() == old(self).params(),
                n == sequence@.len(),
                n <= MAX_SEQUENCE_LENGTH,
                i <= n + 1,
                l <= i,
                triplet < NUM_TRIPLETS,
                self.state().window.len() <= i,
                (self.state(), l as int, triplet as int) == scan_prefix(
                    sequence@,
                    self.params().0,
                    self.params().1,
                    i as nat,
                ),
            decreases n + 1 - i,
        {
            let b = if i < n {
                encode_base(sequence[i])
            } else {
                AMBIGUOUS
            };
            assert(b == code_at(sequence@, i as int));
            let next = self.scan_position(b, i, l, triplet);
            l = next.0;
            triplet = next.1;
            i = i + 1;
        }
    }

    /// One position of the scan, with code `b` at position `i`, `l` symbols
    /// since the last ambiguous one and rolling triplet `triplet`.
    fn scan_position(&mut self, b: usize, i: usize, l: usize, triplet: usize) -> (r: (usize, usize))
        requires
            old(self).wf(),
            b <= AMBIGUOUS,
            l <= i,
            i <= MAX_SEQUENCE_LENGTH,
            b < AMBIGUOUS ==> i < MAX_SEQUENCE_LENGTH,
            triplet < NUM_TRIPLETS,
            old(self).state().window.len() <= i,
        ensures
            final(self).wf(),
            final(self).params() == old(self).params(),
            r.0 <= i + 1,
            r.1 < NUM_TRIPLETS,
            final(self).state().window.len() <= i + 1,
            (final(self).state(), r.0 as int, r.1 as int) == step(
                old(self).state(),
                l as int,
                triplet as int,
                b,
                i as int,
                old(self).params().0,
                old(self).params().1,
            ),
    {
        if b < AMBIGUOUS {
            let l = l + 1;
            let triplet = (triplet * 4 + b) % 64;
            if l >= 3 {
                self.advance(i, l, triplet);
            }
            (l, triplet)
        } else {
            let mut window_start: usize = if l > self.window_size - 1 {
                l - self.window_size + 1
            } else {
                0
            };
            window_start = window_start + (i + 1 - l);
            self.drain_pending(window_start);
            (0, 0)
        }
    }

    /// The scan at position `i` within a run of `l >= 3` unambiguous
    /// symbols whose last three form `triplet`.
    fn advance(&mut self, i: usize, l: usize, triplet: usize)
        requires
            old(self).wf(),
            3 <= l <= i + 1,
            i < MAX_SEQUENCE_LENGTH,
            triplet < NUM_TRIPLETS,
            old(self).state().window.len() <= i,
        ensures
            final(self).wf(),
            final(self).params() == old(self).params(),
            final(self).state().window.len() <= i + 1,
            final(self).state() == advance(
                old(self).state(),
                l as int,
                triplet as int,
                i as int,
                old(self).params().0,
                old(self).params().1,
            ),
    {
        let mut window_start: usize = if l > self.window_size {
            l - self.window_size
        } else {
            0
        };
        window_start = window_start + (i + 1 - l);
        self.save_masked_regions(window_start);
        self.shift_window(triplet);
        if mul_wide(self.rw, 10) > mul_wide(
            self.biggest_num_triplets as u64,
            self.score_threshold as u64,
        ) {
            self.find_perfect(window_start);
        }
    }

    /// Flushes with window starts `window_start + 1`, `window_start + 2`,
    /// ... until no candidate is left.
    fn drain_pending(&mut self, window_start: usize)
        requires
            old(self).wf(),
            window_start < POSITION_LIMIT,
        ensures
            final(self).wf(),
            final(self).params() == old(self).params(),
            final(self).state() == drain(old(self).state(), window_start as int),
            final(self).state().window == old(self).state().window,
    {
        let ghost m = self.state();
        let ghost target = drain(m, window_start as int);
        let mut ws = window_start;
        while self.perfect_intervals.len() > 0
            invariant
                self.wf(),
                self.params() == old(self).params(),
                ws <= POSITION_LIMIT,
                self.state().perfect.len() > 0 ==> ws < POSITION_LIMIT,
                drain(self.state(), ws as int) == target,
                self.state().window == m.window,
            decreases POSITION_LIMIT - ws,
        {
            ws = ws + 1;
            self.save_masked_regions(ws);
            proof {
                let p = self.state().perfect;
                if p.len() > 0 {
                    assert(p[p.len() - 1].start < p[p.len() - 1].finish);
                }
            }
        }
    }
}

proof fn lemma_perfect_wf_prefix(p: Seq<PerfectInterval>, q: Seq<PerfectInterval>)
    requires
        perfect_wf(p),
        q.len() <= p.len(),
        forall|k: int| 0 <= k < q.len() ==> q[k] == p[k],
    ensures
        perfect_wf(q),
{
    assert forall|k: int| 0 <= k < q.len() implies (#[trigger] q[k]).start < q[k].finish
        && q[k].finish <= POSITION_LIMIT by {
        assert(q[k] == p[k]);
    }
}

proof fn lemma_perfect_wf_insert(p: Seq<PerfectInterval>, pos: int, np: PerfectInterval)
    requires
        perfect_wf(p),
        0 <= pos <= p.len(),
        np.start < np.finish <= POSITION_LIMIT,
    ensures
        perfect_wf(p.insert(pos, np)),
{
    let q = p.insert(pos, np);
    assert forall|k: int| 0 <= k < q.len() implies (#[trigger] q[k]).start < q[k].finish
        && q[k].finish <= POSITION_LIMIT by {
        if k < pos {
            assert(q[k] == p[k]);
            } else if k > pos {
            assert(q[k] == p[k - 1]);
        }
    }
}

/// The invariant of the scan state for window size `w`.
pub open spec fn state_wf(m: DustState, w: usize) -> bool {
    &&& m.cv.len() == NUM_TRIPLETS
    &&& m.cw.len() == NUM_TRIPLETS
    &&& m.window.len() <= w - 2
    &&& m.window.len() <= MAX_SEQUENCE_LENGTH
    &&& m.big <= m.window.len()
    &&& forall|k: int| 0 <= k < m.window.len() ==> m.window[k] < NUM_TRIPLETS
    &&& forall|t: usize| t < NUM_TRIPLETS ==> m.cw[t as int] == count(m.window, t)
    &&& forall|t: usize| t < NUM_TRIPLETS ==> m.cv[t as int] == count(suffix(m.window, m.big), t)
    &&& m.rw == pairs(m.window)
    &&& m.rv == pairs(suffix(m.window, m.big))
    &&& perfect_wf(m.perfect)
    &&& results_wf(m.results)
}

/// Every candidate is a non-empty, bounded interval.
pub open spec fn perfect_wf(p: Seq<PerfectInterval>) -> bool {
    forall|k: int|
        0 <= k < p.len() ==> (#[trigger] p[k]).start < p[k].finish && p[k].finish <= POSITION_LIMIT
}

/// Results are non-empty, bounded, sorted by start, and separated by gaps.
pub open spec fn results_wf(r: Seq<(usize, usize)>) -> bool {
    &&& forall|k: int| 0 <= k < r.len() ==> #[trigger] r[k].0 < r[k].1 <= POSITION_LIMIT
    &&& forall|k: int| 0 <= k < r.len() - 1 ==> #[trigger] r[k].1 < r[k + 1].0
}

pub proof fn lemma_drop_before(p: Seq<PerfectInterval>, ws: int)
    ensures
        drop_before(p, ws).len() <= p.len(),
        forall|k: int| 0 <= k < drop_before(p, ws).len() ==> drop_before(p, ws)[k] == p[k],
        drop_before(p, ws).len() == 0 || drop_before(p, ws).last().start >= ws,
    decreases p.len(),
{
    if p.len() > 0 && (p.last().start as int) < ws {
        lemma_drop_before(p.drop_last(), ws);
        let d = drop_before(p, ws);
        assert forall|k: int| 0 <= k < d.len() implies d[k] == p[k] by {
            assert(d[k] == p.drop_last()[k]);
        }
    }
}

} // verus!
