//! Input validation, the masker object, and the masking transform.
use vstd::prelude::*;

use crate::sdust::{
    dust_intervals, ordered_disjoint, within_bounds, SymmetricDust, MAX_SEQUENCE_LENGTH,
};

verus! {

/// The shortest sequence the masker accepts.
pub const MIN_SEQUENCE_LENGTH: usize = 4;

/// The smallest window size the masker accepts.
pub const MIN_WINDOW_SIZE: usize = 3;

/// The byte that hard masking writes (`N`).
pub const UNKNOWN_BASE: u8 = 78;

/// Why the masker refused its input; each variant carries the value seen.
#[derive(Debug, Clone, Copy, PartialEq, Eq, Structural)]
pub enum InputError {
    /// The sequence is shorter than [`MIN_SEQUENCE_LENGTH`].
    SequenceLengthError(usize),
    /// The window size is under [`MIN_WINDOW_SIZE`].
    WindowSizeError(usize),
    /// The sequence is longer than [`MAX_SEQUENCE_LENGTH`].
    SequenceLimitError(usize),
}

/// The outcome of validating a sequence of length `len` and a window size.
pub open spec fn validation(len: int, window_size: usize) -> Result<(), InputError> {
    if len < MIN_SEQUENCE_LENGTH {
        Err(InputError::SequenceLengthError(len as usize))
    } else if window_size < MIN_WINDOW_SIZE {
        Err(InputError::WindowSizeError(window_size))
    } else if len > MAX_SEQUENCE_LENGTH {
        Err(InputError::SequenceLimitError(len as usize))
    } else {
        Ok(())
    }
}

/// Checks the sequence length first, then the window size.
pub fn validate_inputs(sequence: &[u8], window_size: usize) -> (r: Result<(), InputError>)
    ensures
        r == validation(sequence@.len() as int, window_size),
{
    if sequence.len() < MIN_SEQUENCE_LENGTH {
        return Err(InputError::SequenceLengthError(sequence.len()));
    }
    if window_size < MIN_WINDOW_SIZE {
        return Err(InputError::WindowSizeError(window_size));
    }
    if sequence.len() > MAX_SEQUENCE_LENGTH {
        return Err(InputError::SequenceLimitError(sequence.len()));
    }
    Ok(())
}

/// The lower-case form of an ASCII letter; other bytes are unchanged.
pub open spec fn lower(b: u8) -> u8 {
    if 65 <= b <= 90 {
        (b + 32) as u8
    } else {
        b
    }
}

/// The upper-case form of an ASCII letter; other bytes are unchanged.
pub open spec fn upper(b: u8) -> u8 {
    if 97 <= b <= 122 {
        (b - 32) as u8
    } else {
        b
    }
}

/// Whether one of the first `q` intervals of `iv` holds position `k`.
pub open spec fn covered(iv: Seq<(usize, usize)>, q: int, k: int) -> bool
    decreases q,
{
    if q <= 0 {
        false
    } else {
        covered(iv, q - 1, k) || (iv[q - 1].0 <= k < iv[q - 1].1)
    }
}

/// Byte `k` of `s` after masking the intervals `iv`: `N` (hard) or lower
/// case (soft) inside an interval, unchanged outside.
pub open spec fn masked_byte(s: Seq<u8>, iv: Seq<(usize, usize)>, k: int, hard: bool) -> u8 {
    if covered(iv, iv.len() as int, k) {
        if hard {
            UNKNOWN_BASE
        } else {
            lower(s[k])
        }
    } else {
        s[k]
    }
}

/// The number of positions in an interval; none when it is empty.
pub open spec fn span(i: (usize, usize)) -> int {
    if i.0 < i.1 {
        i.1 - i.0
    } else {
        0
    }
}

/// The sum of the spans of the first `q` intervals.
pub open spec fn total_span(iv: Seq<(usize, usize)>, q: int) -> int
    decreases q,
{
    if q <= 0 {
        0
    } else {
        total_span(iv, q - 1) + span(iv[q - 1])
    }
}

/// Soft masking then upper-casing gives back a sequence that holds no
/// lower-case letter.
pub proof fn lemma_soft_mask_round_trip(s: Seq<u8>, iv: Seq<(usize, usize)>)
    requires
        forall|k: int| 0 <= k < s.len() ==> upper(#[trigger] s[k]) == s[k],
    ensures
        Seq::new(s.len(), |k: int| upper(masked_byte(s, iv, k, false))) == s,
{
    assert(Seq::new(s.len(), |k: int| upper(masked_byte(s, iv, k, false))) =~= s);
}

/// The number of positions below `n` that one of the first `q` intervals
/// of `iv` covers.
pub open spec fn covered_count(iv: Seq<(usize, usize)>, q: int, n: int) -> int
    decreases n,
{
    if n <= 0 {
        0
    } else {
        covered_count(iv, q, n - 1) + if covered(iv, q, n - 1) { 1int } else { 0int }
    }
}

/// The number of positions below `n` in the interval `i`.
pub open spec fn count_in(i: (usize, usize), n: int) -> int
    decreases n,
{
    if n <= 0 {
        0
    } else {
        count_in(i, n - 1) + if i.0 <= n - 1 < i.1 { 1int } else { 0int }
    }
}

proof fn lemma_count_in(i: (usize, usize), n: int)
    requires
        0 <= n,
    ensures
        count_in(i, n) == if i.0 < n && i.0 < i.1 {
            (if i.1 <= n { i.1 as int } else { n }) - i.0
        } else {
            0
        },
    decreases n,
{
    if n > 0 {
        lemma_count_in(i, n - 1);
    }
}

/// In sorted, separated intervals, what the first `q` cover lies before
/// the start of interval `q`.
proof fn lemma_covered_before(iv: Seq<(usize, usize)>, q: int, k: int)
    requires
        ordered_disjoint(iv),
        0 <= q < iv.len(),
        covered(iv, q, k),
    ensures
        k < iv[q].0,
    decreases q,
{
    assert(iv[q - 1].0 < iv[q].0 && iv[q - 1].1 < iv[q].0);
    if covered(iv, q - 1, k) {
        lemma_covered_before(iv, q - 1, k);
    }
}

proof fn lemma_covered_count_step(iv: Seq<(usize, usize)>, q: int, n: int)
    requires
        ordered_disjoint(iv),
        0 <= q < iv.len(),
        0 <= n,
    ensures
        covered_count(iv, q + 1, n) == covered_count(iv, q, n) + count_in(iv[q], n),
    decreases n,
{
    if n > 0 {
        lemma_covered_count_step(iv, q, n - 1);
        if covered(iv, q, n - 1) {
            lemma_covered_before(iv, q, n - 1);
        }
    }
}

proof fn lemma_covered_count_total(iv: Seq<(usize, usize)>, q: int, n: int)
    requires
        ordered_disjoint(iv),
        within_bounds(iv, n),
        0 <= q <= iv.len(),
        0 <= n,
    ensures
        covered_count(iv, q, n) == total_span(iv, q),
    decreases q,
{
    if q == 0 {
        lemma_covered_count_zero(iv, n);
    } else {
        lemma_covered_count_total(iv, q - 1, n);
        lemma_covered_count_step(iv, q - 1, n);
        lemma_count_in(iv[q - 1], n);
        assert(iv[q - 1].1 <= n);
    }
}

proof fn lemma_covered_count_zero(iv: Seq<(usize, usize)>, n: int)
    ensures
        covered_count(iv, 0, n) == 0,
    decreases n,
{
    if n > 0 {
        lemma_covered_count_zero(iv, n - 1);
    }
}

/// Hard masking writes `N` at every covered position and leaves every
/// other position as it was; for sorted, separated regions within the
/// sequence, the covered positions number exactly the sum of the spans of
/// the regions, which is what `n_masked_bases` returns.
pub proof fn lemma_hard_mask_count(s: Seq<u8>, iv: Seq<(usize, usize)>)
    requires
        ordered_disjoint(iv),
        within_bounds(iv, s.len() as int),
    ensures
        covered_count(iv, iv.len() as int, s.len() as int) == total_span(iv, iv.len() as int),
        forall|k: int|
            0 <= k < s.len() && covered(iv, iv.len() as int, k) ==> #[trigger] masked_byte(
                s,
                iv,
                k,
                true,
            ) == UNKNOWN_BASE,
        forall|k: int|
            0 <= k < s.len() && !covered(iv, iv.len() as int, k) ==> #[trigger] masked_byte(
                s,
                iv,
                k,
                true,
            ) == s[k],
{
    lemma_covered_count_total(iv, iv.len() as int, s.len() as int);
}

/// The lower-case form of an ASCII letter.
pub fn ascii_lower(b: u8) -> (r: u8)
    ensures
        r == lower(b),
{
    if 65 <= b && b <= 90 {
        b + 32
    } else {
        b
    }
}

/// A sequence with its low-complexity regions.
pub struct DustMasker {
    sequence: Vec<u8>,
    window_size: usize,
    score_threshold: usize,
    intervals: Vec<(usize, usize)>,
}

impl DustMasker {
    /// The regions are those of the scan of the sequence.
    pub closed spec fn wf(&self) -> bool {
        &&& self.window_size >= MIN_WINDOW_SIZE
        &&& self.intervals@ == dust_intervals(self.sequence@, self.window_size, self.score_threshold)
        &&& ordered_disjoint(self.intervals@)
        &&& within_bounds(self.intervals@, self.sequence@.len() as int)
    }

    pub closed spec fn sequence_view(&self) -> Seq<u8> {
        self.sequence@
    }

    pub closed spec fn window_size_view(&self) -> usize {
        self.window_size
    }

    pub closed spec fn score_threshold_view(&self) -> usize {
        self.score_threshold
    }

    pub closed spec fn intervals_view(&self) -> Seq<(usize, usize)> {
        self.intervals@
    }

    /// Validates the input and scans the sequence; fails exactly as
    /// [`validation`] says.
    pub fn new(sequence: Vec<u8>, window_size: usize, score_threshold: usize) -> (r: Result<
        DustMasker,
        InputError,
    >)
        ensures
            match r {
                Ok(m) => {
                    &&& validation(sequence@.len() as int, window_size) is Ok
                    &&& m.wf()
                    &&& m.sequence_view() == sequence@
                    &&& m.window_size_view() == window_size
                    &&& m.score_threshold_view() == score_threshold
                    &&& m.intervals_view() == dust_intervals(sequence@, window_size, score_threshold)
                },
                Err(e) => validation(sequence@.len() as int, window_size) == Err::<(), InputError>(e),
            },
    {
        match validate_inputs(sequence.as_slice(), window_size) {
            Err(e) => Err(e),
            Ok(()) => {
                let intervals = SymmetricDust::process(sequence.as_slice(), window_size, score_threshold);
                Ok(DustMasker { sequence, window_size, score_threshold, intervals })
            },
        }
    }

    pub fn sequence(&self) -> (r: &Vec<u8>)
        ensures
            r@ == self.sequence_view(),
    {
        &self.sequence
    }

    pub fn window_size(&self) -> (r: usize)
        ensures
            r == self.window_size_view(),
    {
        self.window_size
    }

    pub fn score_threshold(&self) -> (r: usize)
        ensures
            r == self.score_threshold_view(),
    {
        self.score_threshold
    }

    pub fn intervals(&self) -> (r: &Vec<(usize, usize)>)
        ensures
            r@ == self.intervals_view(),
    {
        &self.intervals
    }

    /// The total number of masked positions: the sum of the spans of the
    /// regions.
    pub fn n_masked_bases(&self) -> (r: usize)
        requires
            self.wf(),
        ensures
            r == total_span(self.intervals_view(), self.intervals_view().len() as int),
    {
        let iv = &self.intervals;
        let n = iv.len();
        let mut total: usize = 0;
        let mut q: usize = 0;
        while q < n
            invariant
                n == iv@.len(),
                q <= n,
                ordered_disjoint(iv@),
                total == total_span(iv@, q as int),
                q < n ==> total <= iv@[q as int].0,
            decreases n - q,
        {
            let (start, end) = iv[q];
            if start < end {
                total = total + (end - start);
            }
            proof {
                if q + 1 < n {
                    assert(iv@[q as int].0 < iv@[q + 1].0 && iv@[q as int].1 < iv@[q + 1].0);
                }
            }
            q = q + 1;
        }
        total
    }

    /// The sequence with every region masked: replaced by `N` when `hard`,
    /// else lower-cased.
    pub fn mask(&self, hard: bool) -> (r: Vec<u8>)
        ensures
            r@.len() == self.sequence_view().len(),
            forall|k: int|
                0 <= k < r@.len() ==> #[trigger] r@[k] == masked_byte(
                    self.sequence_view(),
                    self.intervals_view(),
                    k,
                    hard,
                ),
    {
        let s = &self.sequence;
        let iv = &self.intervals;
        let len = s.len();
        let mut out: Vec<u8> = s.clone();
        proof {
            assert(out@ =~= s@);
        }
        let mut q: usize = 0;
        while q < iv.len()
            invariant
                q <= iv@.len(),
                len == s@.len(),
                out@.len() == len,
                forall|k: int|
                    0 <= k < len ==> #[trigger] out@[k] == if covered(iv@, q as int, k) {
                        if hard {
                            UNKNOWN_BASE
                        } else {
                            lower(s@[k])
                        }
                    } else {
                        s@[k]
                    },
            decreases iv@.len() - q,
        {
            let (start, end) = iv[q];
            let stop = if end < len { end } else { len };
            let mut p: usize = start;
            while p < stop
                invariant
                    q < iv@.len(),
                    (start, end) == iv@[q as int],
                    stop <= len,
                    start <= p,
                    p <= if start <= stop { stop } else { start },
                    len == s@.len(),
                    out@.len() == len,
                    forall|k: int|
                        0 <= k < len ==> #[trigger] out@[k] == if covered(iv@, q as int, k) || (
                        start <= k < p) {
                            if hard {
                                UNKNOWN_BASE
                            } else {
                                lower(s@[k])
                            }
                        } else {
                            s@[k]
                        },
                decreases stop - p,
            {
                let b = if hard {
                    UNKNOWN_BASE
                } else {
                    ascii_lower(s[p])
                };
                out.set(p, b);
                p = p + 1;
            }
            proof {
                assert forall|k: int| 0 <= k < len implies covered(iv@, q + 1, k) == (covered(
                    iv@,
                    q as int,
                    k,
                ) || (start <= k < p)) by {}
            }
            q = q + 1;
        }
        out
    }
}

} // verus!
