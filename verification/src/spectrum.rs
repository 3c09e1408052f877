//! The layout of a single-sided spectrum.
//!
//! A block is padded with zeros to a power of two before it is
//! transformed; the spectrum that is reported covers the lower half of the
//! transform, and its power is summed in eight bands of equal width.

use vstd::prelude::*;

verus! {

/// The number of bands in which the power of a spectrum is summed.
pub const BAND_COUNT: usize = 8;

/// 1, 2, 4, 8, ...
pub open spec fn is_power_of_two(n: int) -> bool
    decreases n,
{
    if n <= 0 {
        false
    } else if n == 1 {
        true
    } else {
        n % 2 == 0 && is_power_of_two(n / 2)
    }
}

/// Whether `r` is the least power of two that is `>= len`.
pub open spec fn is_padded_len(len: int, r: int) -> bool {
    &&& is_power_of_two(r)
    &&& r >= len
    &&& (r == 1 || r / 2 < len)
}

/// Between a number and its double lies at most one power of two: the
/// padded length of a block is unique.
pub proof fn lemma_padded_len_unique(len: int, a: int, b: int)
    requires
        is_padded_len(len, a),
        is_padded_len(len, b),
    ensures
        a == b,
    decreases a + b,
{
    if a != b {
        if a == 1 {
            assert(b / 2 < len <= 1);
            assert(b % 2 == 0);
        } else if b == 1 {
            assert(a / 2 < len <= 1);
            assert(a % 2 == 0);
        } else {
            let half = if len % 2 == 0 {
                len / 2
            } else {
                len / 2 + 1
            };
            lemma_power_of_two_positive(a / 2);
            lemma_power_of_two_positive(b / 2);
            lemma_padded_len_unique(half, a / 2, b / 2);
        }
    }
}

/// A power of two is at least 1.
pub proof fn lemma_power_of_two_positive(n: int)
    requires
        is_power_of_two(n),
    ensures
        n >= 1,
{
}

/// The length to which a block of `len` samples is padded for the
/// transform: the least power of two that is `>= len`, which is 1 for an
/// empty block. `None` where that power is no `usize`.
pub fn fft_len(len: usize) -> (r: Option<usize>)
    ensures
        r is Some <==> len <= usize::MAX / 2 + 1,
        r matches Some(n) ==> is_padded_len(len as int, n as int),
{
    if len > usize::MAX / 2 + 1 {
        return None;
    }
    let mut p: usize = 1;
    while p < len
        invariant
            len <= usize::MAX / 2 + 1,
            p >= 1,
            is_power_of_two(p as int),
            p == 1 || p / 2 < len,
        decreases usize::MAX - p,
    {
        assert(is_power_of_two(2 * p)) by {
            assert((2 * p) / 2 == p);
        }
        p = p * 2;
    }
    Some(p)
}

/// The number of bins of the single-sided spectrum of a transform of
/// length `n`: its lower half.
pub fn spectrum_bins(n: usize) -> (r: usize)
    ensures
        r == n / 2,
{
    n / 2
}

/// The bins of band `band`, as a half-open range, in a spectrum of `bins`
/// bins: the bands are `bins / 8` wide and lie side by side from bin 0.
pub open spec fn band_range(bins: int, band: int) -> (int, int) {
    (band * (bins / 8), (band + 1) * (bins / 8))
}

/// The bands lie side by side, inside the spectrum, and leave out fewer
/// than eight bins at its end.
pub proof fn lemma_bands_tile(bins: int, band: int)
    requires
        bins >= 0,
        0 <= band < 8,
    ensures
        band_range(bins, band).0 <= band_range(bins, band).1 <= bins,
        band < 7 ==> band_range(bins, band).1 == band_range(bins, band + 1).0,
        band_range(bins, 0).0 == 0,
        bins - 8 < band_range(bins, 7).1,
{
    let w = bins / 8;
    assert(band * w <= (band + 1) * w <= 8 * w) by (nonlinear_arith)
        requires
            w >= 0,
            0 <= band < 8,
    ;
}

/// The bins of each of the eight bands, as half-open ranges.
pub fn band_ranges(bins: usize) -> (r: Vec<(usize, usize)>)
    ensures
        r@.len() == BAND_COUNT,
        forall|band: int|
            0 <= band < 8 ==> (#[trigger] r@[band]).0 == band_range(bins as int, band).0
                && r@[band].1 == band_range(bins as int, band).1,
{
    let width: usize = bins / BAND_COUNT;
    let mut out: Vec<(usize, usize)> = Vec::new();
    let mut band: usize = 0;
    while band < BAND_COUNT
        invariant
            band <= 8,
            width == bins / 8,
            out@.len() == band,
            forall|k: int|
                0 <= k < band ==> (#[trigger] out@[k]).0 == band_range(bins as int, k).0
                    && out@[k].1 == band_range(bins as int, k).1,
        decreases 8 - band,
    {
        proof {
            lemma_bands_tile(bins as int, band as int);
        }
        let from: usize = band * width;
        let to: usize = (band + 1) * width;
        out.push((from, to));
        band += 1;
    }
    out
}

} // verus!
