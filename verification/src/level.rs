//! How loud frames and spectra are.

use crate::arith::{count, not_a_number, product, quotient, size, square_root, sum, whole};
use crate::binary32::{lemma_mag_order, Binary32, INFINITE};
use crate::blend::zero;
use crate::order::{
    lemma_one, lemma_product, lemma_quotient, lemma_ratio_order, lemma_signed, rounding_keeps_order,
};
use crate::rounding::{ratio, root, rounded};
use crate::spectral_mask::total;
use vstd::arithmetic::power2::pow2;
use vstd::prelude::*;

verus! {

/// One bin of a spectrum.
#[derive(Debug, Clone, Copy, PartialEq, Eq)]
pub struct Complex {
    pub re: Binary32,
    pub im: Binary32,
}

/// The square of the magnitude of a bin.
pub open spec fn power(c: Complex) -> Binary32 {
    sum(product(c.re, c.re), product(c.im, c.im))
}

/// The square root of the mean; zero where there is nothing.
pub open spec fn mean_root(squares: Seq<Binary32>) -> Binary32 {
    if squares.len() == 0 {
        zero()
    } else {
        square_root(quotient(total(squares), count(squares.len())))
    }
}

/// The squares of samples.
pub open spec fn squares_of(frame: Seq<Binary32>) -> Seq<Binary32> {
    Seq::new(frame.len(), |i: int| product(frame[i], frame[i]))
}

/// The squares of the magnitudes of bins.
pub open spec fn powers_of(spectrum: Seq<Complex>) -> Seq<Binary32> {
    Seq::new(spectrum.len(), |i: int| power(spectrum[i]))
}

/// The root mean square of the samples of a frame.
pub fn frame_rms(frame: &[Binary32]) -> (r: Binary32)
    ensures
        r == mean_root(squares_of(frame@)),
{
    let len: usize = frame.len();
    if len == 0 {
        return Binary32 { bits: 0 };
    }
    let mut all = Binary32 { bits: 0 };
    let mut i: usize = 0;
    let ghost squares = squares_of(frame@);
    assert(squares.take(0).len() == 0);
    while i < len
        invariant
            i <= len,
            len == frame@.len(),
            squares == squares_of(frame@),
            all == total(squares.take(i as int)),
        decreases len - i,
    {
        proof {
            let part = squares.take(i + 1);
            assert(part.drop_last() =~= squares.take(i as int));
            assert(part.last() == squares[i as int]);
        }
        all = all.plus(frame[i].times(frame[i]));
        i = i + 1;
    }
    assert(squares.take(len as int) =~= squares);
    all.over(Binary32::of_count(len)).sqrt()
}

/// The root mean square of the magnitudes of a spectrum.
pub fn spectrum_rms(spectrum: &[Complex]) -> (r: Binary32)
    ensures
        r == mean_root(powers_of(spectrum@)),
{
    let len: usize = spectrum.len();
    if len == 0 {
        return Binary32 { bits: 0 };
    }
    let mut all = Binary32 { bits: 0 };
    let mut i: usize = 0;
    let ghost powers = powers_of(spectrum@);
    assert(powers.take(0).len() == 0);
    while i < len
        invariant
            i <= len,
            len == spectrum@.len(),
            powers == powers_of(spectrum@),
            all == total(powers.take(i as int)),
        decreases len - i,
    {
        proof {
            let part = powers.take(i + 1);
            assert(part.drop_last() =~= powers.take(i as int));
            assert(part.last() == powers[i as int]);
        }
        let c = spectrum[i];
        all = all.plus(c.re.times(c.re).plus(c.im.times(c.im)));
        i = i + 1;
    }
    assert(powers.take(len as int) =~= powers);
    all.over(Binary32::of_count(len)).sqrt()
}

/// Whether a number has no sign and, where it is not a number, is the one pattern for that.
pub open spec fn unsigned(x: Binary32) -> bool {
    !x.negative() && (x.nan() ==> x == not_a_number())
}

/// A sum of numbers without a sign has none.
proof fn lemma_unsigned_sum(x: Binary32, y: Binary32)
    requires
        unsigned(x),
        unsigned(y),
    ensures
        unsigned(sum(x, y)),
{
    lemma_one();
    if x.finite() && y.finite() {
        let v = whole(x.value() + y.value());
        lemma_ratio_order(v, 1, v, 1);
        lemma_signed(false, rounded(ratio(v, 1)));
        lemma_signed(false, 0);
    }
}

/// The square of a number has no sign.
proof fn lemma_unsigned_square(x: Binary32)
    ensures
        unsigned(product(x, x)),
{
    lemma_one();
    lemma_signed(false, INFINITE as nat);
    if x.finite() {
        lemma_product(x, x);
    }
}

/// A total of numbers without a sign has none.
proof fn lemma_unsigned_total(s: Seq<Binary32>)
    requires
        forall|i: int| 0 <= i < s.len() ==> unsigned(#[trigger] s[i]),
    ensures
        unsigned(total(s)),
    decreases s.len(),
{
    if s.len() > 0 {
        lemma_unsigned_total(s.drop_last());
        assert(unsigned(s[s.len() - 1]));
        lemma_unsigned_sum(total(s.drop_last()), s.last());
    }
}

/// The root of a mean of numbers without a sign has none.
proof fn lemma_unsigned_root(squares: Seq<Binary32>)
    requires
        forall|i: int| 0 <= i < squares.len() ==> unsigned(#[trigger] squares[i]),
    ensures
        unsigned(mean_root(squares)),
{
    lemma_one();
    if squares.len() > 0 {
        lemma_unsigned_total(squares);
        let t = total(squares);
        let n = squares.len() * pow2(149);
        let d = count(squares.len());
        lemma_ratio_order(n, 1, n, 1);
        lemma_signed(false, rounded(ratio(n, 1)));
        lemma_signed(false, INFINITE as nat);
        lemma_signed(false, 0);
        let q = quotient(t, d);
        assert(unsigned(q)) by {
            lemma_mag_order(0, d.code());
            if t.finite() && d.finite() && size(d) > 0 {
                lemma_quotient(t, d);
            }
        }
        let m = size(q) * pow2(149);
        let x = root(m);
        crate::arith::lemma_root_descends(m);
        assert(x(0) == 4 * m - 0 * 0);
        rounding_keeps_order(x, x);
        lemma_signed(false, rounded(x));
    }
}

/// The loudness of a spectrum has no sign, whatever the bins hold.
pub proof fn loudness_has_no_sign(spectrum: Seq<Complex>)
    ensures
        unsigned(mean_root(powers_of(spectrum))),
{
    let powers = powers_of(spectrum);
    assert forall|i: int| 0 <= i < powers.len() implies unsigned(#[trigger] powers[i]) by {
        let c = spectrum[i];
        lemma_unsigned_square(c.re);
        lemma_unsigned_square(c.im);
        lemma_unsigned_sum(product(c.re, c.re), product(c.im, c.im));
    }
    lemma_unsigned_root(powers);
}

} // verus!
