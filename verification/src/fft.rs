//! Windowed frames, their spectra, and the sum of overlapping frames.

use crate::arith::{count, difference, product, quotient, size, sum};
use crate::binary32::{lemma_mag_code, lemma_mag_order, mag, Binary32, ONE};
use crate::blend::{is_share, lemma_share_product, one};
use crate::config::HALF;
use crate::level::Complex;
use crate::order::{
    lemma_near_exact, lemma_near_order, lemma_one, lemma_product, lemma_product_order,
    lemma_ratio_exact, lemma_sum,
};
use crate::spectral_mask::{bins, TWO};
use vstd::arithmetic::power2::{lemma2_to64, lemma_pow2_adds, lemma_pow2_unfold, pow2};
use vstd::prelude::*;

verus! {

/// The bit pattern of the full circle.
pub const FULL_CIRCLE: u32 = 0x40c9_0fdb;

/// The phase of a sample in a window.
pub open spec fn phase(n: int, size: nat) -> Binary32 {
    quotient(
        product(Binary32 { bits: FULL_CIRCLE }, count(n as nat)),
        count((size - 1) as nat),
    )
}

/// The Hann window at a sample, by the cosine of its phase.
pub open spec fn hann(cosine: Binary32) -> Binary32 {
    product(Binary32 { bits: HALF }, difference(one(), cosine))
}

/// Whether a window is a Hann window, by what a cosine function gave for each phase.
pub open spec fn is_hann_window<C: Fn(Binary32) -> Binary32>(
    window: Seq<Binary32>,
    cos: C,
) -> bool {
    forall|n: int|
        0 <= n < window.len() ==> hann_at(#[trigger] window[n], n, window.len(), cos)
}

/// Whether a value is the Hann window at a sample.
pub open spec fn hann_at<C: Fn(Binary32) -> Binary32>(
    value: Binary32,
    n: int,
    size: nat,
    cos: C,
) -> bool {
    exists|c: Binary32| #[trigger] call_ensures(cos, (phase(n, size),), c) && value == hann(c)
}

/// The Hann window of a size. `cos` gives the cosine of its argument.
fn hann_window<C: Fn(Binary32) -> Binary32>(size: usize, cos: C) -> (r: Vec<Binary32>)
    requires
        forall|x: Binary32| #[trigger] call_requires(cos, (x,)),
    ensures
        r@.len() == size,
        is_hann_window(r@, cos),
{
    let mut window: Vec<Binary32> = Vec::new();
    while window.len() < size
        invariant
            window.len() <= size,
            forall|x: Binary32| #[trigger] call_requires(cos, (x,)),
            forall|n: int|
                0 <= n < window.len() ==> hann_at(#[trigger] window@[n], n, size as nat, cos),
        decreases size - window.len(),
    {
        let n: usize = window.len();
        let angle = (Binary32 { bits: FULL_CIRCLE }).times(Binary32::of_count(n)).over(
            Binary32::of_count(size - 1),
        );
        let cosine = cos(angle);
        assert(angle == phase(n as int, size as nat));
        let value = (Binary32 { bits: HALF }).times((Binary32 { bits: ONE }).minus(cosine));
        assert(hann_at(value, n as int, size as nat, cos));
        window.push(value);
    }
    window
}

/// A frame with a window applied.
pub open spec fn windowed(frame: Seq<Binary32>, window: Seq<Binary32>) -> Seq<Binary32> {
    Seq::new(frame.len(), |i: int| product(frame[i], window[i]))
}

/// What a synthesised sample adds to the output: normalised and windowed once more.
pub open spec fn contribution(
    piece: Seq<Binary32>,
    window: Seq<Binary32>,
    i: int,
) -> Binary32 {
    product(product(piece[i], quotient(one(), count(window.len()))), window[i])
}

/// An output with a synthesised frame added from a position on. What would lie behind its end
/// is dropped.
pub open spec fn overlap_added(
    accum: Seq<Binary32>,
    piece: Seq<Binary32>,
    window: Seq<Binary32>,
    position: nat,
) -> Seq<Binary32> {
    Seq::new(
        accum.len(),
        |j: int|
            if position <= j < position + window.len() {
                sum(accum[j], contribution(piece, window, j - position))
            } else {
                accum[j]
            },
    )
}

/// Weights with the squares of a window added from a position on: what a frame of ones would
/// come to after it was cut out and added up again.
pub open spec fn weights_added(
    weights: Seq<Binary32>,
    window: Seq<Binary32>,
    position: nat,
) -> Seq<Binary32> {
    Seq::new(
        weights.len(),
        |j: int|
            if position <= j < position + window.len() {
                sum(weights[j], product(window[j - position], window[j - position]))
            } else {
                weights[j]
            },
    )
}

/// Cuts frames with a window and adds them up again.
#[derive(Debug)]
pub struct OverlapAddProcessor {
    window: Vec<Binary32>,
}

impl View for OverlapAddProcessor {
    type V = Seq<Binary32>;

    /// The window.
    closed spec fn view(&self) -> Seq<Binary32> {
        self.window@
    }
}

impl OverlapAddProcessor {
    /// A processor of frames of a size. `cos` gives the cosine of its argument.
    pub fn new<C: Fn(Binary32) -> Binary32>(fft_size: usize, cos: C) -> (r: Self)
        requires
            forall|x: Binary32| #[trigger] call_requires(cos, (x,)),
        ensures
            r@.len() == fft_size,
            is_hann_window(r@, cos),
    {
        OverlapAddProcessor { window: hann_window(fft_size, cos) }
    }

    /// The samples in a frame.
    pub fn fft_size(&self) -> (r: usize)
        ensures
            r == self@.len(),
    {
        self.window.len()
    }

    /// How many bins a frame's spectrum has.
    pub fn spectrum_len(&self) -> (r: usize)
        ensures
            r == bins(self@.len() as usize),
    {
        self.window.len() / 2 + 1
    }

    /// A frame with the window applied.
    pub fn apply_window(&self, input_frame: &[Binary32]) -> (r: Vec<Binary32>)
        requires
            input_frame@.len() == self@.len(),
        ensures
            r@ == windowed(input_frame@, self@),
    {
        let mut out: Vec<Binary32> = Vec::new();
        while out.len() < input_frame.len()
            invariant
                input_frame@.len() == self@.len(),
                out.len() <= input_frame@.len(),
                forall|i: int| 0 <= i < out.len() ==> out[i] == product(input_frame@[i], self@[i]),
            decreases input_frame@.len() - out.len(),
        {
            let i: usize = out.len();
            out.push(input_frame[i].times(self.window[i]));
        }
        assert(out@ =~= windowed(input_frame@, self@));
        out
    }

    /// Applies the window and gives the spectrum. `forward` gives the spectrum of real samples.
    pub fn process_frame<F: Fn(Vec<Binary32>) -> Vec<Complex>>(
        &self,
        input_frame: &[Binary32],
        forward: F,
    ) -> (r: Vec<Complex>)
        requires
            input_frame@.len() == self@.len(),
            forall|x: Vec<Binary32>|
                x@.len() == self@.len() ==> #[trigger] call_requires(forward, (x,)),
        ensures
            spectrum_found(forward, windowed(input_frame@, self@), r),
    {
        let frame = self.apply_window(input_frame);
        forward(frame)
    }

    /// Adds a synthesised frame to the output, from a position on.
    pub fn overlap_add(&self, piece: &[Binary32], output_accum: &mut [Binary32], position: usize)
        requires
            piece@.len() == self@.len(),
        ensures
            final(output_accum)@ == overlap_added(
                old(output_accum)@,
                piece@,
                self@,
                position as nat,
            ),
    {
        let ghost before = output_accum@;
        let size: usize = self.window.len();
        let norm = (Binary32 { bits: ONE }).over(Binary32::of_count(size));
        let mut i: usize = 0;
        while i < size && position < output_accum.len() && i < output_accum.len() - position
            invariant
                i <= size,
                size == self@.len(),
                piece@.len() == size,
                norm == quotient(one(), count(size as nat)),
                output_accum@.len() == before.len(),
                position < before.len() ==> position + i <= before.len(),
                forall|j: int|
                    0 <= j < before.len() ==> output_accum@[j] == if position <= j < position + i {
                        sum(before[j], contribution(piece@, self@, j - position))
                    } else {
                        before[j]
                    },
            decreases size - i,
        {
            let at: usize = position + i;
            let value = piece[i].times(norm).times(self.window[i]);
            output_accum[at] = output_accum[at].plus(value);
            i = i + 1;
        }
        assert(output_accum@ =~= overlap_added(before, piece@, self@, position as nat));
    }

    /// Adds the squares of the window to weights, from a position on.
    pub fn add_weights(&self, weights: &mut [Binary32], position: usize)
        ensures
            final(weights)@ == weights_added(old(weights)@, self@, position as nat),
    {
        let ghost before = weights@;
        let size: usize = self.window.len();
        let mut i: usize = 0;
        while i < size && position < weights.len() && i < weights.len() - position
            invariant
                i <= size,
                size == self@.len(),
                weights@.len() == before.len(),
                position < before.len() ==> position + i <= before.len(),
                forall|j: int|
                    0 <= j < before.len() ==> weights@[j] == if position <= j < position + i {
                        sum(before[j], product(self@[j - position], self@[j - position]))
                    } else {
                        before[j]
                    },
            decreases size - i,
        {
            let at: usize = position + i;
            let w = self.window[i];
            weights[at] = weights[at].plus(w.times(w));
            i = i + 1;
        }
        assert(weights@ =~= weights_added(before, self@, position as nat));
    }

    /// Makes a frame of a spectrum and adds it to the output, from a position on. `inverse`
    /// gives the samples of a spectrum, not normalised.
    pub fn synthesize<I: Fn(Vec<Complex>) -> Vec<Binary32>>(
        &self,
        spectrum: Vec<Complex>,
        output_accum: &mut [Binary32],
        position: usize,
        inverse: I,
    )
        requires
            call_requires(inverse, (spectrum,)),
            forall|y: Vec<Binary32>| #[trigger]
                call_ensures(inverse, (spectrum,), y) ==> y@.len() == self@.len(),
        ensures
            exists|y: Vec<Binary32>| #[trigger]
                call_ensures(inverse, (spectrum,), y) && final(output_accum)@ == overlap_added(
                    old(output_accum)@,
                    y@,
                    self@,
                    position as nat,
                ),
    {
        let piece = inverse(spectrum);
        self.overlap_add(piece.as_slice(), output_accum, position);
    }
}

/// Whether a spectrum is what a function gave for some samples.
pub open spec fn spectrum_found<F: Fn(Vec<Binary32>) -> Vec<Complex>>(
    forward: F,
    samples: Seq<Binary32>,
    spectrum: Vec<Complex>,
) -> bool {
    exists|x: Vec<Binary32>| #[trigger]
        call_ensures(forward, (x,), spectrum) && x@ == samples
}

/// Where a cosine lies between minus one and one, the window lies between zero and one.
pub proof fn window_lies_between_zero_and_one(cosine: Binary32)
    requires
        cosine.finite(),
        size(cosine) <= one().value(),
    ensures
        is_share(hann(cosine)),
{
    lemma_one();
    lemma2_to64();
    let half = Binary32 { bits: HALF };
    let two = Binary32 { bits: TWO };
    let u = pow2(149);
    lemma_mag_code(125, 0x80_0000);
    lemma_mag_code(127, 0x80_0000);
    lemma_pow2_adds(23, 125);
    lemma_pow2_adds(23, 127);
    lemma_pow2_unfold(149);
    lemma_pow2_unfold(150);
    let t = cosine.turned();
    assert(t.code() == cosine.code());
    let d = difference(one(), cosine);
    lemma_sum(one(), t);
    let v = one().value() + t.value();
    lemma_near_order(0, v);
    lemma_near_order(v, mag(TWO as nat) as int);
    lemma_near_exact(0);
    lemma_near_exact(TWO as nat);
    lemma_mag_order(0, d.code());
    lemma_mag_order(d.code(), TWO as nat);
    lemma_product_order(half, d, half, two);
    lemma_product(half, two);
    assert(size(half) * size(two) == u * u) by (nonlinear_arith)
        requires
            2 * size(half) == u,
            size(two) == 2 * u,
    ;
    lemma_ratio_exact(ONE as nat, u);
    lemma_share_product(half, d);
}

/// Whether an inverse undoes a transform of frames of a size: what it gives, normalised, are
/// the samples that were transformed.
pub open spec fn undone_by<
    F: Fn(Vec<Binary32>) -> Vec<Complex>,
    I: Fn(Vec<Complex>) -> Vec<Binary32>,
>(forward: F, inverse: I, size: nat) -> bool {
    forall|x: Vec<Binary32>, s: Vec<Complex>, y: Vec<Binary32>|
        #![trigger call_ensures(forward, (x,), s), call_ensures(inverse, (s,), y)]
        x@.len() == size && call_ensures(forward, (x,), s) && call_ensures(inverse, (s,), y)
            ==> normalised(y@, size) == x@
}

/// Samples that an inverse transform gave, normalised.
pub open spec fn normalised(piece: Seq<Binary32>, size: nat) -> Seq<Binary32> {
    Seq::new(piece.len(), |i: int| product(piece[i], quotient(one(), count(size))))
}

/// A frame that is taken apart and put together again adds each sample times the square of the
/// window to the output, where the inverse undoes the transform.
pub proof fn frames_come_back<
    F: Fn(Vec<Binary32>) -> Vec<Complex>,
    I: Fn(Vec<Complex>) -> Vec<Binary32>,
>(
    forward: F,
    inverse: I,
    frame: Seq<Binary32>,
    window: Seq<Binary32>,
    spectrum: Vec<Complex>,
    piece: Vec<Binary32>,
    accum: Seq<Binary32>,
    position: nat,
)
    requires
        undone_by(forward, inverse, window.len()),
        frame.len() == window.len(),
        spectrum_found(forward, windowed(frame, window), spectrum),
        call_ensures(inverse, (spectrum,), piece),
    ensures
        overlap_added(accum, piece@, window, position) == Seq::new(
            accum.len(),
            |j: int|
                if position <= j < position + window.len() {
                    let i = j - position;
                    sum(accum[j], product(product(frame[i], window[i]), window[i]))
                } else {
                    accum[j]
                },
        ),
{
    let x = choose|x: Vec<Binary32>| #[trigger]
        call_ensures(forward, (x,), spectrum) && x@ == windowed(frame, window);
    assert(normalised(piece@, window.len()) == x@);
    assert forall|i: int| 0 <= i < window.len() implies #[trigger] contribution(
        piece@,
        window,
        i,
    ) == product(product(frame[i], window[i]), window[i]) by {
        assert(normalised(piece@, window.len())[i] == windowed(frame, window)[i]);
    }
    assert(overlap_added(accum, piece@, window, position) =~= Seq::new(
        accum.len(),
        |j: int|
            if position <= j < position + window.len() {
                let i = j - position;
                sum(accum[j], product(product(frame[i], window[i]), window[i]))
            } else {
                accum[j]
            },
    ));
}

} // verus!
