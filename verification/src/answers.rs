//! Functions that answer alike each time they are asked.

use crate::binary32::Binary32;
use crate::level::Complex;
use vstd::prelude::*;

verus! {

/// Whether a function of numbers gives one number for each argument.
pub open spec fn answers_alike<F: Fn(Binary32) -> Binary32>(f: F) -> bool {
    forall|x: Binary32, y: Binary32, z: Binary32|
        #![trigger call_ensures(f, (x,), y), call_ensures(f, (x,), z)]
        call_ensures(f, (x,), y) && call_ensures(f, (x,), z) ==> y == z
}

/// Whether a function of bins gives one number for each bin.
pub open spec fn measures_alike<N: Fn(Complex) -> Binary32>(f: N) -> bool {
    forall|x: Complex, y: Binary32, z: Binary32|
        #![trigger call_ensures(f, (x,), y), call_ensures(f, (x,), z)]
        call_ensures(f, (x,), y) && call_ensures(f, (x,), z) ==> y == z
}

/// Whether a transform of samples gives one spectrum for the same samples.
pub open spec fn transforms_alike<F: Fn(Vec<Binary32>) -> Vec<Complex>>(f: F) -> bool {
    forall|a: Vec<Binary32>, b: Vec<Binary32>, y: Vec<Complex>, z: Vec<Complex>|
        #![trigger call_ensures(f, (a,), y), call_ensures(f, (b,), z)]
        a@ == b@ && call_ensures(f, (a,), y) && call_ensures(f, (b,), z) ==> y@ == z@
}

/// Whether an inverse transform gives the same samples for the same spectrum.
pub open spec fn inverts_alike<F: Fn(Vec<Complex>) -> Vec<Binary32>>(f: F) -> bool {
    forall|a: Vec<Complex>, b: Vec<Complex>, y: Vec<Binary32>, z: Vec<Binary32>|
        #![trigger call_ensures(f, (a,), y), call_ensures(f, (b,), z)]
        a@ == b@ && call_ensures(f, (a,), y) && call_ensures(f, (b,), z) ==> y@ == z@
}

/// Whether samples are all zero.
pub open spec fn all_zero(samples: Seq<Binary32>) -> bool {
    forall|i: int| 0 <= i < samples.len() ==> (#[trigger] samples[i]).code() == 0
}

/// Whether the bins of a spectrum are all zero.
pub open spec fn all_empty(spectrum: Seq<Complex>) -> bool {
    forall|k: int|
        0 <= k < spectrum.len() ==> (#[trigger] spectrum[k]).re.code() == 0
            && spectrum[k].im.code() == 0
}

/// Whether the spectrum of silence is zero.
pub open spec fn transforms_silence<F: Fn(Vec<Binary32>) -> Vec<Complex>>(f: F) -> bool {
    forall|x: Vec<Binary32>, y: Vec<Complex>|
        all_zero(x@) && #[trigger] call_ensures(f, (x,), y) ==> all_empty(y@)
}

/// Whether what a spectrum of zeros comes to is silence.
pub open spec fn inverts_to_silence<F: Fn(Vec<Complex>) -> Vec<Binary32>>(f: F) -> bool {
    forall|x: Vec<Complex>, y: Vec<Binary32>|
        all_empty(x@) && #[trigger] call_ensures(f, (x,), y) ==> all_zero(y@)
}

} // verus!
