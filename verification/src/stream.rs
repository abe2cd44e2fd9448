//! Samples in windows, in channels and in files.

use crate::arith::{count, quotient, size};
use crate::binary32::{lemma_mag_order, Binary32};
use crate::blend::{one, zero};
use crate::config::{lemma_count_of_power, power_of_two};
use crate::order::{
    lemma_one, lemma_quotient, lemma_quotient_below, lemma_ratio_order, lemma_signed,
};
use vstd::arithmetic::power2::{lemma2_to64, lemma_pow2_strictly_increases, pow2};
use vstd::bits::{lemma_u32_pow2_no_overflow, lemma_u32_shl_is_mul};
use vstd::prelude::*;

verus! {

/// Silence of a length.
pub open spec fn silent(len: nat) -> Seq<Binary32> {
    Seq::new(len, |i: int| zero())
}

/// Silence of a length.
pub fn silence(len: usize) -> (r: Vec<Binary32>)
    ensures
        r@ == silent(len as nat),
{
    let mut v: Vec<Binary32> = Vec::new();
    while v.len() < len
        invariant
            v.len() <= len,
            forall|i: int| 0 <= i < v.len() ==> v[i] == zero(),
        decreases len - v.len(),
    {
        v.push(Binary32 { bits: 0 });
    }
    assert(v@ =~= silent(len as nat));
    v
}

/// A window after a chunk came in: as many samples as came in have left at the front.
pub open spec fn appended(window: Seq<Binary32>, chunk: Seq<Binary32>) -> Seq<Binary32> {
    window.skip(chunk.len() as int) + chunk
}

/// Shifts a window to the left by the length of a chunk and appends the chunk at the end.
pub fn shift_and_append(window: &mut [Binary32], chunk: &[Binary32])
    requires
        chunk@.len() <= old(window)@.len(),
    ensures
        final(window)@ == appended(old(window)@, chunk@),
{
    let ghost before = window@;
    let len: usize = window.len();
    let n: usize = chunk.len();
    let kept: usize = len - n;
    let mut i: usize = 0;
    while i < len
        invariant
            i <= len,
            len == before.len(),
            len == window@.len(),
            n == chunk@.len(),
            kept == len - n,
            forall|j: int| 0 <= j < i ==> window@[j] == appended(before, chunk@)[j],
            forall|j: int| i <= j < len ==> window@[j] == before[j],
        decreases len - i,
    {
        if i < kept {
            window[i] = window[i + n];
        } else {
            window[i] = chunk[i - kept];
        }
        i = i + 1;
    }
    assert(window@ =~= appended(before, chunk@));
}

/// Shifts an accumulator to the left by the samples that were taken from it; silence follows.
pub fn shift_out(accum: &mut [Binary32], taken: usize)
    requires
        taken <= old(accum)@.len(),
    ensures
        final(accum)@ == appended(old(accum)@, silent(taken as nat)),
{
    let empty = silence(taken);
    shift_and_append(accum, empty.as_slice());
}

/// Two channels as one stream, sample by sample.
pub open spec fn interleaved(left: Seq<Binary32>, right: Seq<Binary32>) -> Seq<Binary32> {
    Seq::new(
        2 * left.len(),
        |i: int|
            if i % 2 == 0 {
                left[i / 2]
            } else {
                right[i / 2]
            },
    )
}

/// One channel of a stream of interleaved bit patterns: the left one at 0, the right one at 1.
pub open spec fn channel_of(items: Seq<u32>, channel: int) -> Seq<Binary32> {
    Seq::new(items.len() / 2, |i: int| Binary32 { bits: items[2 * i + channel] })
}

/// Makes one stream of two channels.
pub fn interleave(left: &[Binary32], right: &[Binary32]) -> (r: Vec<Binary32>)
    requires
        left@.len() == right@.len(),
    ensures
        r@ == interleaved(left@, right@),
{
    let mut out: Vec<Binary32> = Vec::new();
    let mut i: usize = 0;
    while i < left.len()
        invariant
            i <= left@.len(),
            left@.len() == right@.len(),
            out@.len() == 2 * i,
            forall|j: int| 0 <= j < out@.len() ==> out@[j] == interleaved(left@, right@)[j],
        decreases left@.len() - i,
    {
        out.push(left[i]);
        out.push(right[i]);
        i = i + 1;
    }
    assert(out@ =~= interleaved(left@, right@));
    out
}

/// Takes one stream apart into two channels.
pub fn deinterleave(items: &[u32]) -> (r: (Vec<Binary32>, Vec<Binary32>))
    ensures
        r.0@ == channel_of(items@, 0),
        r.1@ == channel_of(items@, 1),
{
    let half: usize = items.len() / 2;
    let mut left: Vec<Binary32> = Vec::new();
    let mut right: Vec<Binary32> = Vec::new();
    let mut i: usize = 0;
    while i < half
        invariant
            i <= half,
            half == items@.len() / 2,
            items@.len() <= usize::MAX,
            left@.len() == i,
            right@.len() == i,
            forall|j: int| 0 <= j < i ==> left@[j] == channel_of(items@, 0)[j],
            forall|j: int| 0 <= j < i ==> right@[j] == channel_of(items@, 1)[j],
        decreases half - i,
    {
        left.push(Binary32 { bits: items[2 * i] });
        right.push(Binary32 { bits: items[2 * i + 1] });
        i = i + 1;
    }
    assert(left@ =~= channel_of(items@, 0));
    assert(right@ =~= channel_of(items@, 1));
    (left, right)
}

/// What was made one stream comes apart again as it was.
pub proof fn interleaving_comes_apart(left: Seq<Binary32>, right: Seq<Binary32>)
    requires
        left.len() == right.len(),
    ensures
        channel_of(crate::ring::patterns(interleaved(left, right)), 0) == left,
        channel_of(crate::ring::patterns(interleaved(left, right)), 1) == right,
{
    let items = crate::ring::patterns(interleaved(left, right));
    assert forall|i: int| 0 <= i < left.len() implies channel_of(items, 0)[i] == left[i]
        && channel_of(items, 1)[i] == right[i] by {
        assert((2 * i) % 2 == 0 && (2 * i) / 2 == i);
        assert((2 * i + 1) % 2 == 1 && (2 * i + 1) / 2 == i);
    }
    assert(channel_of(items, 0) =~= left);
    assert(channel_of(items, 1) =~= right);
}

/// How many frames a number of samples of some channels holds; the last one may be cut short.
pub open spec fn frames_in(len: nat, channels: nat) -> nat {
    ((len + channels - 1) / channels as int) as nat
}

/// One of the first two channels of an interleaved recording. A recording with one channel has
/// it on both sides.
pub open spec fn side_of(samples: Seq<Binary32>, channels: nat, side: int) -> Seq<Binary32> {
    if channels == 1 {
        samples
    } else {
        Seq::new(
            frames_in(samples.len(), channels),
            |i: int| samples[i * channels + side],
        )
    }
}

/// The left and right side of a recording.
pub fn to_stereo(samples: &[Binary32], channels: usize) -> (r: (Vec<Binary32>, Vec<Binary32>))
    requires
        channels >= 1,
        channels == 1 || samples@.len() % channels as nat != 1,
    ensures
        r.0@ == side_of(samples@, channels as nat, 0),
        r.1@ == side_of(samples@, channels as nat, 1),
{
    let len: usize = samples.len();
    let mut left: Vec<Binary32> = Vec::new();
    let mut right: Vec<Binary32> = Vec::new();
    if channels == 1 {
        let mut i: usize = 0;
        while i < len
            invariant
                i <= len,
                len == samples@.len(),
                left@ == samples@.take(i as int),
                right@ == samples@.take(i as int),
            decreases len - i,
        {
            assert(samples@.take(i + 1) =~= samples@.take(i as int).push(samples@[i as int]));
            left.push(samples[i]);
            right.push(samples[i]);
            i = i + 1;
        }
        assert(samples@.take(len as int) =~= samples@);
        return (left, right);
    }
    let ghost c = channels as nat;
    let ghost n = frames_in(len as nat, c);
    let mut at: usize = 0;
    let mut done = false;
    if len == 0 {
        done = true;
    }
    proof {
        assert(n == 0 <==> len == 0) by (nonlinear_arith)
            requires
                n == ((len + c - 1) / c as int) as nat,
                c >= 2,
                len >= 0,
        ;
    }
    while !done
        invariant
            len == samples@.len(),
            c == channels,
            channels >= 2,
            len as nat % c != 1,
            n == frames_in(len as nat, c),
            left@.len() == right@.len(),
            left@.len() <= n,
            done ==> left@.len() == n,
            !done ==> at == left@.len() * c && at < len,
            forall|j: int| 0 <= j < left@.len() ==> left@[j] == samples@[j * c],
            forall|j: int| 0 <= j < left@.len() ==> right@[j] == samples@[j * c + 1],
        decreases (if done { 0 } else { n - left@.len() + 1 }),
    {
        let ghost k = left@.len();
        proof {
            lemma_last_frame(len as nat, c, k, at as nat);
        }
        left.push(samples[at]);
        right.push(samples[at + 1]);
        if channels < len - at {
            at = at + channels;
        } else {
            done = true;
        }
    }
    assert(left@ =~= side_of(samples@, c, 0));
    assert(right@ =~= side_of(samples@, c, 1));
    (left, right)
}

/// Where a frame begins there is another sample, and after the last frame there is none.
proof fn lemma_last_frame(len: nat, c: nat, k: nat, at: nat)
    requires
        c >= 2,
        len % c != 1,
        at == k * c,
        at < len,
    ensures
        at + 1 < len,
        k + 1 <= frames_in(len, c),
        at + c < len ==> at + c == (k + 1) * c,
        at + c >= len ==> k + 1 == frames_in(len, c),
{
    let n = frames_in(len, c);
    assert(at + c == (k + 1) * c) by (nonlinear_arith)
        requires
            at == k * c,
    ;
    if at + 1 == len {
        assert(len % c == 1) by (nonlinear_arith)
            requires
                len == k * c + 1,
                c >= 2,
        ;
    }
    assert(k + 1 <= n) by (nonlinear_arith)
        requires
            k * c < len,
            n == ((len + c - 1) / c as int) as nat,
            c >= 2,
    ;
    if at + c >= len {
        assert(n <= k + 1) by (nonlinear_arith)
            requires
                (k + 1) * c >= len,
                n == ((len + c - 1) / c as int) as nat,
                c >= 2,
        ;
    }
}

/// A recording followed by silence up to a length, or cut to it.
pub open spec fn resized(samples: Seq<Binary32>, len: nat) -> Seq<Binary32> {
    Seq::new(
        len,
        |i: int|
            if i < samples.len() {
                samples[i]
            } else {
                zero()
            },
    )
}

/// Brings a recording to a length.
pub fn resize(samples: &mut Vec<Binary32>, len: usize)
    ensures
        final(samples)@ == resized(old(samples)@, len as nat),
{
    let ghost before = samples@;
    if samples.len() > len {
        samples.truncate(len);
    }
    while samples.len() < len
        invariant
            samples@.len() <= len,
            forall|i: int| 0 <= i < samples@.len() ==> samples@[i] == resized(before, len as nat)[i],
            before.len() <= len ==> before.len() <= samples@.len(),
            before.len() > len ==> samples@.len() == len,
        decreases len - samples.len(),
    {
        samples.push(Binary32 { bits: 0 });
    }
    assert(samples@ =~= resized(before, len as nat));
}

/// The number nearest to a whole number.
pub open spec fn integer(v: int) -> Binary32 {
    if v < 0 {
        count((-v) as nat).turned()
    } else {
        count(v as nat)
    }
}

/// A sample of a whole-number recording: its share of the largest magnitude that its bits can
/// hold.
pub open spec fn share_of_range(sample: i32, bits: u16) -> Binary32 {
    quotient(integer(sample as int), count(pow2((bits - 1) as nat)))
}

/// Makes a sample of a whole number of some bits.
pub fn sample_from_int(sample: i32, bits: u16) -> (r: Binary32)
    requires
        1 <= bits <= 32,
    ensures
        r == share_of_range(sample, bits),
{
    let down: u32 = (bits - 1) as u32;
    proof {
        lemma_u32_pow2_no_overflow(down as nat);
        lemma_u32_shl_is_mul(1, down);
    }
    let max_val: u32 = 1u32 << down;
    let divisor = Binary32::of_count(max_val as usize);
    let number = if sample < 0 {
        let size: i64 = -(sample as i64);
        Binary32::of_count(size as usize).neg()
    } else {
        Binary32::of_count(sample as usize)
    };
    number.over(divisor)
}

/// Samples that keep to their bits lie between minus one and one.
pub proof fn samples_in_range(sample: i32, bits: u16)
    requires
        1 <= bits <= 32,
        -pow2((bits - 1) as nat) <= sample <= pow2((bits - 1) as nat),
    ensures
        !share_of_range(sample, bits).nan(),
        size(share_of_range(sample, bits)) <= one().value(),
{
    lemma_one();
    lemma2_to64();
    let k = (bits - 1) as nat;
    if k < 31 {
        lemma_pow2_strictly_increases(k, 31);
    }
    let m = pow2(k);
    assert(power_of_two(m));
    lemma_count_of_power(m as usize);
    let a: nat = if sample < 0 {
        (-(sample as int)) as nat
    } else {
        sample as nat
    };
    let u = pow2(149);
    assert(a * u <= m * u) by (nonlinear_arith)
        requires
            a <= m,
    ;
    lemma_ratio_order(a * u, 1, m * u, 1);
    lemma_mag_order(count(a).code(), count(m).code());
    lemma_signed(false, crate::rounding::rounded(crate::rounding::ratio(a * u, 1)));
    lemma_signed(false, crate::rounding::rounded(crate::rounding::ratio(m * u, 1)));
    let n = integer(sample as int);
    assert(n.code() == count(a).code());
    assert(m * u > 0) by (nonlinear_arith)
        requires
            m > 0,
            u > 0,
    ;
    lemma_quotient(n, count(m));
    lemma_quotient_below(n, count(m));
}

} // verus!
